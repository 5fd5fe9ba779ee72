//! A fixed-size stack shared between one pusher and several poppers.

use vstd::prelude::*;
use crate::collection::ring_buffer::consts::valid_capacity;
use crate::collection::ring_buffer::fixed_buffer::FixedBuffer;
use crate::collection::ring_buffer::head::Head;
use crate::utils::bits::{spec_hi, spec_lo};

verus! {

/// Storage plus one packed cursor pair `(next_push, next_pop)`.
pub struct SpmcStack<T> {
    buffer: FixedBuffer<T>,
    cursor: Head,
}

impl<T> SpmcStack<T> {
    pub closed spec fn wf(&self) -> bool {
        self.buffer.wf()
    }

    /// Number of cells.
    pub closed spec fn spec_capacity(&self) -> int {
        self.buffer.spec_capacity()
    }

    /// Contents of the cells, by slot.
    pub closed spec fn spec_slots(&self) -> Seq<Option<T>> {
        self.buffer.slots()
    }

    /// Next push position.
    pub closed spec fn next_push(&self) -> u32 {
        spec_hi(self.cursor@)
    }

    /// Next pop position.
    pub closed spec fn next_pop(&self) -> u32 {
        spec_lo(self.cursor@)
    }

    /// An empty stack of `capacity` cells; the capacity must be a power of two below
    /// `MAX_CAPACITY`.
    pub fn new(capacity: usize) -> (r: Self)
        requires
            valid_capacity(capacity as int),
        ensures
            r.wf(),
            r.spec_capacity() == capacity,
            r.next_push() == 0,
            r.next_pop() == 0,
            forall|i: int| 0 <= i < capacity ==> (#[trigger] r.spec_slots()[i]) is None,
    {
        SpmcStack { buffer: FixedBuffer::new(capacity as u32), cursor: Head::new(0, 0) }
    }
}

} // verus!
