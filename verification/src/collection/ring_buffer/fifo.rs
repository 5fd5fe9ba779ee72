//! The first ring of the family: one pusher, values kept first in first out.

use vstd::prelude::*;
use vstd::math::min;
use crate::collection::ring_buffer::consts::valid_capacity;
use crate::collection::ring_buffer::fixed_buffer::wrapped;
use crate::collection::ring_buffer::spmc_fifo::SpmcRingBufferFifo;

verus! {

/// A ring that its owner pushes into; a push takes as many values as there are free cells, the
/// capacity less the cells from `stolen` up to `tail`.
///
/// It keeps its head, tail and cells the way [`SpmcRingBufferFifo`] does, and pushes the same way.
pub struct RingBuffer<T> {
    ring: SpmcRingBufferFifo<T>,
}

impl<T> View for RingBuffer<T> {
    type V = Seq<T>;

    /// The values in the ring, oldest first.
    closed spec fn view(&self) -> Seq<T> {
        self.ring@
    }
}

impl<T> RingBuffer<T> {
    pub closed spec fn wf(&self) -> bool {
        self.ring.wf()
    }

    /// Number of cells.
    pub closed spec fn spec_capacity(&self) -> int {
        self.ring.spec_capacity()
    }

    /// The tail cursor: where the next push goes.
    pub closed spec fn spec_tail(&self) -> u32 {
        self.ring.spec_tail()
    }

    /// The stolen cursor: everything before it has left the ring.
    pub closed spec fn spec_stolen(&self) -> u32 {
        self.ring.stolen()
    }

    /// The in-progress cursor, the second half of the packed head: everything before it has been
    /// claimed by a consumer.
    pub closed spec fn spec_in_progress(&self) -> u32 {
        self.ring.blocked()
    }

    /// A ring with `capacity` empty cells; the capacity must be a power of two below
    /// `MAX_CAPACITY`.
    pub fn new(capacity: usize) -> (r: Self)
        requires
            valid_capacity(capacity as int),
        ensures
            r.wf(),
            r@ == Seq::<T>::empty(),
            r.spec_capacity() == capacity,
            r.spec_stolen() == 0,
            r.spec_in_progress() == 0,
            r.spec_tail() == 0,
    {
        RingBuffer { ring: SpmcRingBufferFifo::new(capacity) }
    }

    /// Appends `val`, or hands it back when no cell is free.
    pub fn push(&mut self, val: T) -> (r: Result<(), T>)
        requires
            old(self).wf(),
        ensures
            final(self).wf(),
            final(self).spec_capacity() == old(self).spec_capacity(),
            final(self).spec_stolen() == old(self).spec_stolen(),
            final(self).spec_in_progress() == old(self).spec_in_progress(),
            old(self)@.len() < old(self).spec_capacity() ==> r == Ok::<(), T>(()) && final(self)@ == old(self)@.push(val)
                && final(self).spec_tail() == wrapped(old(self).spec_tail() as int, 1),
            old(self)@.len() >= old(self).spec_capacity() ==> r == Err::<(), T>(val) && final(self)@ == old(self)@
                && final(self).spec_tail() == old(self).spec_tail(),
    {
        self.ring.push(val)
    }

    /// Takes up to `max` values from the front of `vals`, in order, as many as the free cells
    /// allow, and returns how many it took.
    pub fn push_batch(&mut self, max: usize, vals: &mut Vec<T>) -> (r: usize)
        requires
            old(self).wf(),
        ensures
            final(self).wf(),
            final(self).spec_capacity() == old(self).spec_capacity(),
            r == min(min(old(self).spec_capacity() - old(self)@.len(), max as int), old(vals)@.len() as int),
            final(self)@ == old(self)@ + old(vals)@.take(r as int),
            final(vals)@ == old(vals)@.skip(r as int),
            final(self).spec_stolen() == old(self).spec_stolen(),
            final(self).spec_in_progress() == old(self).spec_in_progress(),
            final(self).spec_tail() == wrapped(old(self).spec_tail() as int, r as int),
    {
        if max == 0 || vals.len() == 0 {
            proof {
                assert(vals@.take(0) =~= Seq::<T>::empty());
                assert(old(self)@ + vals@.take(0) =~= old(self)@);
                assert(vals@.skip(0) =~= vals@);
                old(self).ring.lemma_len();
                assert(wrapped(old(self).spec_tail() as int, 0) == old(self).spec_tail());
            }
            return 0;
        }
        self.ring.push_batch(max, vals)
    }
}

} // verus!
