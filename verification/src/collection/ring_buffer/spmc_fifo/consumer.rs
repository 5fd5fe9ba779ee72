//! The popping side of a FIFO ring.

use vstd::prelude::*;
use vstd::math::min;
use crate::collection::ring_buffer::fixed_buffer::{FixedBuffer, wrapped};
use crate::collection::ring_buffer::spmc_fifo::SpmcRingBufferFifo;

verus! {

/// A party that pops from a [`SpmcRingBufferFifo`].
pub struct Consumer<'a, T> {
    /// The ring this handle pops from.
    pub ring: &'a mut SpmcRingBufferFifo<T>,
}

impl<'a, T> Consumer<'a, T> {
    /// The ring behind this handle.
    pub open spec fn ring(&self) -> SpmcRingBufferFifo<T> {
        *self.ring
    }

    pub(crate) fn new(r: &'a mut SpmcRingBufferFifo<T>) -> (c: Self)
        ensures
            c.ring() == *old(r),
            *final(c.ring) == *final(r),
    {
        Consumer { ring: r }
    }

    /// See [`SpmcRingBufferFifo::pop`].
    pub fn pop(&mut self) -> (r: Option<T>)
        requires
            old(self).ring().wf(),
        ensures
            *final(final(self).ring) == *final(old(self).ring),
            final(self).ring().wf(),
            final(self).ring().spec_capacity() == old(self).ring().spec_capacity(),
            old(self).ring()@.len() > 0 ==> r == Some(old(self).ring()@[0]) && final(self).ring()@ == old(self).ring()@.drop_first(),
            old(self).ring()@.len() == 0 ==> r is None && final(self).ring()@ == old(self).ring()@,
            final(self).ring().spec_tail() == old(self).ring().spec_tail(),
            r is Some ==> final(self).ring().stolen() == wrapped(old(self).ring().stolen() as int, 1)
                && final(self).ring().blocked() == wrapped(old(self).ring().blocked() as int, 1),
            r is None ==> final(self).ring().stolen() == old(self).ring().stolen() && final(self).ring().blocked() == old(self).ring().blocked(),
    {
        self.ring.pop()
    }

    /// See [`SpmcRingBufferFifo::pop_batch`].
    pub fn pop_batch(&mut self, max: usize, dst: &mut Vec<T>) -> (r: usize)
        requires
            old(self).ring().wf(),
            max > 0,
        ensures
            *final(final(self).ring) == *final(old(self).ring),
            final(self).ring().wf(),
            final(self).ring().spec_capacity() == old(self).ring().spec_capacity(),
            r == min(max as int, old(self).ring()@.len() as int),
            final(dst)@ == old(dst)@ + old(self).ring()@.take(r as int),
            final(self).ring()@ == old(self).ring()@.skip(r as int),
            final(self).ring().spec_tail() == old(self).ring().spec_tail(),
            final(self).ring().stolen() == wrapped(old(self).ring().stolen() as int, r as int),
            final(self).ring().blocked() == wrapped(old(self).ring().blocked() as int, r as int),
    {
        self.ring.pop_batch(max, dst)
    }

    /// See [`SpmcRingBufferFifo::pop_batch_to`].
    pub fn pop_batch_to(&mut self, dst: &mut FixedBuffer<T>, write_start_cursor: u32, max_write_count: usize) -> (r: usize)
        requires
            old(self).ring().wf(),
            old(dst).wf(),
            0 < max_write_count <= old(dst).spec_capacity(),
        ensures
            *final(final(self).ring) == *final(old(self).ring),
            final(self).ring().wf(),
            final(dst).wf(),
            r == min(max_write_count as int, old(self).ring()@.len() as int),
            final(self).ring()@ == old(self).ring()@.skip(r as int),
            forall|j: int| 0 <= j < r ==> #[trigger] final(dst).at_offset(write_start_cursor as int, j) == Some(old(self).ring()@[j]),
            final(self).ring().spec_tail() == old(self).ring().spec_tail(),
            final(self).ring().stolen() == wrapped(old(self).ring().stolen() as int, r as int),
            final(self).ring().blocked() == wrapped(old(self).ring().blocked() as int, r as int),
    {
        self.ring.pop_batch_to(dst, write_start_cursor, max_write_count)
    }

    /// Reserves nothing: every pop claims the values it takes in the same step, so there is
    /// never anything left to claim ahead of time.
    pub fn claim(&self) {
    }
}

} // verus!
