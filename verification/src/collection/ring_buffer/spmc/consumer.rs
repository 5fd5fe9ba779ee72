//! The popping side of a FIFO ring.

use vstd::prelude::*;
use vstd::math::min;
use crate::collection::ring_buffer::spmc::SpmcRingBuffer;

verus! {

/// A party that pops from a [`SpmcRingBuffer`].
pub struct Consumer<'a, T> {
    /// The ring this handle pops from.
    pub ring: &'a mut SpmcRingBuffer<T>,
}

impl<'a, T> Consumer<'a, T> {
    /// The ring behind this handle.
    pub open spec fn ring(&self) -> SpmcRingBuffer<T> {
        *self.ring
    }

    pub(crate) fn new(r: &'a mut SpmcRingBuffer<T>) -> (c: Self)
        ensures
            c.ring() == *old(r),
            *final(c.ring) == *final(r),
    {
        Consumer { ring: r }
    }

    /// See [`SpmcRingBuffer::pop`].
    pub fn pop(&mut self) -> (r: Option<T>)
        requires
            old(self).ring().wf(),
        ensures
            *final(final(self).ring) == *final(old(self).ring),
            final(self).ring().wf(),
            final(self).ring().spec_capacity() == old(self).ring().spec_capacity(),
            old(self).ring()@.len() > 0 ==> r == Some(old(self).ring()@[0]) && final(self).ring()@ == old(self).ring()@.drop_first(),
            old(self).ring()@.len() == 0 ==> r is None && final(self).ring()@ == old(self).ring()@,
    {
        self.ring.pop()
    }

    /// See [`SpmcRingBuffer::pop_batch`].
    pub fn pop_batch(&mut self, max: usize, dst: &mut Vec<T>) -> (r: usize)
        requires
            old(self).ring().wf(),
            max > 0,
        ensures
            *final(final(self).ring) == *final(old(self).ring),
            final(self).ring().wf(),
            final(self).ring().spec_capacity() == old(self).ring().spec_capacity(),
            r == min(max as int, old(self).ring()@.len() as int),
            final(dst)@ == old(dst)@ + old(self).ring()@.take(r as int),
            final(self).ring()@ == old(self).ring()@.skip(r as int),
    {
        self.ring.pop_batch(max, dst)
    }
}

} // verus!
