//! The pushing side of a FIFO ring.

use vstd::prelude::*;
use vstd::math::min;
use crate::collection::ring_buffer::spmc::SpmcRingBuffer;

verus! {

/// The single party that pushes into a [`SpmcRingBuffer`].
pub struct Producer<'a, T> {
    /// The ring this handle pushes into.
    pub ring: &'a mut SpmcRingBuffer<T>,
}

impl<'a, T> Producer<'a, T> {
    /// The ring behind this handle.
    pub open spec fn ring(&self) -> SpmcRingBuffer<T> {
        *self.ring
    }

    pub(crate) fn new(r: &'a mut SpmcRingBuffer<T>) -> (p: Self)
        ensures
            p.ring() == *old(r),
            *final(p.ring) == *final(r),
    {
        Producer { ring: r }
    }

    /// See [`SpmcRingBuffer::push`].
    pub fn push(&mut self, val: T) -> (r: Result<(), T>)
        requires
            old(self).ring().wf(),
        ensures
            *final(final(self).ring) == *final(old(self).ring),
            final(self).ring().wf(),
            final(self).ring().spec_capacity() == old(self).ring().spec_capacity(),
            old(self).ring()@.len() < old(self).ring().spec_capacity() ==> r == Ok::<(), T>(()) && final(self).ring()@ == old(self).ring()@.push(val),
            old(self).ring()@.len() >= old(self).ring().spec_capacity() ==> r == Err::<(), T>(val) && final(self).ring()@ == old(self).ring()@,
    {
        self.ring.push(val)
    }

    /// See [`SpmcRingBuffer::push_batch`].
    pub fn push_batch(&mut self, max: usize, vals: &mut Vec<T>) -> (r: usize)
        requires
            old(self).ring().wf(),
            max > 0,
            old(vals)@.len() > 0,
        ensures
            *final(final(self).ring) == *final(old(self).ring),
            final(self).ring().wf(),
            final(self).ring().spec_capacity() == old(self).ring().spec_capacity(),
            r == min(min(old(self).ring().spec_capacity() - old(self).ring()@.len(), max as int), old(vals)@.len() as int),
            final(self).ring()@ == old(self).ring()@ + old(vals)@.take(r as int),
            final(vals)@ == old(vals)@.skip(r as int),
    {
        self.ring.push_batch(max, vals)
    }
}

} // verus!
