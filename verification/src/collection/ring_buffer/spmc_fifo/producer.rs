//! The pushing side of a FIFO ring.

use vstd::prelude::*;
use vstd::math::min;
use crate::collection::ring_buffer::fixed_buffer::wrapped;
use crate::collection::ring_buffer::spmc_fifo::SpmcRingBufferFifo;
use crate::lane_queue::local_queue::LocalQueue;

verus! {

/// The single party that pushes into a [`SpmcRingBufferFifo`].
pub struct Producer<'a, T> {
    /// The ring this handle pushes into.
    pub ring: &'a mut SpmcRingBufferFifo<T>,
}

impl<'a, T> Producer<'a, T> {
    /// The ring behind this handle.
    pub open spec fn ring(&self) -> SpmcRingBufferFifo<T> {
        *self.ring
    }

    pub(crate) fn new(r: &'a mut SpmcRingBufferFifo<T>) -> (p: Self)
        ensures
            p.ring() == *old(r),
            *final(p.ring) == *final(r),
    {
        Producer { ring: r }
    }

    /// See [`SpmcRingBufferFifo::push`].
    pub fn push(&mut self, val: T) -> (r: Result<(), T>)
        requires
            old(self).ring().wf(),
        ensures
            *final(final(self).ring) == *final(old(self).ring),
            final(self).ring().wf(),
            final(self).ring().spec_capacity() == old(self).ring().spec_capacity(),
            old(self).ring()@.len() < old(self).ring().spec_capacity() ==> r == Ok::<(), T>(()) && final(self).ring()@ == old(self).ring()@.push(val),
            old(self).ring()@.len() >= old(self).ring().spec_capacity() ==> r == Err::<(), T>(val) && final(self).ring()@ == old(self).ring()@,
            final(self).ring().stolen() == old(self).ring().stolen(),
            final(self).ring().blocked() == old(self).ring().blocked(),
            r is Ok ==> final(self).ring().spec_tail() == wrapped(old(self).ring().spec_tail() as int, 1),
            r is Err ==> final(self).ring().spec_tail() == old(self).ring().spec_tail(),
    {
        self.ring.push(val)
    }

    /// See [`SpmcRingBufferFifo::push_batch`].
    pub fn push_batch(&mut self, max: usize, vals: &mut Vec<T>) -> (r: usize)
        requires
            old(self).ring().wf(),
            max > 0,
            old(vals)@.len() > 0,
        ensures
            *final(final(self).ring) == *final(old(self).ring),
            final(self).ring().wf(),
            final(self).ring().spec_capacity() == old(self).ring().spec_capacity(),
            r == min(min(old(self).ring().spec_capacity() - old(self).ring()@.len(), max as int), old(vals)@.len() as int),
            final(self).ring()@ == old(self).ring()@ + old(vals)@.take(r as int),
            final(vals)@ == old(vals)@.skip(r as int),
            final(self).ring().stolen() == old(self).ring().stolen(),
            final(self).ring().blocked() == old(self).ring().blocked(),
            final(self).ring().spec_tail() == wrapped(old(self).ring().spec_tail() as int, r as int),
    {
        self.ring.push_batch(max, vals)
    }

    /// The owner may pop too: see [`SpmcRingBufferFifo::pop`].
    pub fn pop(&mut self) -> (r: Option<T>)
        requires
            old(self).ring().wf(),
        ensures
            *final(final(self).ring) == *final(old(self).ring),
            final(self).ring().wf(),
            final(self).ring().spec_capacity() == old(self).ring().spec_capacity(),
            old(self).ring()@.len() > 0 ==> r == Some(old(self).ring()@[0]) && final(self).ring()@ == old(self).ring()@.drop_first(),
            old(self).ring()@.len() == 0 ==> r is None && final(self).ring()@ == old(self).ring()@,
            final(self).ring().spec_tail() == old(self).ring().spec_tail(),
            r is Some ==> final(self).ring().stolen() == wrapped(old(self).ring().stolen() as int, 1)
                && final(self).ring().blocked() == wrapped(old(self).ring().blocked() as int, 1),
            r is None ==> final(self).ring().stolen() == old(self).ring().stolen() && final(self).ring().blocked() == old(self).ring().blocked(),
    {
        self.ring.pop()
    }

    /// See [`SpmcRingBufferFifo::drain`].
    pub fn drain(&mut self, out: &mut Vec<T>) -> (r: usize)
        requires
            old(self).ring().wf(),
        ensures
            *final(final(self).ring) == *final(old(self).ring),
            final(self).ring().wf(),
            final(self).ring().spec_capacity() == old(self).ring().spec_capacity(),
            r == old(self).ring()@.len(),
            final(out)@ == old(out)@ + old(self).ring()@,
            final(self).ring()@ == Seq::<T>::empty(),
            final(self).ring().spec_tail() == old(self).ring().spec_tail(),
            final(self).ring().stolen() == wrapped(old(self).ring().stolen() as int, r as int),
            final(self).ring().blocked() == wrapped(old(self).ring().blocked() as int, r as int),
    {
        self.ring.drain(out)
    }
}

impl<'a, T> LocalQueue<T> for Producer<'a, T> {
    open spec fn local_view(&self) -> Seq<T> {
        self.ring()@
    }

    open spec fn local_capacity(&self) -> int {
        self.ring().spec_capacity()
    }

    open spec fn local_wf(&self) -> bool {
        self.ring().wf()
    }

    proof fn lemma_local_wf(&self) {
        self.ring().lemma_len();
    }

    fn capacity(&self) -> (r: usize) {
        self.ring.capacity()
    }

    fn remaining(&self) -> (r: usize) {
        self.ring.remaining()
    }

    fn push(&mut self, val: T) -> (r: Result<(), T>)
        ensures
            *final(final(self).ring) == *final(old(self).ring),
    {
        self.ring.push(val)
    }

    fn push_iter(&mut self, vals: &mut Vec<T>) -> (r: usize)
        ensures
            *final(final(self).ring) == *final(old(self).ring),
    {
        proof { self.lemma_local_wf(); }
        if vals.len() == 0 {
            assert(old(vals)@.take(0) =~= Seq::<T>::empty());
            assert(old(self).local_view() + old(vals)@.take(0) =~= old(self).local_view());
            assert(old(vals)@.skip(0) =~= old(vals)@);
            return 0;
        }
        let n = vals.len();
        self.ring.push_batch(n, vals)
    }
}

} // verus!
