//! A thief's handle: a victim ring and the thief's own ring.

use vstd::prelude::*;
use vstd::math::min;
use crate::utils::steal::Steal;
use crate::collection::ring_buffer::fixed_buffer::wrapped;
use crate::collection::ring_buffer::spmc_lifo_produce_fifo_consume::SpmcRingBufferLifoProduceFifoConsume;

verus! {

/// How many values a steal takes when the caller does not say.
pub const DEFAULT_STEAL_BATCH: usize = 10;

/// What a batch steal of at most `max` values from `src` into `dst` returns, given their contents.
pub open spec fn steal_batch_outcome(src_len: int, dst_len: int, dst_capacity: int, max: int) -> Steal<usize> {
    if dst_len >= dst_capacity {
        Steal::Busy
    } else if src_len == 0 {
        Steal::Empty
    } else {
        Steal::Success(min(min(dst_capacity - dst_len, max), src_len) as usize)
    }
}

/// How many values a batch steal moved.
pub open spec fn stolen_count(outcome: Steal<usize>) -> int {
    match outcome {
        Steal::Success(n) => n as int,
        _ => 0,
    }
}

/// A thief that takes from `src` into its own ring `dst`.
pub struct Consumer<'a, T> {
    /// The victim.
    pub src: &'a mut SpmcRingBufferLifoProduceFifoConsume<T>,
    /// The thief's own ring.
    pub dst: &'a mut SpmcRingBufferLifoProduceFifoConsume<T>,
}

impl<'a, T> Consumer<'a, T> {
    /// The victim.
    pub open spec fn src(&self) -> SpmcRingBufferLifoProduceFifoConsume<T> {
        *self.src
    }

    /// The thief's own ring.
    pub open spec fn dst(&self) -> SpmcRingBufferLifoProduceFifoConsume<T> {
        *self.dst
    }

    pub(crate) fn new(src: &'a mut SpmcRingBufferLifoProduceFifoConsume<T>, dst: &'a mut SpmcRingBufferLifoProduceFifoConsume<T>) -> (c: Self)
        ensures
            c.src() == *old(src),
            c.dst() == *old(dst),
            *final(c.src) == *final(src),
            *final(c.dst) == *final(dst),
    {
        Consumer { src, dst }
    }

    /// Takes a batch of at most [`DEFAULT_STEAL_BATCH`] values from the victim into the thief's
    /// ring, saying why when it takes nothing: [`Steal::Empty`] means the victim is dry,
    /// [`Steal::Busy`] that the thief's ring is full.
    pub fn try_steal(&mut self) -> (r: Steal<usize>)
        requires
            old(self).src().wf(),
            old(self).dst().wf(),
        ensures
            *final(final(self).src) == *final(old(self).src),
            *final(final(self).dst) == *final(old(self).dst),
            final(self).src().spec_capacity() == old(self).src().spec_capacity(),
            final(self).dst().spec_capacity() == old(self).dst().spec_capacity(),
            final(self).src().wf(),
            final(self).dst().wf(),
            r == steal_batch_outcome(old(self).src()@.len() as int, old(self).dst()@.len() as int,
                old(self).dst().spec_capacity(), DEFAULT_STEAL_BATCH as int),
            final(self).src()@ == old(self).src()@.skip(stolen_count(r)),
            final(self).dst()@ == old(self).dst()@ + old(self).src()@.take(stolen_count(r)),
            final(self).src().spec_tail() == old(self).src().spec_tail(),
            final(self).src().spec_stolen() == wrapped(old(self).src().spec_stolen() as int, stolen_count(r)),
            final(self).src().in_stealing() == wrapped(old(self).src().in_stealing() as int, stolen_count(r)),
            final(self).dst().spec_stolen() == old(self).dst().spec_stolen(),
            final(self).dst().in_stealing() == old(self).dst().in_stealing(),
            final(self).dst().spec_tail() == wrapped(old(self).dst().spec_tail() as int, stolen_count(r)),
    {
        self.try_steal_batch(DEFAULT_STEAL_BATCH)
    }

    /// Like [`Self::try_steal`], with the batch capped at `max`.
    pub fn try_steal_batch(&mut self, max: usize) -> (r: Steal<usize>)
        requires
            old(self).src().wf(),
            old(self).dst().wf(),
            max > 0,
        ensures
            *final(final(self).src) == *final(old(self).src),
            *final(final(self).dst) == *final(old(self).dst),
            final(self).src().spec_capacity() == old(self).src().spec_capacity(),
            final(self).dst().spec_capacity() == old(self).dst().spec_capacity(),
            final(self).src().wf(),
            final(self).dst().wf(),
            r == steal_batch_outcome(old(self).src()@.len() as int, old(self).dst()@.len() as int,
                old(self).dst().spec_capacity(), max as int),
            final(self).src()@ == old(self).src()@.skip(stolen_count(r)),
            final(self).dst()@ == old(self).dst()@ + old(self).src()@.take(stolen_count(r)),
            final(self).src().spec_tail() == old(self).src().spec_tail(),
            final(self).src().spec_stolen() == wrapped(old(self).src().spec_stolen() as int, stolen_count(r)),
            final(self).src().in_stealing() == wrapped(old(self).src().in_stealing() as int, stolen_count(r)),
            final(self).dst().spec_stolen() == old(self).dst().spec_stolen(),
            final(self).dst().in_stealing() == old(self).dst().in_stealing(),
            final(self).dst().spec_tail() == wrapped(old(self).dst().spec_tail() as int, stolen_count(r)),
    {
        let ghost src0 = self.src@;
        let ghost dst0 = self.dst@;
        let r = self.src.try_steal_batch_to(max, self.dst);
        proof {
            if stolen_count(r) == 0 {
                assert(src0.skip(0) =~= src0);
                assert(dst0 + src0.take(0) =~= dst0);
            }
        }
        r
    }

    /// Takes the victim's oldest value straight to the caller, not through the thief's ring.
    pub fn try_steal_one(&mut self) -> (r: Steal<T>)
        requires
            old(self).src().wf(),
        ensures
            *final(final(self).src) == *final(old(self).src),
            *final(final(self).dst) == *final(old(self).dst),
            final(self).src().spec_capacity() == old(self).src().spec_capacity(),
            final(self).dst().spec_capacity() == old(self).dst().spec_capacity(),
            final(self).src().wf(),
            final(self).dst() == old(self).dst(),
            old(self).src()@.len() == 0 ==> r == Steal::<T>::Empty && final(self).src()@ == old(self).src()@,
            old(self).src()@.len() > 0 ==> r == Steal::Success(old(self).src()@[0])
                && final(self).src()@ == old(self).src()@.drop_first(),
            final(self).src().spec_tail() == old(self).src().spec_tail(),
            final(self).src()@.len() < old(self).src()@.len() ==>
                final(self).src().spec_stolen() == wrapped(old(self).src().spec_stolen() as int, 1)
                && final(self).src().in_stealing() == wrapped(old(self).src().in_stealing() as int, 1),
            final(self).src()@.len() == old(self).src()@.len() ==>
                final(self).src().spec_stolen() == old(self).src().spec_stolen()
                && final(self).src().in_stealing() == old(self).src().in_stealing(),
    {
        self.src.try_steal_one()
    }

    /// [`Self::try_steal_one`] for callers that do not care why nothing came back.
    pub fn steal_one(&mut self) -> (r: Option<T>)
        requires
            old(self).src().wf(),
        ensures
            *final(final(self).src) == *final(old(self).src),
            *final(final(self).dst) == *final(old(self).dst),
            final(self).src().spec_capacity() == old(self).src().spec_capacity(),
            final(self).dst().spec_capacity() == old(self).dst().spec_capacity(),
            final(self).src().wf(),
            final(self).dst() == old(self).dst(),
            old(self).src()@.len() == 0 ==> r is None && final(self).src()@ == old(self).src()@,
            old(self).src()@.len() > 0 ==> r == Some(old(self).src()@[0])
                && final(self).src()@ == old(self).src()@.drop_first(),
            final(self).src().spec_tail() == old(self).src().spec_tail(),
            final(self).src()@.len() < old(self).src()@.len() ==>
                final(self).src().spec_stolen() == wrapped(old(self).src().spec_stolen() as int, 1)
                && final(self).src().in_stealing() == wrapped(old(self).src().in_stealing() as int, 1),
            final(self).src()@.len() == old(self).src()@.len() ==>
                final(self).src().spec_stolen() == old(self).src().spec_stolen()
                && final(self).src().in_stealing() == old(self).src().in_stealing(),
    {
        self.try_steal_one().success()
    }

    /// [`Self::try_steal`] reduced to the number of values taken.
    pub fn pop_batch(&mut self) -> (r: usize)
        requires
            old(self).src().wf(),
            old(self).dst().wf(),
        ensures
            *final(final(self).src) == *final(old(self).src),
            *final(final(self).dst) == *final(old(self).dst),
            final(self).src().spec_capacity() == old(self).src().spec_capacity(),
            final(self).dst().spec_capacity() == old(self).dst().spec_capacity(),
            final(self).src().wf(),
            final(self).dst().wf(),
            r == stolen_count(steal_batch_outcome(old(self).src()@.len() as int, old(self).dst()@.len() as int,
                old(self).dst().spec_capacity(), DEFAULT_STEAL_BATCH as int)),
            final(self).src()@ == old(self).src()@.skip(r as int),
            final(self).dst()@ == old(self).dst()@ + old(self).src()@.take(r as int),
            final(self).src().spec_tail() == old(self).src().spec_tail(),
            final(self).src().spec_stolen() == wrapped(old(self).src().spec_stolen() as int, r as int),
            final(self).src().in_stealing() == wrapped(old(self).src().in_stealing() as int, r as int),
            final(self).dst().spec_stolen() == old(self).dst().spec_stolen(),
            final(self).dst().in_stealing() == old(self).dst().in_stealing(),
            final(self).dst().spec_tail() == wrapped(old(self).dst().spec_tail() as int, r as int),
    {
        match self.try_steal().success() {
            Some(n) => n,
            None => 0,
        }
    }
}

} // verus!
