//! Single producer, several consumers, first in first out: the ring with split handles.

pub mod consumer;
pub mod producer;

use vstd::prelude::*;
use vstd::math::min;
use crate::collection::ring_buffer::consts::valid_capacity;
use crate::collection::ring_buffer::spmc_fifo::SpmcRingBufferFifo;

pub use consumer::Consumer;
pub use producer::Producer;

verus! {

/// Ring buffer with one producer and any number of consumers, first in first out; the producer
/// and the consumers each get a handle.
pub struct SpmcRingBuffer<T> {
    ring: SpmcRingBufferFifo<T>,
}

impl<T> View for SpmcRingBuffer<T> {
    type V = Seq<T>;

    /// The values in the ring, oldest first.
    closed spec fn view(&self) -> Seq<T> {
        self.ring@
    }
}

impl<T> SpmcRingBuffer<T> {
    pub closed spec fn wf(&self) -> bool {
        self.ring.wf()
    }

    /// Number of cells.
    pub closed spec fn spec_capacity(&self) -> int {
        self.ring.spec_capacity()
    }

    /// A ring with `capacity` empty cells; the capacity must be a power of two below
    /// `MAX_CAPACITY`.
    pub fn new(capacity: usize) -> (r: Self)
        requires
            valid_capacity(capacity as int),
        ensures
            r.wf(),
            r@ == Seq::<T>::empty(),
            r.spec_capacity() == capacity,
    {
        SpmcRingBuffer { ring: SpmcRingBufferFifo::new(capacity) }
    }

    /// The producer handle.
    pub fn split(&mut self) -> (p: Producer<'_, T>)
        ensures
            p.ring() == *old(self),
            *final(p.ring) == *final(self),
    {
        Producer::new(self)
    }

    /// A consumer handle.
    pub fn consumer(&mut self) -> (c: Consumer<'_, T>)
        ensures
            c.ring() == *old(self),
            *final(c.ring) == *final(self),
    {
        Consumer::new(self)
    }

    /// Appends `val`, or hands it back when the ring is full.
    pub fn push(&mut self, val: T) -> (r: Result<(), T>)
        requires
            old(self).wf(),
        ensures
            final(self).wf(),
            final(self).spec_capacity() == old(self).spec_capacity(),
            old(self)@.len() < old(self).spec_capacity() ==> r == Ok::<(), T>(()) && final(self)@ == old(self)@.push(val),
            old(self)@.len() >= old(self).spec_capacity() ==> r == Err::<(), T>(val) && final(self)@ == old(self)@,
    {
        self.ring.push(val)
    }

    /// Moves up to `max` values from the front of `vals` to the back of the ring, in order, and
    /// returns how many moved.
    pub fn push_batch(&mut self, max: usize, vals: &mut Vec<T>) -> (r: usize)
        requires
            old(self).wf(),
            max > 0,
            old(vals)@.len() > 0,
        ensures
            final(self).wf(),
            final(self).spec_capacity() == old(self).spec_capacity(),
            r == min(min(old(self).spec_capacity() - old(self)@.len(), max as int), old(vals)@.len() as int),
            final(self)@ == old(self)@ + old(vals)@.take(r as int),
            final(vals)@ == old(vals)@.skip(r as int),
    {
        self.ring.push_batch(max, vals)
    }

    /// Removes the oldest value, if any.
    pub fn pop(&mut self) -> (r: Option<T>)
        requires
            old(self).wf(),
        ensures
            final(self).wf(),
            final(self).spec_capacity() == old(self).spec_capacity(),
            old(self)@.len() > 0 ==> r == Some(old(self)@[0]) && final(self)@ == old(self)@.drop_first(),
            old(self)@.len() == 0 ==> r is None && final(self)@ == old(self)@,
    {
        self.ring.pop()
    }

    /// Moves up to `max` values from the front of the ring to the back of `dst`, in order, and
    /// returns how many moved.
    pub fn pop_batch(&mut self, max: usize, dst: &mut Vec<T>) -> (r: usize)
        requires
            old(self).wf(),
            max > 0,
        ensures
            final(self).wf(),
            final(self).spec_capacity() == old(self).spec_capacity(),
            r == min(max as int, old(self)@.len() as int),
            final(dst)@ == old(dst)@ + old(self)@.take(r as int),
            final(self)@ == old(self)@.skip(r as int),
    {
        self.ring.pop_batch(max, dst)
    }
}

} // verus!
