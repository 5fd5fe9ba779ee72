//! An unbounded queue shared by a whole lane.

use std::collections::VecDeque;
use vstd::prelude::*;
use vstd::math::{min, max};
use crate::lane_queue::batch_size::{batch_size, spec_batch_size};
use crate::lane_queue::local_queue::LocalQueue;

verus! {

/// Unbounded first-in first-out queue shared by every thread of a lane.
pub struct LaneQueue<T> {
    queue: VecDeque<T>,
    /// A copy of the length, so that it can be read without touching the queue.
    length: usize,
}

impl<T> View for LaneQueue<T> {
    type V = Seq<T>;

    /// The queued values, oldest first.
    closed spec fn view(&self) -> Seq<T> {
        self.queue@
    }
}

/// The values `steal_batch_and_pop` moves into the ring besides the one it returns, for a queue
/// holding `q` and a ring of `capacity` cells holding `ring_len` values.
pub open spec fn spec_loaded<T>(q: Seq<T>, workers: int, capacity: int, ring_len: int) -> int {
    min(spec_batch_size(q.len() - 1, workers, capacity, capacity - ring_len), q.len() - 1)
}

/// What `steal_batch_and_pop` loads into a worker's ring besides the value it returns never
/// takes more than half of the ring, never more than its free cells, never more than an even share
/// of what is queued behind the returned value plus one, and never more than is queued there; with
/// work behind it, a free cell and a ring of at least two cells, it loads at least one. It is
/// always exactly one of those four bounds, the smallest, so nothing else caps it: with a single
/// worker and room for everything behind the returned value, it loads all of it.
pub proof fn lemma_loaded_bounds<T>(q: Seq<T>, workers: int, capacity: int, ring_len: int)
    requires
        q.len() > 0,
        0 <= ring_len <= capacity,
    ensures
        0 <= spec_loaded(q, workers, capacity, ring_len),
        spec_loaded(q, workers, capacity, ring_len) <= capacity / 2,
        spec_loaded(q, workers, capacity, ring_len) <= capacity - ring_len,
        spec_loaded(q, workers, capacity, ring_len) <= q.len() - 1,
        spec_loaded(q, workers, capacity, ring_len) <= (q.len() - 1) / max(workers, 1) + 1,
        q.len() > 1 && ring_len < capacity && capacity >= 2 ==> spec_loaded(q, workers, capacity, ring_len) >= 1,
        ({
            let n = spec_loaded(q, workers, capacity, ring_len);
            let len = q.len() - 1;
            n == len / max(workers, 1) + 1 || n == capacity / 2 || n == capacity - ring_len || n == len
        }),
        workers <= 1 && q.len() - 1 <= capacity / 2 && q.len() - 1 <= capacity - ring_len
            ==> spec_loaded(q, workers, capacity, ring_len) == q.len() - 1,
{
    let w = max(workers, 1);
    let len = q.len() - 1;
    assert(len / w >= 0) by (nonlinear_arith)
        requires
            len >= 0,
            w >= 1,
    ;
    if workers <= 1 {
        assert(w == 1);
        assert(len / 1 == len) by (nonlinear_arith);
    }
}

impl<T> LaneQueue<T> {
    /// The length copy agrees with the queue.
    pub closed spec fn wf(&self) -> bool {
        self.length == self.queue@.len()
    }

    /// An empty queue.
    pub fn new() -> (r: Self)
        ensures
            r.wf(),
            r@ == Seq::<T>::empty(),
    {
        LaneQueue { queue: VecDeque::new(), length: 0 }
    }

    /// An empty queue with room for `capacity` values before it reallocates; it still grows past
    /// that.
    pub fn with_capacity(capacity: usize) -> (r: Self)
        ensures
            r.wf(),
            r@ == Seq::<T>::empty(),
    {
        LaneQueue { queue: VecDeque::with_capacity(capacity), length: 0 }
    }

    /// Number of queued values.
    pub fn len(&self) -> (r: usize)
        requires
            self.wf(),
        ensures
            r == self@.len(),
    {
        self.length
    }

    /// Whether nothing is queued.
    pub fn is_empty(&self) -> (r: bool)
        requires
            self.wf(),
        ensures
            r == (self@.len() == 0),
    {
        self.len() == 0
    }

    /// Appends one value. Never refuses: that is the reason this queue exists.
    pub fn push(&mut self, val: T)
        requires
            old(self).wf(),
            old(self)@.len() < usize::MAX,
        ensures
            final(self).wf(),
            final(self)@ == old(self)@.push(val),
    {
        self.queue.push_back(val);
        self.length = self.queue.len();
    }

    /// Appends all of `vals`, in order.
    pub fn push_batch(&mut self, vals: Vec<T>)
        requires
            old(self).wf(),
            old(self)@.len() + vals@.len() <= usize::MAX,
        ensures
            final(self).wf(),
            final(self)@ == old(self)@ + vals@,
    {
        let ghost old_q = self.queue@;
        let ghost all = vals@;
        let mut rest = vals;
        let mut moved: usize = 0;
        let total = rest.len();
        // Work from the back of a reversed copy so that each step is a constant-time pop.
        let mut reversed: Vec<T> = Vec::new();
        while rest.len() > 0
            invariant
                reversed@.len() + rest@.len() == all.len(),
                rest@ == all.take(rest@.len() as int),
                forall|i: int| 0 <= i < reversed@.len() ==> #[trigger] reversed@[i] == all[all.len() - 1 - i],
            decreases rest@.len(),
        {
            let v = rest.pop().unwrap();
            reversed.push(v);
            proof {
                assert(rest@ =~= all.take(rest@.len() as int));
            }
        }
        while moved < total
            invariant
                total == all.len(),
                moved <= total,
                reversed@.len() == total - moved,
                forall|i: int| 0 <= i < reversed@.len() ==> #[trigger] reversed@[i] == all[all.len() - 1 - i],
                self.queue@ == old_q + all.take(moved as int),
                old_q.len() + all.len() <= usize::MAX,
            decreases total - moved,
        {
            let v = reversed.pop().unwrap();
            self.queue.push_back(v);
            moved = moved + 1;
            proof {
                assert(self.queue@ =~= old_q + all.take(moved as int));
            }
        }
        proof {
            assert(all.take(total as int) =~= all);
        }
        self.length = self.queue.len();
    }

    /// Removes the oldest value, if any.
    pub fn pop(&mut self) -> (r: Option<T>)
        requires
            old(self).wf(),
        ensures
            final(self).wf(),
            old(self)@.len() > 0 ==> r == Some(old(self)@[0]) && final(self)@ == old(self)@.drop_first(),
            old(self)@.len() == 0 ==> r is None && final(self)@ == old(self)@,
    {
        if self.is_empty() {
            return None;
        }
        let val = self.queue.pop_front();
        self.length = self.queue.len();
        val
    }

    /// Moves up to `max` of the oldest values to the back of `out`, in order, and returns how
    /// many moved. For callers that own no ring.
    pub fn steal_batch(&mut self, out: &mut Vec<T>, max: usize) -> (r: usize)
        requires
            old(self).wf(),
        ensures
            final(self).wf(),
            r == min(max as int, old(self)@.len() as int),
            final(out)@ == old(out)@ + old(self)@.take(r as int),
            final(self)@ == old(self)@.skip(r as int),
    {
        let ghost old_q = self.queue@;
        let ghost old_out = out@;
        if max == 0 || self.is_empty() {
            assert(old_q.take(0) =~= Seq::<T>::empty());
            assert(old_out + old_q.take(0) =~= old_out);
            assert(old_q.skip(0) =~= old_q);
            return 0;
        }
        let taken = if max < self.queue.len() { max } else { self.queue.len() };
        let mut i: usize = 0;
        while i < taken
            invariant
                i <= taken,
                taken <= old_q.len(),
                self.queue@ == old_q.skip(i as int),
                out@ == old_out + old_q.take(i as int),
            decreases taken - i,
        {
            let v = self.queue.pop_front().unwrap();
            out.push(v);
            i = i + 1;
            proof {
                assert(self.queue@ =~= old_q.skip(i as int));
                assert(out@ =~= old_out + old_q.take(i as int));
            }
        }
        self.length = self.queue.len();
        taken
    }

    /// The main way out of the queue: the oldest value comes back to run right away, and up to
    /// [`batch_size`] of the next ones go straight into `dst`, in order.
    ///
    /// `workers` is the number of workers of the lane, so that the first worker to arrive does
    /// not take everything while the others starve. Returns `None` when the queue is empty.
    pub fn steal_batch_and_pop<Q: LocalQueue<T>>(&mut self, dst: &mut Q, workers: usize) -> (r: Option<T>)
        requires
            old(self).wf(),
            old(dst).local_wf(),
        ensures
            final(self).wf(),
            final(dst).local_wf(),
            final(dst).local_capacity() == old(dst).local_capacity(),
            old(self)@.len() == 0 ==> r is None && final(self)@ == old(self)@ && final(dst).local_view() == old(dst).local_view(),
            old(self)@.len() > 0 ==> ({
                let n = spec_loaded(old(self)@, workers as int, old(dst).local_capacity(), old(dst).local_view().len() as int);
                &&& r == Some(old(self)@[0])
                &&& final(dst).local_view() == old(dst).local_view() + old(self)@.subrange(1, 1 + n)
                &&& final(self)@ == old(self)@.skip(1 + n)
            }),
            old(self)@.len() > 0 ==> ({
                let loaded = final(dst).local_view().len() - old(dst).local_view().len();
                let behind = old(self)@.len() - 1;
                let share = behind / (if workers > 1 { workers as int } else { 1 }) + 1;
                let half = old(dst).local_capacity() / 2;
                let free = old(dst).local_capacity() - old(dst).local_view().len();
                &&& loaded <= share && loaded <= half && loaded <= free && loaded <= behind
                &&& loaded == share || loaded == half || loaded == free || loaded == behind
                &&& final(self)@.len() == behind - loaded
            }),
    {
        let ghost old_q = self.queue@;
        if self.is_empty() {
            return None;
        }
        let first = self.queue.pop_front().unwrap();
        proof {
            dst.lemma_local_wf();
            vstd::arithmetic::div_mod::lemma_div_is_ordered_by_denominator(self.queue@.len() as int, 1, max(workers as int, 1));
        }
        let want = batch_size(self.queue.len(), workers, dst);
        let ghost rest = self.queue@;
        let mut batch: Vec<T> = Vec::new();
        // Take no more than was asked for, so that nothing is taken and then put back.
        while batch.len() < want && self.queue.len() > 0
            invariant
                batch@.len() <= want,
                batch@.len() <= rest.len(),
                batch@ == rest.take(batch@.len() as int),
                self.queue@ == rest.skip(batch@.len() as int),
            decreases want - batch@.len(),
        {
            let v = self.queue.pop_front().unwrap();
            batch.push(v);
            proof {
                assert(batch@ =~= rest.take(batch@.len() as int));
                assert(self.queue@ =~= rest.skip(batch@.len() as int));
            }
        }
        let ghost n = batch@.len() as int;
        let ghost loaded = batch@;
        if batch.len() > 0 {
            let pushed = dst.push_iter(&mut batch);
            proof {
                assert(loaded.take(pushed as int) =~= loaded);
            }
        }
        self.length = self.queue.len();
        proof {
            assert(rest =~= old_q.skip(1));
            assert(loaded =~= old_q.subrange(1, 1 + n));
            assert(self.queue@ =~= old_q.skip(1 + n));
            if batch@.len() == 0 && n == 0 {
                assert(old_q.subrange(1, 1) =~= Seq::<T>::empty());
            }
        }
        Some(first)
    }

    /// Moves everything to the back of `out`, oldest first; used at shutdown so that queued
    /// work still runs.
    pub fn drain_into(&mut self, out: &mut Vec<T>) -> (r: usize)
        requires
            old(self).wf(),
        ensures
            final(self).wf(),
            r == old(self)@.len(),
            final(out)@ == old(out)@ + old(self)@,
            final(self)@ == Seq::<T>::empty(),
    {
        let ghost old_q = self@;
        let r = self.steal_batch(out, usize::MAX);
        proof {
            assert(old_q.take(r as int) =~= old_q);
            assert(old_q.skip(r as int) =~= Seq::<T>::empty());
        }
        r
    }
}

impl<T> Default for LaneQueue<T> {
    fn default() -> (r: Self)
        ensures
            r.wf(),
            r@ == Seq::<T>::empty(),
    {
        Self::new()
    }
}

} // verus!
