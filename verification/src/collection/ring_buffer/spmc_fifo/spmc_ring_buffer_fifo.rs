//! A fixed-size FIFO ring: pushes go to the tail, pops claim a run at the head and then publish it.

use vstd::prelude::*;
use vstd::math::min;
use crate::collection::ring_buffer::consts::valid_capacity;
use crate::collection::ring_buffer::fixed_buffer::{FixedBuffer, distance, wrapped, cursor_range, lemma_distance_advance, lemma_wrapped_twice};
use crate::collection::ring_buffer::head::Head;
use crate::collection::ring_buffer::params::{ParamsCasForPopBatch, ParamsCasTailForPushBatch};
use crate::collection::ring_buffer::spmc_fifo::consumer::Consumer;
use crate::collection::ring_buffer::spmc_fifo::producer::Producer;
use crate::utils::bits::{pack, spec_pack, spec_hi, spec_lo, lemma_pack_unpack, lemma_unpack_pack};
use crate::utils::cursors::CursorData;

verus! {

/// How many values one claim takes when it asks for `wanted`: the claim starts at the claim
/// cursor `blocked` and stops at `tail` at the latest.
pub open spec fn claim_amount(blocked: u32, tail: u32, wanted: int) -> int {
    min(wanted, distance(blocked, tail))
}

/// Two claims taken one after another never overlap: the second starts where the first ended,
/// both lie within the run `[blocked, tail)` that was waiting, and no cursor is in both.
///
/// Every successful claim moves the claim cursor from the value the previous one left, so this
/// holds of any sequence of claims, whoever makes them.
pub proof fn lemma_claims_are_disjoint(blocked: u32, tail: u32, first: int, second: int)
    requires
        first > 0,
        second > 0,
    ensures
        ({
            let k1 = claim_amount(blocked, tail, first);
            let next = wrapped(blocked as int, k1) as u32;
            let k2 = claim_amount(next, tail, second);
            &&& 0 <= k1 && 0 <= k2
            &&& distance(blocked, next) == k1
            &&& distance(next, tail) == distance(blocked, tail) - k1
            &&& k1 + k2 <= distance(blocked, tail)
            &&& forall|j: int| 0 <= j < k2 ==> #[trigger] wrapped(next as int, j) == wrapped(blocked as int, k1 + j)
            &&& forall|i: int, j: int| 0 <= i < k1 && 0 <= j < k2
                ==> #[trigger] wrapped(blocked as int, i) != #[trigger] wrapped(next as int, j)
        }),
{
    let d = distance(blocked, tail);
    let k1 = claim_amount(blocked, tail, first);
    let next = wrapped(blocked as int, k1) as u32;
    assert(distance(blocked, blocked) == 0);
    lemma_distance_advance(blocked, blocked, k1);
    lemma_distance_advance(blocked, blocked, d);
    assert(wrapped(blocked as int, d) == tail as int);
    assert(distance(next, tail) == d - k1) by {
        lemma_distance_advance(next, next, d - k1);
        lemma_wrapped_twice(blocked as int, k1, d - k1);
    }
    let k2 = claim_amount(next, tail, second);
    assert forall|j: int| 0 <= j < k2 implies #[trigger] wrapped(next as int, j) == wrapped(blocked as int, k1 + j) by {
        lemma_wrapped_twice(blocked as int, k1, j);
    }
    assert forall|i: int, j: int| 0 <= i < k1 && 0 <= j < k2
        implies #[trigger] wrapped(blocked as int, i) != #[trigger] wrapped(next as int, j) by {
        lemma_wrapped_twice(blocked as int, k1, j);
        lemma_distance_advance(blocked, blocked, i);
        lemma_distance_advance(blocked, blocked, k1 + j);
    }
}

/// Ring buffer with one producer and any number of consumers, first in first out.
///
/// The head packs two cursors: `stolen`, before which every cell has been taken and is free again,
/// and `blocked`, before which every cell has been claimed by a consumer. A pop claims a run by
/// moving `blocked`, moves the values out, and only then publishes the run by moving `stolen`.
pub struct SpmcRingBufferFifo<T> {
    head: Head,
    /// The next push writes here.
    tail: u32,
    buffer: FixedBuffer<T>,
}

impl<T> View for SpmcRingBufferFifo<T> {
    type V = Seq<T>;

    /// The values in the ring, oldest first.
    closed spec fn view(&self) -> Seq<T> {
        Seq::new(self.count() as nat, |i: int| self.buffer.at_offset(self.stolen() as int, i)->0)
    }
}

impl<T> SpmcRingBufferFifo<T> {
    pub closed spec fn stolen(&self) -> u32 {
        spec_hi(self.head@)
    }

    pub closed spec fn blocked(&self) -> u32 {
        spec_lo(self.head@)
    }

    pub closed spec fn spec_tail(&self) -> u32 {
        self.tail
    }

    closed spec fn count(&self) -> int {
        distance(self.stolen(), self.tail)
    }

    /// Number of cells.
    pub closed spec fn spec_capacity(&self) -> int {
        self.buffer.spec_capacity()
    }

    /// The cells of the storage, by slot.
    pub closed spec fn spec_buffer(&self) -> FixedBuffer<T> {
        self.buffer
    }

    /// Every claimed run has been published, at most `capacity` values are held, and every
    /// cell between `stolen` and `tail` holds a value.
    pub closed spec fn wf(&self) -> bool {
        &&& self.buffer.wf()
        &&& self.stolen() == self.blocked()
        &&& self.count() <= self.spec_capacity()
        &&& forall|i: int| 0 <= i < self.count() ==> (#[trigger] self.buffer.at_offset(self.stolen() as int, i)) is Some
    }

    proof fn lemma_view(&self)
        requires
            self.wf(),
        ensures
            self@.len() == self.count(),
            self.count() <= self.spec_capacity() <= 0x4000_0000,
            self.spec_capacity() >= 1,
            self.tail == wrapped(self.stolen() as int, self.count()),
            forall|i: int| 0 <= i < self.count() ==> Some(#[trigger] self@[i]) == self.buffer.at_offset(self.stolen() as int, i),
    {
        self.buffer.lemma_wf();
        assert forall|i: int| 0 <= i < self.count() implies Some(#[trigger] self@[i]) == self.buffer.at_offset(self.stolen() as int, i) by {
            assert(self.buffer.at_offset(self.stolen() as int, i) is Some);
        }
    }

    /// A consistent ring holds between zero and `capacity` values, and has between one and
    /// `2^30` cells.
    pub proof fn lemma_len(&self)
        requires
            self.wf(),
        ensures
            self@.len() <= self.spec_capacity(),
            1 <= self.spec_capacity() <= 0x4000_0000,
    {
        self.lemma_view();
    }

    /// A ring with `capacity` empty cells.
    ///
    /// The capacity must be a power of two below `MAX_CAPACITY`.
    pub fn new(capacity: usize) -> (r: Self)
        requires
            valid_capacity(capacity as int),
        ensures
            r.wf(),
            r@ == Seq::<T>::empty(),
            r.spec_capacity() == capacity,
            r.stolen() == 0,
            r.blocked() == 0,
            r.spec_tail() == 0,
    {
        let r = SpmcRingBufferFifo { head: Head::new(0, 0), tail: 0, buffer: FixedBuffer::new(capacity as u32) };
        assert(r@ =~= Seq::<T>::empty());
        r
    }

    /// The producer handle, the one party that pushes. Consumers are taken with
    /// [`Self::consumer`] once the producer handle is no longer in use.
    pub fn split(&mut self) -> (p: Producer<'_, T>)
        ensures
            p.ring() == *old(self),
            *final(p.ring) == *final(self),
    {
        self.producer()
    }

    /// Producer handle over this ring.
    pub fn producer(&mut self) -> (p: Producer<'_, T>)
        ensures
            p.ring() == *old(self),
            *final(p.ring) == *final(self),
    {
        Producer::new(self)
    }

    /// Consumer handle over this ring.
    pub fn consumer(&mut self) -> (c: Consumer<'_, T>)
        ensures
            c.ring() == *old(self),
            *final(c.ring) == *final(self),
    {
        Consumer::new(self)
    }

    /// Number of values waiting to be popped.
    pub fn len(&self) -> (r: usize)
        requires
            self.wf(),
        ensures
            r == self@.len(),
    {
        proof { self.lemma_view(); }
        let data = self.cursor_data();
        data.filled_slots()
    }

    /// Whether no value is waiting.
    pub fn is_empty(&self) -> (r: bool)
        requires
            self.wf(),
        ensures
            r == (self@.len() == 0),
    {
        self.len() < 1
    }

    /// Number of cells.
    pub fn capacity(&self) -> (r: usize)
        requires
            self.wf(),
        ensures
            r == self.spec_capacity(),
    {
        self.buffer.capacity()
    }

    /// Number of values a push can still take.
    pub fn remaining(&self) -> (r: usize)
        requires
            self.wf(),
        ensures
            r == self.spec_capacity() - self@.len(),
    {
        proof { self.lemma_view(); }
        self.cursor_data().empty_slots()
    }

    /// The cursors, read together.
    pub fn cursor_data(&self) -> (r: CursorData)
        requires
            self.wf(),
        ensures
            r.stolen == self.stolen(),
            r.blocked == self.blocked(),
            r.tail == self.spec_tail(),
            r.capacity == self.spec_capacity(),
            r.mask == self.spec_capacity() - 1,
            r.blocked == r.stolen,
            r.tail == wrapped(r.stolen as int, self@.len() as int),
            distance(r.stolen, r.tail) == self@.len(),
    {
        proof { self.buffer.lemma_wf(); }
        let (stolen, in_progress) = self.head.load_unpack();
        CursorData {
            stolen: stolen,
            blocked: in_progress,
            tail: self.tail,
            capacity: self.buffer.capacity() as u32,
            mask: self.buffer.mask(),
        }
    }

    /// Appends `val`, or hands it back when the ring is full.
    pub fn push(&mut self, val: T) -> (r: Result<(), T>)
        requires
            old(self).wf(),
        ensures
            final(self).wf(),
            final(self).spec_capacity() == old(self).spec_capacity(),
            old(self)@.len() < old(self).spec_capacity() ==> r == Ok::<(), T>(()) && final(self)@ == old(self)@.push(val),
            old(self)@.len() >= old(self).spec_capacity() ==> r == Err::<(), T>(val) && final(self)@ == old(self)@,
            final(self).stolen() == old(self).stolen(),
            final(self).blocked() == old(self).blocked(),
            r is Ok ==> final(self).spec_tail() == wrapped(old(self).spec_tail() as int, 1),
            r is Err ==> final(self).spec_tail() == old(self).spec_tail(),
    {
        let mut vals: Vec<T> = Vec::new();
        vals.push(val);
        let taken = self.push_batch(1, &mut vals);
        if taken == 0 {
            let v = vals.pop();
            proof {
                assert(vals@.len() == 0);
            }
            match v {
                Some(v) => Err(v),
                None => Ok(()),
            }
        } else {
            proof {
                assert(old(self)@.push(val) =~= old(self)@ + seq![val].take(1));
            }
            Ok(())
        }
    }

    /// Moves up to `max` values from the front of `vals` to the back of the ring, in order,
    /// and returns how many moved: as many as `max`, `vals` and the free cells all allow.
    pub fn push_batch(&mut self, max: usize, vals: &mut Vec<T>) -> (r: usize)
        requires
            old(self).wf(),
            max > 0,
            old(vals)@.len() > 0,
        ensures
            final(self).wf(),
            final(self).spec_capacity() == old(self).spec_capacity(),
            r == min(min(old(self).spec_capacity() - old(self)@.len(), max as int), old(vals)@.len() as int),
            final(self)@ == old(self)@ + old(vals)@.take(r as int),
            final(vals)@ == old(vals)@.skip(r as int),
            final(self).stolen() == old(self).stolen(),
            final(self).blocked() == old(self).blocked(),
            final(self).spec_tail() == wrapped(old(self).spec_tail() as int, r as int),
    {
        proof { self.lemma_view(); }
        let ghost old_self = *self;
        let ghost old_vals = vals@;
        let mut cas_params = ParamsCasTailForPushBatch {
            cursor_data: self.cursor_data(),
            src_amount: vals.len(),
            push_amount: max,
        };
        let take_amount = match self.try_cas_tail_for_push(&mut cas_params) {
            Some(r) => r,
            None => {
                assert(vals@.take(0) =~= Seq::<T>::empty());
                assert(old_self@ + vals@.take(0) =~= old_self@);
                assert(vals@.skip(0) =~= vals@);
                return 0;
            },
        };
        let start = cas_params.cursor_data.tail;
        let ghost s = old_self.stolen() as int;
        let ghost n = old_self.count();
        let ghost t = s + n;
        // `head` keeps the first `take_amount` values, `vals` keeps the rest.
        let mut head_part = vals.split_off(take_amount);
        std::mem::swap(vals, &mut head_part);
        let mut k = take_amount;
        while k > 0
            invariant
                0 <= k <= take_amount,
                take_amount <= old_self.spec_capacity() - n,
                head_part@ == old_vals.take(k as int),
                old_vals.len() >= take_amount,
                self.buffer.wf(),
                self.buffer.spec_capacity() == old_self.spec_capacity(),
                self.head == old_self.head,
                self.tail as int == wrapped(old_self.tail as int, take_amount as int),
                start == old_self.tail,
                old_self.wf(),
                s == old_self.stolen(),
                n == old_self.count(),
                t == s + n,
                forall|i: int| 0 <= i < n ==> #[trigger] self.buffer.at_offset(s, i) == old_self.buffer.at_offset(s, i),
                forall|j: int| k <= j < take_amount ==> #[trigger] self.buffer.at_offset(t, j) == Some(old_vals[j]),
            decreases k,
        {
            proof {
                old_self.lemma_view();
                self.buffer.lemma_wf();
            }
            let e = head_part.pop();
            let cursor = start.wrapping_add((k - 1) as u32);
            let ghost before = self.buffer;
            proof {
                self.buffer.lemma_wrap_slot(old_self.tail as int, (k - 1) as int);
                self.buffer.lemma_wrap_slot(s, n + (k - 1));
                assert(old_self.tail as int == wrapped(s, n));
                assert(self.buffer.slot_of(cursor as int) == self.buffer.slot_at_offset(t, k - 1));
            }
            match e {
                Some(v) => {
                    self.buffer.write(cursor, v);
                },
                None => {},
            }
            proof {
                assert(head_part@.len() == k - 1);
                assert(e == Some(old_vals[k - 1]));
                assert forall|i: int| 0 <= i < n implies #[trigger] self.buffer.at_offset(s, i) == old_self.buffer.at_offset(s, i) by {
                    self.buffer.lemma_distinct_slots(s, i, n + (k - 1));
                    assert(before.at_offset(s, i) == old_self.buffer.at_offset(s, i));
                }
                assert forall|j: int| k - 1 <= j < take_amount implies #[trigger] self.buffer.at_offset(t, j) == Some(old_vals[j]) by {
                    if j > k - 1 {
                        self.buffer.lemma_distinct_slots(s, n + (k - 1), n + j);
                        assert(before.at_offset(t, j) == Some(old_vals[j]));
                    }
                }
            }
            k = k - 1;
            proof {
                assert(head_part@ =~= old_vals.take(k as int));
            }
        }
        proof {
            self.buffer.lemma_wf();
            assert(self.tail as int == wrapped(old_self.tail as int, take_amount as int));
            lemma_distance_advance(old_self.stolen(), old_self.tail, take_amount as int);
            assert(self.count() == n + take_amount);
            assert forall|i: int| 0 <= i < self.count() implies (#[trigger] self.buffer.at_offset(self.stolen() as int, i)) is Some by {
                if i >= n {
                    assert(self.buffer.at_offset(t, i - n) == Some(old_vals[i - n]));
                }
            }
            assert(self@ =~= old_self@ + old_vals.take(take_amount as int)) by {
                self.lemma_view();
                assert forall|i: int| 0 <= i < self.count() implies self@[i] == (old_self@ + old_vals.take(take_amount as int))[i] by {
                    if i >= n {
                        assert(self.buffer.at_offset(t, i - n) == Some(old_vals[i - n]));
                    }
                }
            }
            assert(vals@ =~= old_vals.skip(take_amount as int));
        }
        take_amount
    }

    /// Reserves cells at the tail for a push, computed from the snapshot in `cas_data`.
    ///
    /// Moves the tail past `push_amount` cells, lowered to what the source holds and what is
    /// free, and returns that amount; with no free cell it returns `None`. Should the tail have
    /// moved since the snapshot, the snapshot is refreshed and the reservation tried again; the
    /// producer is the only party that moves the tail, so the first try always lands.
    fn try_cas_tail_for_push(&mut self, cas_data: &mut ParamsCasTailForPushBatch) -> (r: Option<usize>)
        requires
            old(self).wf(),
            old(cas_data).src_amount > 0,
            old(cas_data).push_amount > 0,
            old(cas_data).cursor_data.stolen == old(self).stolen(),
            old(cas_data).cursor_data.blocked == old(self).blocked(),
            old(cas_data).cursor_data.tail == old(self).tail,
            old(cas_data).cursor_data.capacity == old(self).spec_capacity(),
        ensures
            final(self).head == old(self).head,
            final(self).buffer == old(self).buffer,
            final(cas_data).cursor_data == old(cas_data).cursor_data,
            ({
                let cd = old(cas_data).cursor_data;
                let avail = cd.capacity - distance(cd.stolen, cd.tail);
                let amount = min(min(old(cas_data).push_amount as int, avail), old(cas_data).src_amount as int);
                &&& avail < 1 ==> r is None && final(self).tail == old(self).tail
                &&& avail >= 1 ==> r == Some(amount as usize) && final(self).tail == wrapped(old(self).tail as int, amount)
            }),
    {
        loop
            invariant
                *self == *old(self),
                self.wf(),
                cas_data.src_amount == old(cas_data).src_amount,
                cas_data.push_amount == old(cas_data).push_amount,
                cas_data.cursor_data == old(cas_data).cursor_data,
                cas_data.cursor_data.stolen == self.stolen(),
                cas_data.cursor_data.tail == self.tail,
                cas_data.cursor_data.capacity == self.spec_capacity(),
            decreases (if cas_data.cursor_data.tail == self.tail { 0int } else { 1 }),
        {
            proof {
                self.lemma_view();
            }
            let available_slots = cas_data.cursor_data.empty_slots();
            if available_slots < 1 {
                return None;
            }
            let mut amount = cas_data.push_amount;
            if available_slots < amount {
                amount = available_slots;
            }
            if cas_data.src_amount < amount {
                amount = cas_data.src_amount;
            }
            let current_tail = cas_data.cursor_data.tail;
            let next_tail = current_tail.wrapping_add(amount as u32);
            if self.tail == current_tail {
                self.tail = next_tail;
                return Some(amount);
            }
            // The tail moved since the snapshot: refresh it and try again.
            let (stolen, in_progress) = self.head.load_unpack();
            cas_data.cursor_data.tail = self.tail;
            cas_data.cursor_data.stolen = stolen;
            cas_data.cursor_data.blocked = in_progress;
            cas_data.push_amount = amount;
        }
    }

    /// Removes the oldest value, if any.
    pub fn pop(&mut self) -> (r: Option<T>)
        requires
            old(self).wf(),
        ensures
            final(self).wf(),
            final(self).spec_capacity() == old(self).spec_capacity(),
            old(self)@.len() > 0 ==> r == Some(old(self)@[0]) && final(self)@ == old(self)@.drop_first(),
            old(self)@.len() == 0 ==> r is None && final(self)@ == old(self)@,
            final(self).spec_tail() == old(self).spec_tail(),
            r is Some ==> final(self).stolen() == wrapped(old(self).stolen() as int, 1)
                && final(self).blocked() == wrapped(old(self).blocked() as int, 1),
            r is None ==> final(self).stolen() == old(self).stolen() && final(self).blocked() == old(self).blocked(),
    {
        let ghost old_view = self@;
        let mut out: Vec<T> = Vec::new();
        let n = self.pop_batch(1, &mut out);
        if n == 0 {
            None
        } else {
            proof {
                assert(out@ =~= old_view.take(1));
                assert(old_view.skip(1) =~= old_view.drop_first());
            }
            out.pop()
        }
    }

    /// Moves up to `max` values from the front of the ring to the back of `dst`, in order, and
    /// returns how many moved.
    pub fn pop_batch(&mut self, max: usize, dst: &mut Vec<T>) -> (r: usize)
        requires
            old(self).wf(),
            max > 0,
        ensures
            final(self).wf(),
            final(self).spec_capacity() == old(self).spec_capacity(),
            r == min(max as int, old(self)@.len() as int),
            final(dst)@ == old(dst)@ + old(self)@.take(r as int),
            final(self)@ == old(self)@.skip(r as int),
            final(self).spec_tail() == old(self).spec_tail(),
            final(self).stolen() == wrapped(old(self).stolen() as int, r as int),
            final(self).blocked() == wrapped(old(self).blocked() as int, r as int),
    {
        proof { self.lemma_view(); }
        let ghost old_self = *self;
        let ghost old_dst = dst@;
        let mut cas = ParamsCasForPopBatch { cursor_data: self.cursor_data(), pop_amount: max };
        let pop_amount = match self.try_cas_for_pop_batch(&mut cas) {
            Some(r) => r,
            None => {
                assert(old_self@.take(0) =~= Seq::<T>::empty());
                assert(old_dst + old_self@.take(0) =~= old_dst);
                assert(old_self@.skip(0) =~= old_self@);
                return 0;
            },
        };
        let claim_start = cas.cursor_data.blocked;
        let ghost s = old_self.stolen() as int;
        let ghost n = old_self.count();
        let mut offset: usize = 0;
        while offset < pop_amount
            invariant
                0 <= offset <= pop_amount,
                pop_amount <= n,
                claim_start == old_self.stolen(),
                s == claim_start,
                n == old_self.count(),
                old_self.wf(),
                self.buffer.wf(),
                self.buffer.spec_capacity() == old_self.spec_capacity(),
                self.tail == old_self.tail,
                spec_hi(self.head@) == s,
                spec_lo(self.head@) == wrapped(s, pop_amount as int),
                dst@ == old_dst + old_self@.take(offset as int),
                forall|i: int| offset <= i < n ==> #[trigger] self.buffer.at_offset(s, i) == old_self.buffer.at_offset(s, i),
            decreases pop_amount - offset,
        {
            let cursor_idx = claim_start.wrapping_add(offset as u32);
            proof {
                old_self.lemma_view();
                self.buffer.lemma_wf();
                self.buffer.lemma_wrap_slot(s, offset as int);
                assert(self.buffer.at_offset(s, offset as int) is Some);
            }
            let ghost before = self.buffer;
            let val = self.buffer.take_at(cursor_idx);
            proof {
                assert forall|i: int| offset < i < n implies #[trigger] self.buffer.at_offset(s, i) == old_self.buffer.at_offset(s, i) by {
                    self.buffer.lemma_distinct_slots(s, offset as int, i);
                    assert(before.at_offset(s, i) == old_self.buffer.at_offset(s, i));
                }
            }
            dst.push(val.unwrap());
            offset = offset + 1;
            proof {
                assert(dst@ =~= old_dst + old_self@.take(offset as int));
            }
        }
        self.publish_stolen(claim_start, pop_amount as u32);
        proof {
            self.buffer.lemma_wf();
            let s2 = self.stolen() as int;
            assert(s2 == wrapped(s, pop_amount as int));
            assert(self.count() == n - pop_amount);
            assert forall|i: int| 0 <= i < self.count() implies #[trigger] self.buffer.at_offset(s2, i) == old_self.buffer.at_offset(s, pop_amount + i) by {
                self.buffer.lemma_wrap_slot(s, pop_amount + i);
                assert(s2 + i == (s + pop_amount) % cursor_range() + i);
                assert(self.buffer.at_offset(s, pop_amount + i) == old_self.buffer.at_offset(s, pop_amount + i));
            }
            assert(self@ =~= old_self@.skip(pop_amount as int)) by {
                old_self.lemma_view();
                self.lemma_view_raw();
            }
        }
        pop_amount
    }

    /// Like [`Self::pop_batch`], but writes the values into `dst` starting at cursor
    /// `write_start_cursor`, one cell per value, and touches no other cell of `dst`.
    pub fn pop_batch_to(&mut self, dst: &mut FixedBuffer<T>, write_start_cursor: u32, max_write_count: usize) -> (r: usize)
        requires
            old(self).wf(),
            old(dst).wf(),
            0 < max_write_count <= old(dst).spec_capacity(),
        ensures
            final(self).wf(),
            final(self).spec_capacity() == old(self).spec_capacity(),
            final(dst).wf(),
            final(dst).spec_capacity() == old(dst).spec_capacity(),
            r == min(max_write_count as int, old(self)@.len() as int),
            final(self)@ == old(self)@.skip(r as int),
            forall|j: int| 0 <= j < r ==> #[trigger] final(dst).at_offset(write_start_cursor as int, j) == Some(old(self)@[j]),
            forall|k: int| 0 <= k < old(dst).spec_capacity()
                && (forall|j: int| 0 <= j < r ==> old(dst).slot_at_offset(write_start_cursor as int, j) != k)
                ==> #[trigger] final(dst).slots()[k] == old(dst).slots()[k],
            final(self).spec_tail() == old(self).spec_tail(),
            final(self).stolen() == wrapped(old(self).stolen() as int, r as int),
            final(self).blocked() == wrapped(old(self).blocked() as int, r as int),
    {
        proof { self.lemma_view(); }
        let ghost old_self = *self;
        let ghost old_dst = *dst;
        let mut cas = ParamsCasForPopBatch { cursor_data: self.cursor_data(), pop_amount: max_write_count };
        let pop_amount = match self.try_cas_for_pop_batch(&mut cas) {
            Some(r) => r,
            None => {
                assert(old_self@.skip(0) =~= old_self@);
                return 0;
            },
        };
        let claim_start = cas.cursor_data.blocked;
        let ghost s = old_self.stolen() as int;
        let ghost w = write_start_cursor as int;
        let ghost n = old_self.count();
        let mut offset: usize = 0;
        while offset < pop_amount
            invariant
                0 <= offset <= pop_amount,
                pop_amount <= n,
                pop_amount <= max_write_count,
                max_write_count <= old_dst.spec_capacity(),
                claim_start == old_self.stolen(),
                s == claim_start,
                w == write_start_cursor,
                n == old_self.count(),
                old_self.wf(),
                old_dst.wf(),
                self.buffer.wf(),
                self.buffer.spec_capacity() == old_self.spec_capacity(),
                self.tail == old_self.tail,
                spec_hi(self.head@) == s,
                spec_lo(self.head@) == wrapped(s, pop_amount as int),
                dst.wf(),
                dst.spec_capacity() == old_dst.spec_capacity(),
                forall|i: int| offset <= i < n ==> #[trigger] self.buffer.at_offset(s, i) == old_self.buffer.at_offset(s, i),
                forall|j: int| 0 <= j < offset ==> #[trigger] dst.at_offset(w, j) == Some(old_self@[j]),
                forall|k: int| 0 <= k < old_dst.spec_capacity()
                    && (forall|j: int| 0 <= j < offset ==> old_dst.slot_at_offset(w, j) != k)
                    ==> #[trigger] dst.slots()[k] == old_dst.slots()[k],
            decreases pop_amount - offset,
        {
            let cursor_idx = claim_start.wrapping_add(offset as u32);
            let dst_idx = write_start_cursor.wrapping_add(offset as u32);
            proof {
                old_self.lemma_view();
                self.buffer.lemma_wf();
                dst.lemma_wf();
                self.buffer.lemma_wrap_slot(s, offset as int);
                dst.lemma_wrap_slot(w, offset as int);
                assert(self.buffer.at_offset(s, offset as int) is Some);
            }
            let ghost dst_before = *dst;
            let ghost before = self.buffer;
            let val = self.buffer.take_at(cursor_idx);
            dst.write(dst_idx, val.unwrap());
            proof {
                assert forall|i: int| offset < i < n implies #[trigger] self.buffer.at_offset(s, i) == old_self.buffer.at_offset(s, i) by {
                    self.buffer.lemma_distinct_slots(s, offset as int, i);
                    assert(before.at_offset(s, i) == old_self.buffer.at_offset(s, i));
                }
                assert forall|j: int| 0 <= j < offset + 1 implies #[trigger] dst.at_offset(w, j) == Some(old_self@[j]) by {
                    if j < offset {
                        dst.lemma_distinct_slots(w, j, offset as int);
                        assert(dst_before.at_offset(w, j) == Some(old_self@[j]));
                    }
                }
            }
            offset = offset + 1;
            proof {
                assert forall|k: int| 0 <= k < old_dst.spec_capacity()
                    && (forall|j: int| 0 <= j < offset ==> old_dst.slot_at_offset(w, j) != k)
                    implies #[trigger] dst.slots()[k] == old_dst.slots()[k] by {
                    assert(old_dst.slot_at_offset(w, offset - 1) != k);
                    assert(forall|j: int| 0 <= j < offset - 1 ==> old_dst.slot_at_offset(w, j) != k);
                    assert(dst_before.slots()[k] == old_dst.slots()[k]);
                }
            }
        }
        self.publish_stolen(claim_start, pop_amount as u32);
        proof {
            self.buffer.lemma_wf();
            let s2 = self.stolen() as int;
            assert(s2 == wrapped(s, pop_amount as int));
            assert(self.count() == n - pop_amount);
            assert forall|i: int| 0 <= i < self.count() implies #[trigger] self.buffer.at_offset(s2, i) == old_self.buffer.at_offset(s, pop_amount + i) by {
                self.buffer.lemma_wrap_slot(s, pop_amount + i);
                assert(self.buffer.at_offset(s, pop_amount + i) == old_self.buffer.at_offset(s, pop_amount + i));
            }
            assert(self@ =~= old_self@.skip(pop_amount as int)) by {
                old_self.lemma_view();
                self.lemma_view_raw();
            }
        }
        pop_amount
    }

    /// Moves every value of the ring to the back of `out`, oldest first, and returns how many.
    pub fn drain(&mut self, out: &mut Vec<T>) -> (r: usize)
        requires
            old(self).wf(),
        ensures
            final(self).wf(),
            final(self).spec_capacity() == old(self).spec_capacity(),
            r == old(self)@.len(),
            final(out)@ == old(out)@ + old(self)@,
            final(self)@ == Seq::<T>::empty(),
            final(self).spec_tail() == old(self).spec_tail(),
            final(self).stolen() == wrapped(old(self).stolen() as int, r as int),
            final(self).blocked() == wrapped(old(self).blocked() as int, r as int),
    {
        let ghost old_view = self@;
        proof { self.lemma_view(); }
        let r = self.pop_batch(self.buffer.capacity(), out);
        proof {
            self.lemma_view();
            assert(old_view.take(r as int) =~= old_view);
            assert(self@ =~= Seq::<T>::empty());
        }
        r
    }
}

impl<T> SpmcRingBufferFifo<T> {
    /// The view, spelled out for a ring whose cells hold values where the view says.
    proof fn lemma_view_raw(&self)
        requires
            self.buffer.wf(),
            forall|i: int| 0 <= i < self.count() ==> (#[trigger] self.buffer.at_offset(self.stolen() as int, i)) is Some,
        ensures
            self@.len() == self.count(),
            forall|i: int| 0 <= i < self.count() ==> Some(#[trigger] self@[i]) == self.buffer.at_offset(self.stolen() as int, i),
    {
        assert forall|i: int| 0 <= i < self.count() implies Some(#[trigger] self@[i]) == self.buffer.at_offset(self.stolen() as int, i) by {
            assert(self.buffer.at_offset(self.stolen() as int, i) is Some);
        }
    }

    /// Claims up to `pop_amount` of the values waiting at the head, computed from the snapshot in
    /// `cas_data`, by moving the claim cursor past them; returns how many were claimed, or `None`
    /// when the snapshot shows nothing waiting. Should the head have moved since the snapshot,
    /// another consumer claimed first: the snapshot is refreshed and the claim tried again.
    fn try_cas_for_pop_batch(&mut self, cas_data: &mut ParamsCasForPopBatch) -> (r: Option<usize>)
        requires
            old(self).buffer.wf(),
            old(cas_data).pop_amount > 0,
            old(cas_data).cursor_data.stolen == old(self).stolen(),
            old(cas_data).cursor_data.blocked == old(self).blocked(),
            old(cas_data).cursor_data.tail == old(self).tail,
        ensures
            final(self).tail == old(self).tail,
            final(self).buffer == old(self).buffer,
            final(cas_data).cursor_data == old(cas_data).cursor_data,
            ({
                let cd = old(cas_data).cursor_data;
                let filled = distance(cd.blocked, cd.tail);
                let amount = claim_amount(cd.blocked, cd.tail, old(cas_data).pop_amount as int);
                &&& filled < 1 ==> r is None && final(self).head@ == old(self).head@
                &&& filled >= 1 ==> r == Some(amount as usize)
                    && spec_hi(final(self).head@) == cd.stolen
                    && spec_lo(final(self).head@) == wrapped(cd.blocked as int, amount)
            }),
    {
        loop
            invariant
                *self == *old(self),
                cas_data.pop_amount == old(cas_data).pop_amount,
                cas_data.cursor_data == old(cas_data).cursor_data,
                cas_data.cursor_data.stolen == self.stolen(),
                cas_data.cursor_data.blocked == self.blocked(),
                cas_data.cursor_data.tail == self.tail,
            decreases (if spec_pack(cas_data.cursor_data.stolen, cas_data.cursor_data.blocked) == self.head@ { 0int } else { 1 }),
        {
            let filled_slots = cas_data.cursor_data.filled_slots();
            if filled_slots < 1 {
                return None;
            }
            let mut amount = cas_data.pop_amount;
            if filled_slots < amount {
                amount = filled_slots;
            }
            proof {
                lemma_pack_unpack(cas_data.cursor_data.stolen, cas_data.cursor_data.blocked);
                lemma_unpack_pack(self.head@);
            }
            let current_head = pack(cas_data.cursor_data.stolen, cas_data.cursor_data.blocked);
            // Reserve the run, a barrier for the other consumers.
            let next_head = pack(cas_data.cursor_data.stolen, cas_data.cursor_data.blocked.wrapping_add(amount as u32));
            match self.head.compare_exchange_weak(current_head, next_head) {
                Ok(_) => {
                    return Some(amount);
                },
                Err(c) => {
                    // Another consumer claimed first: refresh the snapshot and try again.
                    let (stolen, in_progress) = crate::utils::bits::unpack(c);
                    cas_data.cursor_data.stolen = stolen;
                    cas_data.cursor_data.blocked = in_progress;
                    cas_data.cursor_data.tail = self.tail;
                    cas_data.pop_amount = amount;
                },
            }
        }
    }

    /// Publishes the run `[start, start + amount)` as taken, once every earlier run is published.
    ///
    /// Runs are published in the order they were claimed, so `start` is where the published part
    /// ends; a run claimed after an unpublished one would have to wait for it, and `requires`
    /// leaves that wait out.
    fn publish_stolen(&mut self, start: u32, amount: u32)
        requires
            spec_hi(old(self).head@) == start,
        ensures
            final(self).tail == old(self).tail,
            final(self).buffer == old(self).buffer,
            spec_hi(final(self).head@) == wrapped(start as int, amount as int),
            spec_lo(final(self).head@) == spec_lo(old(self).head@),
    {
        let (stolen, in_progress) = self.head.load_unpack();
        self.head.store_pack((stolen.wrapping_add(amount), in_progress));
    }
}

} // verus!
