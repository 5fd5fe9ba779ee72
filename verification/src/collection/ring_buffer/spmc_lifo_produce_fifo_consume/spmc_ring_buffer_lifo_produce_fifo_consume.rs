//! The owner works at the newest end (still warm in its cache); thieves take from the oldest end,
//! a whole run at a time, straight into their own ring.

use vstd::prelude::*;
use vstd::math::min;
use crate::collection::ring_buffer::consts::valid_capacity;
use crate::collection::ring_buffer::fixed_buffer::{FixedBuffer, distance, wrapped, cursor_range, lemma_distance_advance, lemma_wrapped_twice};
use crate::collection::ring_buffer::head::Head;
use crate::collection::ring_buffer::params::ParamsCasForPopBatch;
use crate::collection::ring_buffer::spmc_fifo::SpmcRingBufferFifo;
use crate::collection::ring_buffer::spmc_lifo_produce_fifo_consume::consumer::{Consumer, stolen_count};
use crate::utils::bits::{pack, unpack, spec_pack, spec_hi, spec_lo, lemma_pack_unpack, lemma_unpack_pack};
use crate::utils::cursors::CursorData;
use crate::utils::steal::Steal;
use crate::utils::vec_front::take_front_reversed;
use crate::lane_queue::lane_queue::LaneQueue;
use crate::lane_queue::local_queue::LocalQueue;

verus! {

/// Ring with one owner and any number of thieves.
///
/// The anchor packs `tail` (upper half) with `in_stealing` (lower half): the owner moves `tail`,
/// a thief claims a run by moving `in_stealing`, copies it out, and publishes it by moving
/// `stolen`, which is kept apart.
pub struct SpmcRingBufferLifoProduceFifoConsume<T> {
    pub(crate) buffer: FixedBuffer<T>,
    anchor: Head,
    stolen: u32,
}

impl<T> View for SpmcRingBufferLifoProduceFifoConsume<T> {
    type V = Seq<T>;

    /// The values in the ring, oldest (thief end) first, newest (owner end) last.
    closed spec fn view(&self) -> Seq<T> {
        Seq::new(self.count() as nat, |i: int| self.buffer.at_offset(self.stolen as int, i)->0)
    }
}

impl<T> SpmcRingBufferLifoProduceFifoConsume<T> {
    pub closed spec fn spec_tail(&self) -> u32 {
        spec_hi(self.anchor@)
    }

    pub closed spec fn in_stealing(&self) -> u32 {
        spec_lo(self.anchor@)
    }

    pub closed spec fn spec_stolen(&self) -> u32 {
        self.stolen
    }

    closed spec fn count(&self) -> int {
        distance(self.stolen, self.spec_tail())
    }

    /// The storage.
    pub closed spec fn spec_buffer(&self) -> FixedBuffer<T> {
        self.buffer
    }

    /// Number of cells.
    pub closed spec fn spec_capacity(&self) -> int {
        self.buffer.spec_capacity()
    }

    /// Every claimed run has been published, at most `capacity` values are held, and every cell
    /// between `stolen` and `tail` holds a value.
    pub closed spec fn wf(&self) -> bool {
        &&& self.buffer.wf()
        &&& self.stolen == self.in_stealing()
        &&& self.count() <= self.spec_capacity()
        &&& forall|i: int| 0 <= i < self.count() ==> (#[trigger] self.buffer.at_offset(self.stolen as int, i)) is Some
    }

    proof fn lemma_view(&self)
        requires
            self.wf(),
        ensures
            self@.len() == self.count(),
            self.count() <= self.spec_capacity() <= 0x4000_0000,
            self.spec_capacity() >= 1,
            self.spec_tail() == wrapped(self.stolen as int, self.count()),
            forall|i: int| 0 <= i < self.count() ==> Some(#[trigger] self@[i]) == self.buffer.at_offset(self.stolen as int, i),
    {
        self.buffer.lemma_wf();
        self.lemma_view_raw();
    }

    proof fn lemma_view_raw(&self)
        requires
            self.buffer.wf(),
            forall|i: int| 0 <= i < self.count() ==> (#[trigger] self.buffer.at_offset(self.stolen as int, i)) is Some,
        ensures
            self@.len() == self.count(),
            forall|i: int| 0 <= i < self.count() ==> Some(#[trigger] self@[i]) == self.buffer.at_offset(self.stolen as int, i),
    {
        assert forall|i: int| 0 <= i < self.count() implies Some(#[trigger] self@[i]) == self.buffer.at_offset(self.stolen as int, i) by {
            assert(self.buffer.at_offset(self.stolen as int, i) is Some);
        }
    }

    /// A consistent ring holds between zero and `capacity` values, and has between one and
    /// `2^30` cells.
    pub proof fn lemma_len(&self)
        requires
            self.wf(),
        ensures
            self@.len() <= self.spec_capacity(),
            1 <= self.spec_capacity() <= 0x4000_0000,
    {
        self.lemma_view();
    }

    /// A ring with `capacity` empty cells; the capacity must be a power of two below
    /// `MAX_CAPACITY`.
    pub fn new(capacity: usize) -> (r: Self)
        requires
            valid_capacity(capacity as int),
        ensures
            r.wf(),
            r@ == Seq::<T>::empty(),
            r.spec_capacity() == capacity,
            r.spec_stolen() == 0,
            r.in_stealing() == 0,
            r.spec_tail() == 0,
    {
        let r = SpmcRingBufferLifoProduceFifoConsume {
            buffer: FixedBuffer::new(capacity as u32),
            anchor: Head::new(0, 0),
            stolen: 0,
        };
        assert(r@ =~= Seq::<T>::empty());
        r
    }

    /// The storage.
    pub fn buffer(&self) -> (r: &FixedBuffer<T>)
        ensures
            *r == self.spec_buffer(),
    {
        &self.buffer
    }

    /// A thief that takes from this ring into `dst`.
    pub fn consumer<'a>(&'a mut self, dst: &'a mut SpmcRingBufferLifoProduceFifoConsume<T>) -> (c: Consumer<'a, T>)
        ensures
            c.src() == *old(self),
            c.dst() == *old(dst),
            *final(c.src) == *final(self),
            *final(c.dst) == *final(dst),
    {
        Consumer::new(self, dst)
    }

    /// The tail cursor: where the next push goes.
    pub fn tail(&self) -> (r: u32)
        ensures
            r == self.spec_tail(),
    {
        let (tail, _) = self.anchor.load_unpack();
        tail
    }

    /// The cursors, read together.
    pub fn cursor_data(&self) -> (r: CursorData)
        requires
            self.wf(),
        ensures
            r.stolen == self.spec_stolen(),
            r.blocked == self.in_stealing(),
            r.tail == self.spec_tail(),
            r.capacity == self.spec_capacity(),
            r.mask == self.spec_capacity() - 1,
            r.tail == wrapped(r.stolen as int, self@.len() as int),
            distance(r.stolen, r.tail) == self@.len(),
            distance(r.blocked, r.tail) == self@.len(),
    {
        proof { self.lemma_view(); }
        let (tail, in_stealing) = self.anchor.load_unpack();
        CursorData {
            stolen: self.stolen,
            blocked: in_stealing,
            tail: tail,
            capacity: self.buffer.capacity() as u32,
            mask: self.buffer.mask(),
        }
    }

    /// Number of values in the ring.
    pub fn len(&self) -> (r: usize)
        requires
            self.wf(),
        ensures
            r == self@.len(),
    {
        self.cursor_data().filled_slots()
    }

    /// Number of values a push can still take.
    pub fn remaining(&self) -> (r: usize)
        requires
            self.wf(),
        ensures
            r == self.spec_capacity() - self@.len(),
    {
        self.cursor_data().empty_slots()
    }

    /// Number of cells.
    pub fn capacity(&self) -> (r: usize)
        requires
            self.wf(),
        ensures
            r == self.spec_capacity(),
    {
        self.buffer.capacity()
    }

    /// Moves the tail `amount` cells further: publishes values already written there.
    fn publish_tail(&mut self, amount: u32)
        ensures
            spec_hi(final(self).anchor@) == wrapped(spec_hi(old(self).anchor@) as int, amount as int),
            spec_lo(final(self).anchor@) == spec_lo(old(self).anchor@),
            final(self).stolen == old(self).stolen,
            final(self).buffer == old(self).buffer,
    {
        let (tail, in_stealing) = self.anchor.load_unpack();
        self.anchor.store_pack((tail.wrapping_add(amount), in_stealing));
    }

    /// Appends `val` at the owner end, or hands it back when the ring is full.
    pub fn push(&mut self, val: T) -> (r: Result<(), T>)
        requires
            old(self).wf(),
        ensures
            final(self).wf(),
            final(self).spec_capacity() == old(self).spec_capacity(),
            old(self)@.len() < old(self).spec_capacity() ==> r == Ok::<(), T>(()) && final(self)@ == old(self)@.push(val),
            old(self)@.len() >= old(self).spec_capacity() ==> r == Err::<(), T>(val) && final(self)@ == old(self)@,
            final(self).spec_stolen() == old(self).spec_stolen(),
            final(self).in_stealing() == old(self).in_stealing(),
            r is Ok ==> final(self).spec_tail() == wrapped(old(self).spec_tail() as int, 1),
            r is Err ==> final(self).spec_tail() == old(self).spec_tail(),
    {
        proof { self.lemma_view(); }
        let ghost old_self = *self;
        let cursors = self.cursor_data();
        if cursors.empty_slots() < 1 {
            return Err(val);
        }
        proof {
            self.buffer.lemma_wrap_slot(self.stolen as int, self.count());
            assert(cursors.tail as int == wrapped(self.stolen as int, self.count()));
            assert(self.buffer.slot_of(cursors.tail as int) == self.buffer.slot_at_offset(self.stolen as int, self.count()));
        }
        let ghost before = self.buffer;
        self.buffer.write(cursors.tail, val);
        proof {
            assert(self.buffer.slots() == before.slots().update(before.slot_at_offset(self.stolen as int, old_self.count()), Some(val)));
        }
        // The value is in place before the tail that exposes it moves.
        self.publish_tail(1);
        proof {
            let s = self.stolen as int;
            let n = old_self.count();
            self.buffer.lemma_wf();
            before.lemma_wf();
            assert(s == old_self.stolen);
            let k = before.slot_at_offset(s, n);
            assert(0 <= k < before.spec_capacity());
            assert(self.buffer.slots()[k] == Some(val));
            lemma_distance_advance(self.stolen, old_self.spec_tail(), 1);
            assert(self.count() == n + 1);
            assert forall|i: int| 0 <= i < n implies #[trigger] self.buffer.at_offset(s, i) == old_self.buffer.at_offset(s, i) by {
                self.buffer.lemma_distinct_slots(s, i, n);
                assert(self.buffer.slot_at_offset(s, i) != before.slot_at_offset(s, n));
            }
            assert(self.buffer.at_offset(s, n) == Some(val));
            self.lemma_view_raw();
            assert(self@ =~= old_self@.push(val));
        }
        Ok(())
    }

    /// Pops the newest value. Only the owner may call this.
    pub fn pop_lifo(&mut self) -> (r: Option<T>)
        requires
            old(self).wf(),
        ensures
            final(self).wf(),
            final(self).spec_capacity() == old(self).spec_capacity(),
            old(self)@.len() > 0 ==> r == Some(old(self)@.last()) && final(self)@ == old(self)@.drop_last(),
            old(self)@.len() == 0 ==> r is None && final(self)@ == old(self)@,
            final(self).spec_stolen() == old(self).spec_stolen(),
            final(self).in_stealing() == old(self).in_stealing(),
            r is Some ==> final(self).spec_tail() == wrapped(old(self).spec_tail() as int, -1),
            r is None ==> final(self).spec_tail() == old(self).spec_tail(),
    {
        proof { self.lemma_view(); }
        let ghost old_self = *self;
        let mut cursor_data = self.cursor_data();
        loop
            invariant
                *self == old_self,
                old_self == *old(self),
                old_self.wf(),
                old_self@.len() == old_self.count(),
                cursor_data.tail == old_self.spec_tail(),
                cursor_data.blocked == old_self.in_stealing(),
                cursor_data.stolen == old_self.stolen,
            decreases (if spec_pack(cursor_data.tail, cursor_data.blocked) == self.anchor@ { 0int } else { 1 }),
        {
            if cursor_data.filled_slots() < 1 {
                return None;
            }
            let take_cursor = cursor_data.tail.wrapping_sub(1);
            proof {
                lemma_unpack_pack(self.anchor@);
            }
            let current = pack(cursor_data.tail, cursor_data.blocked);
            let next = pack(take_cursor, cursor_data.blocked);
            match self.anchor.compare_exchange_weak(current, next) {
                Ok(_) => {
                    let ghost s = self.stolen as int;
                    let ghost n = old_self.count();
                    proof {
                        self.buffer.lemma_wf();
                        assert(take_cursor as int == wrapped(s, n - 1));
                        self.buffer.lemma_wrap_slot(s, n - 1);
                        assert(old_self.buffer.at_offset(s, n - 1) is Some);
                        assert(self.buffer.at(take_cursor as int) == old_self.buffer.at_offset(s, n - 1));
                    }
                    let r = self.buffer.take_at(take_cursor);
                    proof {
                        assert(self.count() == n - 1);
                        assert forall|i: int| 0 <= i < n - 1 implies #[trigger] self.buffer.at_offset(s, i) == old_self.buffer.at_offset(s, i) by {
                            self.buffer.lemma_distinct_slots(s, i, n - 1);
                        }
                        self.lemma_view_raw();
                        assert(self@ =~= old_self@.drop_last());
                        assert(r is Some);
                    }
                    return r;
                },
                Err(c) => {
                    // A thief moved the anchor since the snapshot: refresh it and try again.
                    let (tail, in_stealing) = unpack(c);
                    cursor_data.tail = tail;
                    cursor_data.blocked = in_stealing;
                },
            }
        }
    }

    /// Moves up to `max` values from the front of `src` to the owner end of this ring, keeping
    /// their order, and returns how many moved: as many as `max`, `src` and the free cells all
    /// allow. Only the owner may call this.
    #[verifier::spinoff_prover]
    #[verifier::rlimit(40)]
    pub fn push_batch_by_taking_from(&mut self, max: usize, src: &mut SpmcRingBufferFifo<T>) -> (r: usize)
        requires
            old(self).wf(),
            old(src).wf(),
            max > 0,
        ensures
            final(self).wf(),
            final(src).wf(),
            final(self).spec_capacity() == old(self).spec_capacity(),
            final(src).spec_capacity() == old(src).spec_capacity(),
            r == min(min(old(self).spec_capacity() - old(self)@.len(), max as int), old(src)@.len() as int),
            final(self)@ == old(self)@ + old(src)@.take(r as int),
            final(self).spec_stolen() == old(self).spec_stolen(),
            final(self).in_stealing() == old(self).in_stealing(),
            final(self).spec_tail() == wrapped(old(self).spec_tail() as int, r as int),
            final(src)@ == old(src)@.skip(r as int),
            final(src).spec_tail() == old(src).spec_tail(),
            final(src).stolen() == wrapped(old(src).stolen() as int, r as int),
            final(src).blocked() == wrapped(old(src).blocked() as int, r as int),
    {
        proof { self.lemma_view(); }
        let ghost old_self = *self;
        let src_len = src.len();
        let cursor_data = self.cursor_data();
        let mut take_amount = cursor_data.empty_slots();
        if max < take_amount {
            take_amount = max;
        }
        if src_len < take_amount {
            take_amount = src_len;
        }
        if take_amount < 1 {
            assert(old(src)@.take(0) =~= Seq::<T>::empty());
            assert(old_self@ + old(src)@.take(0) =~= old_self@);
            assert(old(src)@.skip(0) =~= old(src)@);
            return 0;
        }
        // Only what was really taken is published: exposing more would hand garbage to a thief.
        let moved = src.pop_batch_to(&mut self.buffer, cursor_data.tail, take_amount);
        proof {
            assert(moved == take_amount);
        }
        self.publish_tail(moved as u32);
        proof {
            let s = self.stolen as int;
            let n = old_self.count();
            let t = s + n;
            self.buffer.lemma_wf();
            lemma_distance_advance(self.stolen, old_self.spec_tail(), moved as int);
            assert(self.count() == n + moved);
            assert forall|i: int| 0 <= i < n implies #[trigger] self.buffer.at_offset(s, i) == old_self.buffer.at_offset(s, i) by {
                let k = old_self.buffer.slot_of(s + i);
                self.buffer.lemma_wf();
                assert forall|j: int| 0 <= j < moved implies old_self.buffer.slot_at_offset(cursor_data.tail as int, j) != k by {
                    old_self.buffer.lemma_wrap_slot(s, n + j);
                    old_self.buffer.lemma_distinct_slots(s, i, n + j);
                }
                assert(0 <= k < old_self.spec_capacity());
            }
            assert forall|j: int| 0 <= j < moved implies #[trigger] self.buffer.at_offset(s, n + j) == Some(old(src)@[j]) by {
                self.buffer.lemma_wrap_slot(s, n + j);
                assert(self.buffer.at_offset(cursor_data.tail as int, j) == Some(old(src)@[j]));
            }
            assert forall|i: int| 0 <= i < self.count() implies (#[trigger] self.buffer.at_offset(s, i)) is Some by {
                if i >= n {
                    assert(self.buffer.at_offset(s, n + (i - n)) == Some(old(src)@[i - n]));
                }
            }
            self.lemma_view_raw();
            assert(self@ =~= old_self@ + old(src)@.take(moved as int)) by {
                assert forall|i: int| 0 <= i < self.count() implies self@[i] == (old_self@ + old(src)@.take(moved as int))[i] by {
                    if i >= n {
                        assert(self.buffer.at_offset(s, n + (i - n)) == Some(old(src)@[i - n]));
                    }
                }
            }
        }
        moved
    }
}

} // verus!

verus! {

impl<T> SpmcRingBufferLifoProduceFifoConsume<T> {
    /// Takes a run of values from the oldest end of this ring into the owner end of `dst`,
    /// keeping their order.
    ///
    /// - [`Steal::Busy`] when `dst` has no free cell: the victim still has work, come back later.
    /// - [`Steal::Empty`] when this ring holds nothing: look for another victim.
    /// - [`Steal::Success`] with the number of values moved otherwise: as many as `max`, the free
    ///   cells of `dst` and the values here all allow, so always more than zero.
    #[verifier::spinoff_prover]
    #[verifier::rlimit(30)]
    pub fn try_steal_batch_to(&mut self, max: usize, dst: &mut SpmcRingBufferLifoProduceFifoConsume<T>) -> (r: Steal<usize>)
        requires
            old(self).wf(),
            old(dst).wf(),
            max > 0,
        ensures
            final(self).wf(),
            final(dst).wf(),
            final(self).spec_capacity() == old(self).spec_capacity(),
            final(dst).spec_capacity() == old(dst).spec_capacity(),
            old(dst)@.len() >= old(dst).spec_capacity() ==> r == Steal::<usize>::Busy
                && final(self)@ == old(self)@ && final(dst)@ == old(dst)@,
            old(dst)@.len() < old(dst).spec_capacity() && old(self)@.len() == 0 ==> r == Steal::<usize>::Empty
                && final(self)@ == old(self)@ && final(dst)@ == old(dst)@,
            old(dst)@.len() < old(dst).spec_capacity() && old(self)@.len() > 0 ==> ({
                let n = min(min(old(dst).spec_capacity() - old(dst)@.len(), max as int), old(self)@.len() as int);
                &&& r == Steal::Success(n as usize)
                &&& final(self)@ == old(self)@.skip(n)
                &&& final(dst)@ == old(dst)@ + old(self)@.take(n)
            }),
            final(self).spec_tail() == old(self).spec_tail(),
            final(self).spec_stolen() == wrapped(old(self).spec_stolen() as int, stolen_count(r)),
            final(self).in_stealing() == wrapped(old(self).in_stealing() as int, stolen_count(r)),
            final(dst).spec_stolen() == old(dst).spec_stolen(),
            final(dst).in_stealing() == old(dst).in_stealing(),
            final(dst).spec_tail() == wrapped(old(dst).spec_tail() as int, stolen_count(r)),
    {
        proof {
            self.lemma_view();
            dst.lemma_view();
        }
        let ghost old_self = *self;
        let ghost old_dst = *dst;
        let dst_cursor_data = dst.cursor_data();
        let my_cursor_data = self.cursor_data();
        // A full destination is the destination's problem, not an empty victim.
        let free_slots = dst_cursor_data.empty_slots();
        if free_slots < 1 {
            return Steal::Busy;
        }
        let mut take_amount = free_slots;
        if max < take_amount {
            take_amount = max;
        }
        let filled = my_cursor_data.filled_slots();
        if filled < take_amount {
            take_amount = filled;
        }
        if take_amount < 1 {
            return Steal::Empty;
        }
        let mut params = ParamsCasForPopBatch { cursor_data: my_cursor_data, pop_amount: take_amount };
        let pop_amount = match self.fifo_try_cas_for_pop_batch(&mut params) {
            Steal::Success(amount) => amount,
            Steal::Empty => return Steal::Empty,
            Steal::Busy => return Steal::Busy,
        };
        let claim_start = params.cursor_data.blocked;
        let ghost s = old_self.stolen as int;
        let ghost n = old_self.count();
        let ghost ds = old_dst.stolen as int;
        let ghost dn = old_dst.count();
        let ghost dt = ds + dn;
        let mut offset: usize = 0;
        while offset < pop_amount
            invariant
                0 <= offset <= pop_amount,
                pop_amount == take_amount,
                pop_amount <= n,
                pop_amount <= old_dst.spec_capacity() - dn,
                claim_start == old_self.stolen,
                s == claim_start,
                n == old_self.count(),
                ds == old_dst.stolen,
                dn == old_dst.count(),
                dt == ds + dn,
                dst_cursor_data.tail == old_dst.spec_tail(),
                old_self.wf(),
                old_dst.wf(),
                self.buffer.wf(),
                self.buffer.spec_capacity() == old_self.spec_capacity(),
                self.stolen == old_self.stolen,
                spec_hi(self.anchor@) == old_self.spec_tail(),
                spec_lo(self.anchor@) == wrapped(s, pop_amount as int),
                dst.buffer.wf(),
                dst.buffer.spec_capacity() == old_dst.spec_capacity(),
                dst.stolen == old_dst.stolen,
                dst.anchor@ == old_dst.anchor@,
                forall|i: int| offset <= i < n ==> #[trigger] self.buffer.at_offset(s, i) == old_self.buffer.at_offset(s, i),
                forall|i: int| 0 <= i < dn ==> #[trigger] dst.buffer.at_offset(ds, i) == old_dst.buffer.at_offset(ds, i),
                forall|j: int| 0 <= j < offset ==> #[trigger] dst.buffer.at_offset(dt, j) == Some(old_self@[j]),
            decreases pop_amount - offset,
        {
            let cursor_idx = claim_start.wrapping_add(offset as u32);
            let dst_idx = dst_cursor_data.tail.wrapping_add(offset as u32);
            proof {
                old_self.lemma_view();
                old_dst.lemma_view();
                self.buffer.lemma_wf();
                dst.buffer.lemma_wf();
                self.buffer.lemma_wrap_slot(s, offset as int);
                dst.buffer.lemma_wrap_slot(dst_cursor_data.tail as int, offset as int);
                dst.buffer.lemma_wrap_slot(ds, dn + offset);
                assert(dst.buffer.slot_of(dst_idx as int) == dst.buffer.slot_at_offset(dt, offset as int));
                assert(self.buffer.at_offset(s, offset as int) is Some);
            }
            let ghost before = self.buffer;
            let ghost dst_before = dst.buffer;
            let val = self.buffer.take_at(cursor_idx);
            dst.buffer.write(dst_idx, val.unwrap());
            proof {
                assert forall|i: int| offset < i < n implies #[trigger] self.buffer.at_offset(s, i) == old_self.buffer.at_offset(s, i) by {
                    self.buffer.lemma_distinct_slots(s, offset as int, i);
                    assert(before.at_offset(s, i) == old_self.buffer.at_offset(s, i));
                }
                assert forall|i: int| 0 <= i < dn implies #[trigger] dst.buffer.at_offset(ds, i) == old_dst.buffer.at_offset(ds, i) by {
                    dst.buffer.lemma_distinct_slots(ds, i, dn + offset);
                    assert(dst_before.at_offset(ds, i) == old_dst.buffer.at_offset(ds, i));
                }
                assert forall|j: int| 0 <= j < offset + 1 implies #[trigger] dst.buffer.at_offset(dt, j) == Some(old_self@[j]) by {
                    if j < offset {
                        dst.buffer.lemma_distinct_slots(ds, dn + j, dn + offset);
                        assert(dst_before.at_offset(dt, j) == Some(old_self@[j]));
                    }
                }
            }
            offset = offset + 1;
        }
        self.consumer_publish_stolen(claim_start, pop_amount as u32);
        // `dst` is the caller's own ring, so nobody pushes into it meanwhile.
        dst.publish_tail(pop_amount as u32);
        proof {
            self.buffer.lemma_wf();
            dst.buffer.lemma_wf();
            let s2 = self.stolen as int;
            assert(s2 == wrapped(s, pop_amount as int));
            assert(self.count() == n - pop_amount);
            assert forall|i: int| 0 <= i < self.count() implies #[trigger] self.buffer.at_offset(s2, i) == old_self.buffer.at_offset(s, pop_amount + i) by {
                self.buffer.lemma_wrap_slot(s, pop_amount + i);
                assert(self.buffer.at_offset(s, pop_amount + i) == old_self.buffer.at_offset(s, pop_amount + i));
            }
            self.lemma_view_raw();
            old_self.lemma_view();
            assert(self@ =~= old_self@.skip(pop_amount as int));
            lemma_distance_advance(dst.stolen, old_dst.spec_tail(), pop_amount as int);
            assert(dst.count() == dn + pop_amount);
            assert forall|i: int| 0 <= i < dst.count() implies (#[trigger] dst.buffer.at_offset(ds, i)) is Some by {
                if i >= dn {
                    assert(dst.buffer.at_offset(dt, i - dn) == Some(old_self@[i - dn]));
                }
            }
            dst.lemma_view_raw();
            old_dst.lemma_view();
            assert(dst@ =~= old_dst@ + old_self@.take(pop_amount as int)) by {
                assert forall|i: int| 0 <= i < dst.count() implies dst@[i] == (old_dst@ + old_self@.take(pop_amount as int))[i] by {
                    if i >= dn {
                        assert(dst.buffer.at_offset(dt, i - dn) == Some(old_self@[i - dn]));
                    }
                }
            }
        }
        Steal::Success(pop_amount)
    }

    /// Takes the oldest value and hands it to the caller, without going through a ring.
    pub fn try_steal_one(&mut self) -> (r: Steal<T>)
        requires
            old(self).wf(),
        ensures
            final(self).wf(),
            final(self).spec_capacity() == old(self).spec_capacity(),
            old(self)@.len() == 0 ==> r == Steal::<T>::Empty && final(self)@ == old(self)@,
            old(self)@.len() > 0 ==> r == Steal::Success(old(self)@[0]) && final(self)@ == old(self)@.drop_first(),
            final(self).spec_tail() == old(self).spec_tail(),
            r is Success ==> final(self).spec_stolen() == wrapped(old(self).spec_stolen() as int, 1)
                && final(self).in_stealing() == wrapped(old(self).in_stealing() as int, 1),
            !(r is Success) ==> final(self).spec_stolen() == old(self).spec_stolen()
                && final(self).in_stealing() == old(self).in_stealing(),
    {
        proof { self.lemma_view(); }
        let ghost old_self = *self;
        let my_cursor_data = self.cursor_data();
        let mut params = ParamsCasForPopBatch { cursor_data: my_cursor_data, pop_amount: 1 };
        match self.fifo_try_cas_for_pop_batch(&mut params) {
            Steal::Success(_) => {},
            Steal::Empty => return Steal::Empty,
            Steal::Busy => return Steal::Busy,
        }
        let claim_start = params.cursor_data.blocked;
        let ghost s = old_self.stolen as int;
        let ghost n = old_self.count();
        proof {
            self.buffer.lemma_wf();
            old_self.lemma_view();
            assert(self.buffer.at_offset(s, 0) is Some);
        }
        let val = self.buffer.take_at(claim_start);
        self.consumer_publish_stolen(claim_start, 1);
        proof {
            let s2 = self.stolen as int;
            assert(self.count() == n - 1);
            assert forall|i: int| 0 <= i < self.count() implies #[trigger] self.buffer.at_offset(s2, i) == old_self.buffer.at_offset(s, 1 + i) by {
                self.buffer.lemma_wrap_slot(s, 1 + i);
                self.buffer.lemma_distinct_slots(s, 0, 1 + i);
            }
            self.lemma_view_raw();
            assert(self@ =~= old_self@.drop_first());
        }
        Steal::Success(val.unwrap())
    }

    /// How many values [`Self::try_steal_batch_to`] moved, zero for either kind of miss.
    pub fn consumer_pop_batch_to(&mut self, max: usize, other: &mut SpmcRingBufferLifoProduceFifoConsume<T>) -> (r: usize)
        requires
            old(self).wf(),
            old(other).wf(),
            max > 0,
        ensures
            final(self).wf(),
            final(other).wf(),
            final(self).spec_capacity() == old(self).spec_capacity(),
            final(other).spec_capacity() == old(other).spec_capacity(),
            r == (if old(other)@.len() >= old(other).spec_capacity() { 0 } else {
                min(min(old(other).spec_capacity() - old(other)@.len(), max as int), old(self)@.len() as int)
            }),
            final(self)@ == old(self)@.skip(r as int),
            final(other)@ == old(other)@ + old(self)@.take(r as int),
            final(self).spec_tail() == old(self).spec_tail(),
            final(self).spec_stolen() == wrapped(old(self).spec_stolen() as int, r as int),
            final(self).in_stealing() == wrapped(old(self).in_stealing() as int, r as int),
            final(other).spec_stolen() == old(other).spec_stolen(),
            final(other).in_stealing() == old(other).in_stealing(),
            final(other).spec_tail() == wrapped(old(other).spec_tail() as int, r as int),
    {
        let ghost old_self = self@;
        let ghost old_other = other@;
        let r = match self.try_steal_batch_to(max, other).success() {
            Some(n) => n,
            None => 0,
        };
        proof {
            if r == 0 {
                assert(old_self.skip(0) =~= old_self);
                assert(old_other + old_self.take(0) =~= old_other);
            }
        }
        r
    }

    /// Claims a run at the oldest end, computed from the snapshot in `cas_data`, in a single
    /// attempt.
    ///
    /// [`Steal::Empty`] when the snapshot shows nothing to take; [`Steal::Busy`] when the snapshot
    /// is stale, in which case nothing is claimed and the caller starts over from a fresh one;
    /// otherwise `in_stealing` moves past the claimed run and its length is returned. The claimed
    /// run still has to be published with [`Self::consumer_publish_stolen`].
    fn fifo_try_cas_for_pop_batch(&mut self, cas_data: &mut ParamsCasForPopBatch) -> (r: Steal<usize>)
        requires
            old(cas_data).pop_amount > 0,
        ensures
            final(self).stolen == old(self).stolen,
            final(self).buffer == old(self).buffer,
            !(r is Success) ==> final(self).anchor@ == old(self).anchor@,
            final(cas_data).cursor_data == old(cas_data).cursor_data,
            ({
                let cd = old(cas_data).cursor_data;
                let filled = distance(cd.blocked, cd.tail);
                let amount = min(old(cas_data).pop_amount as int, filled);
                &&& filled < 1 ==> r == Steal::<usize>::Empty
                &&& (filled >= 1 && cd.blocked == old(self).in_stealing() && cd.tail == old(self).spec_tail())
                    ==> r == Steal::Success(amount as usize)
                        && spec_hi(final(self).anchor@) == cd.tail
                        && spec_lo(final(self).anchor@) == wrapped(cd.blocked as int, amount)
                &&& (filled >= 1 && !(cd.blocked == old(self).in_stealing() && cd.tail == old(self).spec_tail()))
                    ==> r == Steal::<usize>::Busy
            }),
    {
        let filled_slots = cas_data.cursor_data.filled_slots();
        if filled_slots < 1 {
            return Steal::Empty;
        }
        // `tail` and `in_stealing` are read together, so the claim can never reach past the
        // owner's end.
        let mut amount = cas_data.pop_amount;
        if filled_slots < amount {
            amount = filled_slots;
        }
        cas_data.pop_amount = amount;
        proof {
            lemma_unpack_pack(self.anchor@);
        }
        let current = pack(cas_data.cursor_data.tail, cas_data.cursor_data.blocked);
        // Reserve the run, a barrier for the other thieves.
        let next = pack(cas_data.cursor_data.tail, cas_data.cursor_data.blocked.wrapping_add(amount as u32));
        match self.anchor.compare_exchange_weak(current, next) {
            Ok(_) => Steal::Success(amount),
            Err(_) => Steal::Busy,
        }
    }

    /// Publishes the run `[start, start + amount)` as taken, in claim order.
    ///
    /// Runs are published in the order they were claimed, so `start` is where the published part
    /// ends; a run claimed after an unpublished one would have to wait for it, and `requires`
    /// leaves that wait out.
    fn consumer_publish_stolen(&mut self, start: u32, amount: u32)
        requires
            old(self).stolen == start,
        ensures
            final(self).stolen == wrapped(start as int, amount as int),
            final(self).anchor == old(self).anchor,
            final(self).buffer == old(self).buffer,
    {
        self.stolen = self.stolen.wrapping_add(amount);
    }
}

} // verus!

verus! {

impl<T> SpmcRingBufferLifoProduceFifoConsume<T> {
    /// Pushes as many values from the front of `vals` as fit, in order; returns how many.
    /// Only the owner may call this.
    pub fn push_batch(&mut self, vals: &mut Vec<T>) -> (r: usize)
        requires
            old(self).wf(),
        ensures
            final(self).wf(),
            final(self).spec_capacity() == old(self).spec_capacity(),
            r == min(old(self).spec_capacity() - old(self)@.len(), old(vals)@.len() as int),
            final(self)@ == old(self)@ + old(vals)@.take(r as int),
            final(self).spec_stolen() == old(self).spec_stolen(),
            final(self).in_stealing() == old(self).in_stealing(),
            final(self).spec_tail() == wrapped(old(self).spec_tail() as int, r as int),
            final(vals)@ == old(vals)@.skip(r as int),
    {
        let ghost old_self = self@;
        let ghost all = vals@;
        let free = self.remaining();
        let k = if free < vals.len() { free } else { vals.len() };
        let mut batch = take_front_reversed(vals, k);
        let mut i: usize = 0;
        while i < k
            invariant
                i <= k,
                k <= all.len(),
                k + old_self.len() <= self.spec_capacity(),
                self.wf(),
                self.spec_capacity() == old(self).spec_capacity(),
                batch@.len() == k - i,
                forall|j: int| 0 <= j < batch@.len() ==> #[trigger] batch@[j] == all[k - 1 - j],
                self@ == old_self + all.take(i as int),
                self.spec_stolen() == old(self).spec_stolen(),
                self.in_stealing() == old(self).in_stealing(),
                self.spec_tail() == wrapped(old(self).spec_tail() as int, i as int),
            decreases k - i,
        {
            let v = batch.pop().unwrap();
            let pushed = self.push(v);
            proof {
                lemma_wrapped_twice(old(self).spec_tail() as int, i as int, 1);
            }
            i = i + 1;
            proof {
                assert(self@ =~= old_self + all.take(i as int));
            }
        }
        k
    }

    /// Moves up to `max` of the oldest values of `src` to the owner end of this ring, in order,
    /// and returns how many moved: as many as `max`, `src` and the free cells all allow. Only the
    /// owner may call this.
    pub fn push_batch_by_taking_from_queue(&mut self, max: usize, src: &mut LaneQueue<T>) -> (r: usize)
        requires
            old(self).wf(),
            old(src).wf(),
            max > 0,
        ensures
            final(self).wf(),
            final(src).wf(),
            final(self).spec_capacity() == old(self).spec_capacity(),
            r == min(min(old(self).spec_capacity() - old(self)@.len(), max as int), old(src)@.len() as int),
            final(self)@ == old(self)@ + old(src)@.take(r as int),
            final(self).spec_stolen() == old(self).spec_stolen(),
            final(self).in_stealing() == old(self).in_stealing(),
            final(self).spec_tail() == wrapped(old(self).spec_tail() as int, r as int),
            final(src)@ == old(src)@.skip(r as int),
    {
        let ghost old_src = src@;
        let mut take_amount = self.remaining();
        if max < take_amount {
            take_amount = max;
        }
        if src.len() < take_amount {
            take_amount = src.len();
        }
        if take_amount < 1 {
            assert(old_src.take(0) =~= Seq::<T>::empty());
            assert(old(self)@ + old_src.take(0) =~= old(self)@);
            assert(old_src.skip(0) =~= old_src);
            return 0;
        }
        let mut batch: Vec<T> = Vec::new();
        let moved = src.steal_batch(&mut batch, take_amount);
        proof {
            assert(batch@ =~= old_src.take(moved as int));
        }
        let pushed = self.push_batch(&mut batch);
        proof {
            assert(old_src.take(moved as int).take(pushed as int) =~= old_src.take(moved as int));
        }
        moved
    }

    /// Pops every value to the back of `out`, newest first, the way the owner pops them;
    /// returns how many.
    pub fn drain(&mut self, out: &mut Vec<T>) -> (r: usize)
        requires
            old(self).wf(),
        ensures
            final(self).wf(),
            final(self).spec_capacity() == old(self).spec_capacity(),
            r == old(self)@.len(),
            final(out)@ == old(out)@ + old(self)@.reverse(),
            final(self)@ == Seq::<T>::empty(),
            final(self).spec_stolen() == old(self).spec_stolen(),
            final(self).in_stealing() == old(self).in_stealing(),
            final(self).spec_tail() == old(self).spec_stolen(),
    {
        let ghost all = self@;
        let ghost old_out = out@;
        proof { self.lemma_view(); }
        let total = self.len();
        let mut count: usize = 0;
        while count < total
            invariant
                count <= total,
                total == all.len(),
                self.wf(),
                self.spec_capacity() == old(self).spec_capacity(),
                self@ == all.take(total - count),
                out@ == old_out + all.subrange(total - count, total as int).reverse(),
                self.spec_stolen() == old(self).spec_stolen(),
                self.in_stealing() == old(self).in_stealing(),
                self.spec_tail() == wrapped(old(self).spec_stolen() as int, total - count),
            decreases total - count,
        {
            let ghost before = self@;
            proof {
                lemma_wrapped_twice(old(self).spec_stolen() as int, total - count, -1);
            }
            let v = self.pop_lifo();
            out.push(v.unwrap());
            count = count + 1;
            proof {
                assert(self@ =~= all.take(total - count));
                let k = total - count;
                assert(all.subrange(k, total as int).reverse() =~= all.subrange(k + 1, total as int).reverse().push(all[k]));
                assert(out@ =~= old_out + all.subrange(k, total as int).reverse());
            }
        }
        proof {
            assert(all.subrange(0, total as int) =~= all);
            assert(self@ =~= Seq::<T>::empty());
        }
        total
    }
}

impl<T> LocalQueue<T> for SpmcRingBufferLifoProduceFifoConsume<T> {
    open spec fn local_view(&self) -> Seq<T> {
        self@
    }

    open spec fn local_capacity(&self) -> int {
        self.spec_capacity()
    }

    open spec fn local_wf(&self) -> bool {
        self.wf()
    }

    proof fn lemma_local_wf(&self) {
        self.lemma_len();
    }

    fn capacity(&self) -> (r: usize) {
        SpmcRingBufferLifoProduceFifoConsume::capacity(self)
    }

    fn remaining(&self) -> (r: usize) {
        SpmcRingBufferLifoProduceFifoConsume::remaining(self)
    }

    fn push(&mut self, val: T) -> (r: Result<(), T>) {
        SpmcRingBufferLifoProduceFifoConsume::push(self, val)
    }

    fn push_iter(&mut self, vals: &mut Vec<T>) -> (r: usize) {
        self.push_batch(vals)
    }
}

} // verus!
