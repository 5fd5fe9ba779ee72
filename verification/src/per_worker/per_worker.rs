//! A slot per worker index, written without synchronisation and merged in index order.

use vstd::prelude::*;
use crate::per_worker::borrow_guard::BorrowGuard;

verus! {

/// One slot per worker index.
///
/// Results are merged by walking the slots in index order, not in the order the workers
/// finished, so a merge built on it gives the same answer on every run.
pub struct PerWorker<T> {
    slots: Vec<Slot<T>>,
}

/// A worker's slot, plus the flag that catches a second borrow.
struct Slot<T> {
    borrowed: bool,
    value: Option<T>,
}

impl<T> View for PerWorker<T> {
    type V = Seq<T>;

    /// The values, by slot index.
    closed spec fn view(&self) -> Seq<T> {
        Seq::new(self.slots@.len(), |i: int| self.slots@[i].value->0)
    }
}

impl<T> PerWorker<T> {
    /// Every slot holds its value and none is lent out.
    pub closed spec fn wf(&self) -> bool {
        forall|i: int| 0 <= i < self.slots@.len() ==> (#[trigger] self.slots@[i]).value is Some && !self.slots@[i].borrowed
    }

    /// A slot for every index in `0..len`, slot `i` starting as `init(i)`.
    pub fn with_len<F: Fn(usize) -> T>(len: usize, init: F) -> (r: Self)
        requires
            forall|i: usize| i < len ==> init.requires((i,)),
        ensures
            r.wf(),
            r@.len() == len,
            forall|i: int| 0 <= i < len ==> init.ensures((i as usize,), #[trigger] r@[i]),
    {
        let mut slots: Vec<Slot<T>> = Vec::new();
        let mut i: usize = 0;
        while i < len
            invariant
                i <= len,
                slots@.len() == i,
                forall|j: usize| j < len ==> init.requires((j,)),
                forall|j: int| 0 <= j < i ==> (#[trigger] slots@[j]).value is Some && !slots@[j].borrowed,
                forall|j: int| 0 <= j < i ==> init.ensures((j as usize,), (#[trigger] slots@[j]).value->0),
            decreases len - i,
        {
            let v = init(i);
            slots.push(Slot { borrowed: false, value: Some(v) });
            i = i + 1;
        }
        let r = PerWorker { slots };
        assert forall|j: int| 0 <= j < len implies init.ensures((j as usize,), #[trigger] r@[j]) by {
            assert(r@[j] == r.slots@[j].value->0);
        }
        r
    }

    /// Number of slots.
    pub fn len(&self) -> (r: usize)
        ensures
            r == self@.len(),
    {
        self.slots.len()
    }

    /// Whether there are no slots.
    pub fn is_empty(&self) -> (r: bool)
        ensures
            r == (self@.len() == 0),
    {
        self.slots.len() == 0
    }

    /// The value of slot `index`.
    pub fn get(&self, index: usize) -> (r: &T)
        requires
            self.wf(),
            index < self@.len(),
        ensures
            *r == self@[index as int],
    {
        self.slots[index].value.as_ref().unwrap()
    }

    /// Lends slot `index` to `f`, which hands the value back together with a result.
    ///
    /// The slot is marked as lent while `f` runs and the mark is cleared afterwards. The exclusive
    /// borrow of `self` already rules out a second loan of the same slot while `f` runs, so the
    /// mark never sees one; an index outside the slots is not accepted.
    pub fn with<R, F: FnOnce(T) -> (T, R)>(&mut self, index: usize, f: F) -> (r: R)
        requires
            old(self).wf(),
            index < old(self)@.len(),
            f.requires((old(self)@[index as int],)),
        ensures
            final(self).wf(),
            final(self)@.len() == old(self)@.len(),
            f.ensures((old(self)@[index as int],), (final(self)@[index as int], r)),
            forall|j: int| 0 <= j < old(self)@.len() && j != index ==> final(self)@[j] == old(self)@[j],
    {
        let ghost old_slots = self.slots@;
        let guard = self.lend(index);
        let value = self.slots[index].value.take().unwrap();
        let (value, r) = f(value);
        self.slots[index].value = Some(value);
        self.give_back(guard);
        proof {
            assert forall|j: int| 0 <= j < old_slots.len() && j != index implies self@[j] == old(self)@[j] by {
                assert(self.slots@[j] == old_slots[j]);
            }
        }
        r
    }

    /// Applies `f` to every slot, in index order, for instance to reset per-frame state.
    ///
    /// The exclusive borrow of `self` is the proof that no slot is lent out at this point.
    pub fn for_each_unchecked<F: Fn(T) -> T>(&mut self, f: F)
        requires
            old(self).wf(),
            forall|v: T| #[trigger] f.requires((v,)),
        ensures
            final(self).wf(),
            final(self)@.len() == old(self)@.len(),
            forall|j: int| 0 <= j < old(self)@.len() ==> f.ensures((old(self)@[j],), #[trigger] final(self)@[j]),
    {
        let ghost old_view = self@;
        let n = self.slots.len();
        let mut i: usize = 0;
        while i < n
            invariant
                self.wf(),
                n == self.slots@.len(),
                n == old_view.len(),
                i <= n,
                forall|v: T| #[trigger] f.requires((v,)),
                forall|j: int| 0 <= j < i ==> f.ensures((old_view[j],), #[trigger] self@[j]),
                forall|j: int| i <= j < n ==> #[trigger] self@[j] == old_view[j],
            decreases n - i,
        {
            let ghost before = self.slots@;
            let ghost view_before = self@;
            let value = self.slots[i].value.take().unwrap();
            proof {
                assert(value == view_before[i as int]);
            }
            let value = f(value);
            self.slots[i].value = Some(value);
            proof {
                assert forall|j: int| 0 <= j < n && j != i implies #[trigger] self@[j] == view_before[j] by {
                    assert(self.slots@[j] == before[j]);
                }
                assert(self@[i as int] == value);
            }
            i = i + 1;
        }
    }

    /// Marks slot `index` as lent out.
    fn lend(&mut self, index: usize) -> (g: BorrowGuard)
        requires
            old(self).wf(),
            index < old(self).slots@.len(),
        ensures
            g.spec_index() == index,
            final(self).slots@ == old(self).slots@.update(index as int, Slot { borrowed: true, value: old(self).slots@[index as int].value }),
    {
        self.slots[index].borrowed = true;
        BorrowGuard::new(index)
    }

    /// Clears the mark that `guard` put on its slot.
    fn give_back(&mut self, guard: BorrowGuard)
        requires
            guard.spec_index() < old(self).slots@.len(),
        ensures
            final(self).slots@ == old(self).slots@.update(guard.spec_index() as int,
                Slot { borrowed: false, value: old(self).slots@[guard.spec_index() as int].value }),
    {
        let index = guard.index();
        self.slots[index].borrowed = false;
    }
}

} // verus!
