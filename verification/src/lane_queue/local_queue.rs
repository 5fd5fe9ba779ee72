//! A worker's own ring, seen from the lane queue.

use vstd::prelude::*;
use vstd::math::min;

verus! {

/// What the lane queue needs of a worker's ring: its size, its free cells, and a way to push one
/// value or a whole batch.
pub trait LocalQueue<T>: Sized {
    /// The values in the ring, in the order they will be handed out.
    spec fn local_view(&self) -> Seq<T>;

    /// Total number of cells, fixed at construction.
    spec fn local_capacity(&self) -> int;

    /// The ring is in a consistent state.
    spec fn local_wf(&self) -> bool;

    /// A consistent ring holds between zero and `capacity` values, and has at least one cell.
    proof fn lemma_local_wf(&self)
        requires
            self.local_wf(),
        ensures
            self.local_view().len() <= self.local_capacity(),
            1 <= self.local_capacity() <= usize::MAX,
    ;

    /// Total number of cells.
    fn capacity(&self) -> (r: usize)
        requires
            self.local_wf(),
        ensures
            r == self.local_capacity(),
    ;

    /// Free cells. Only the owner pushes, so this can only grow behind the owner's back.
    fn remaining(&self) -> (r: usize)
        requires
            self.local_wf(),
        ensures
            r == self.local_capacity() - self.local_view().len(),
    ;

    /// Appends `val`, or hands it back when the ring is full.
    fn push(&mut self, val: T) -> (r: Result<(), T>)
        requires
            old(self).local_wf(),
        ensures
            final(self).local_wf(),
            final(self).local_capacity() == old(self).local_capacity(),
            old(self).local_view().len() < old(self).local_capacity() ==> r == Ok::<(), T>(())
                && final(self).local_view() == old(self).local_view().push(val),
            old(self).local_view().len() >= old(self).local_capacity() ==> r == Err::<(), T>(val)
                && final(self).local_view() == old(self).local_view(),
    ;

    /// Moves as many values from the front of `vals` as fit, in order, publishing them once;
    /// returns how many moved.
    fn push_iter(&mut self, vals: &mut Vec<T>) -> (r: usize)
        requires
            old(self).local_wf(),
        ensures
            final(self).local_wf(),
            final(self).local_capacity() == old(self).local_capacity(),
            r == min(old(self).local_capacity() - old(self).local_view().len(), old(vals)@.len() as int),
            final(self).local_view() == old(self).local_view() + old(vals)@.take(r as int),
            final(vals)@ == old(vals)@.skip(r as int),
    ;
}

} // verus!
