//! The flag that catches a second borrow of the same slot.

use vstd::prelude::*;

verus! {

/// Marks one slot of a [`PerWorker`](crate::per_worker::PerWorker) as lent out; the mark is
/// cleared when the guard is handed back.
pub struct BorrowGuard {
    index: usize,
}

impl BorrowGuard {
    pub closed spec fn spec_index(&self) -> usize {
        self.index
    }

    /// A guard for slot `index`.
    pub fn new(index: usize) -> (g: Self)
        ensures
            g.spec_index() == index,
    {
        BorrowGuard { index }
    }

    /// The slot this guard marks.
    pub fn index(&self) -> (r: usize)
        ensures
            r == self.spec_index(),
    {
        self.index
    }
}

} // verus!
