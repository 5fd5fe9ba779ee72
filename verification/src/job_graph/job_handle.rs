//! What a spawn hands back, for later jobs to depend on.

use vstd::prelude::*;

verus! {

/// A job spawned with [`Scope::spawn_after`](crate::job_graph::Scope::spawn_after) or
/// [`Scope::spawn_with_handle`](crate::job_graph::Scope::spawn_with_handle), usable as a
/// dependency of later jobs of the same scope.
///
/// There is deliberately no way to wait on a handle: the order is stated as a dependency, and
/// the single place where anyone stops is the end of the scope.
pub struct JobHandle {
    node: usize,
}

impl JobHandle {
    /// Index of the job in its scope, in spawn order.
    pub closed spec fn index(&self) -> int {
        self.node as int
    }

    pub(crate) fn new(node: usize) -> (h: Self)
        ensures
            h.index() == node,
    {
        JobHandle { node }
    }

    /// Index of the job in its scope, in spawn order.
    pub fn node(&self) -> (r: usize)
        ensures
            r == self.index(),
    {
        self.node
    }
}

} // verus!
