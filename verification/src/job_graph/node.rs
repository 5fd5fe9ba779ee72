//! One node of the graph: the job, what it still waits for, and what waits for it.

use vstd::prelude::*;

verus! {

/// A job in the graph, with the bookkeeping that decides when it may run.
pub struct Node<J> {
    /// Dependencies that have not finished yet, plus one while the node is still being wired up.
    /// Whoever brings this to zero releases the job.
    pub(crate) pending: usize,
    /// The job itself; taken out exactly once, by whoever runs the node.
    pub(crate) work: Option<J>,
    /// Nodes to release when this one finishes, by index; `None` once it has finished, which is
    /// what a dependent arriving late must be able to see.
    pub(crate) successors: Option<Vec<usize>>,
}

impl<J> Node<J> {
    /// Whether the node has run and handed out its successors.
    pub(crate) open spec fn is_finished(&self) -> bool {
        self.successors is None
    }

    /// The successors still to be released, in registration order; empty once finished.
    pub(crate) open spec fn successor_list(&self) -> Seq<usize> {
        match self.successors {
            Some(list) => list@,
            None => Seq::empty(),
        }
    }

    /// A node for `work` that still has its wiring-up count of one and no successors.
    pub(crate) fn new(work: J) -> (n: Self)
        ensures
            n.pending == 1,
            n.work == Some(work),
            !n.is_finished(),
            n.successor_list() == Seq::<usize>::empty(),
    {
        Node { pending: 1, work: Some(work), successors: Some(Vec::new()) }
    }
}

} // verus!
