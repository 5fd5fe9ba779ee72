//! A countdown that is done when it reaches zero.

use vstd::prelude::*;
use crate::latch::latch_ticket::LatchTicket;

verus! {

broadcast use vstd::set::group_set_axioms;

/// A countdown of jobs that have not reported back, plus a flag asking the rest of the group
/// to skip their work.
///
/// Every ticket names the latch that issued it. [`Latch::new`] says nothing of that identity, so
/// no two latches can be shown to share one, and [`Latch::release`] only takes a ticket shown to
/// come from this latch.
pub struct Latch {
    /// Jobs that have not reported back. Zero means done.
    remaining: usize,
    /// "This group of jobs is no longer needed." It only concerns the bodies of jobs that have
    /// not run yet; it never touches the count.
    cancelled: bool,
    /// Identity of this latch, named by its tickets.
    id: Ghost<int>,
    /// The count the latch was made with.
    initial: Ghost<nat>,
    /// Serial numbers of the tickets issued and not yet handed back.
    outstanding: Ghost<Set<nat>>,
    /// Number of tickets issued so far; the next ticket gets this serial number.
    issued: Ghost<nat>,
}

impl Latch {
    pub closed spec fn spec_remaining(&self) -> nat {
        self.remaining as nat
    }

    pub closed spec fn spec_cancelled(&self) -> bool {
        self.cancelled
    }

    /// Identity of this latch, named by its tickets.
    pub closed spec fn id(&self) -> int {
        self.id@
    }

    /// The count the latch was made with.
    pub closed spec fn initial(&self) -> nat {
        self.initial@
    }

    /// Serial numbers of the tickets issued and not yet handed back.
    pub closed spec fn outstanding(&self) -> Set<nat> {
        self.outstanding@
    }

    /// Number of tickets issued so far.
    pub closed spec fn issued(&self) -> nat {
        self.issued@
    }

    /// The count is the initial count plus the tickets still out, and every ticket out has a
    /// serial number below the number issued.
    pub closed spec fn wf(&self) -> bool {
        &&& self.outstanding@.finite()
        &&& self.remaining == self.initial@ + self.outstanding@.len()
        &&& forall|s: nat| #[trigger] self.outstanding@.contains(s) ==> s < self.issued@
    }

    /// A latch waiting for `count` reports; `0` is valid and makes every wait return at once.
    pub fn new(count: usize) -> (l: Self)
        ensures
            l.wf(),
            l.spec_remaining() == count,
            !l.spec_cancelled(),
            l.initial() == count,
            l.outstanding() == Set::<nat>::empty(),
            l.issued() == 0,
    {
        Latch {
            remaining: count,
            cancelled: false,
            id: Ghost(0),
            initial: Ghost(count as nat),
            outstanding: Ghost(Set::empty()),
            issued: Ghost(0),
        }
    }

    /// Enters one more job and returns its ticket.
    ///
    /// The count goes up before the job can run; counting afterwards would leave a moment where
    /// the count is zero while the job is still in flight.
    pub fn ticket(&mut self) -> (t: LatchTicket)
        requires
            old(self).wf(),
            old(self).spec_remaining() < usize::MAX,
        ensures
            final(self).wf(),
            final(self).spec_remaining() == old(self).spec_remaining() + 1,
            final(self).spec_cancelled() == old(self).spec_cancelled(),
            final(self).id() == old(self).id(),
            final(self).initial() == old(self).initial(),
            t.latch_id() == old(self).id(),
            t.serial() == old(self).issued(),
            !old(self).outstanding().contains(t.serial()),
            final(self).outstanding() == old(self).outstanding().insert(t.serial()),
            final(self).issued() == old(self).issued() + 1,
    {
        let ghost serial = self.issued@;
        self.remaining = self.remaining + 1;
        proof {
            self.outstanding@ = self.outstanding@.insert(serial);
            self.issued@ = serial + 1;
        }
        LatchTicket::new(Ghost(self.id@), Ghost(serial))
    }

    /// Takes a ticket of this latch back: its job has reported, and the count goes down by one.
    pub fn release(&mut self, ticket: LatchTicket)
        requires
            old(self).wf(),
            ticket.latch_id() == old(self).id(),
            old(self).outstanding().contains(ticket.serial()),
        ensures
            final(self).wf(),
            final(self).spec_remaining() == old(self).spec_remaining() - 1,
            final(self).spec_cancelled() == old(self).spec_cancelled(),
            final(self).id() == old(self).id(),
            final(self).initial() == old(self).initial(),
            final(self).outstanding() == old(self).outstanding().remove(ticket.serial()),
            final(self).issued() == old(self).issued(),
    {
        let ghost serial = ticket.serial();
        let _ = ticket;
        proof {
            assert(self.outstanding@.len() > 0) by {
                if self.outstanding@.len() == 0 {
                    assert(self.outstanding@ =~= Set::empty());
                }
            }
        }
        self.remaining = self.remaining - 1;
        proof {
            self.outstanding@ = self.outstanding@.remove(serial);
        }
    }

    /// Tells the group that its work is no longer needed.
    ///
    /// Returns `true` when this call is the one that raised the flag: the first caller wins and
    /// may record why. The count is untouched, so waiting still lasts until every ticket is back.
    pub fn cancel(&mut self) -> (r: bool)
        ensures
            r == !old(self).spec_cancelled(),
            final(self).spec_cancelled(),
            final(self).spec_remaining() == old(self).spec_remaining(),
            final(self).id() == old(self).id(),
            final(self).initial() == old(self).initial(),
            final(self).outstanding() == old(self).outstanding(),
            final(self).issued() == old(self).issued(),
            old(self).wf() ==> final(self).wf(),
    {
        let was = self.cancelled;
        self.cancelled = true;
        !was
    }

    /// Whether the group was cancelled.
    pub fn is_cancelled(&self) -> (r: bool)
        ensures
            r == self.spec_cancelled(),
    {
        self.cancelled
    }

    /// Jobs that have not reported back.
    pub fn remaining(&self) -> (r: usize)
        ensures
            r == self.spec_remaining(),
    {
        self.remaining
    }

    /// Whether every job has reported back.
    pub fn is_done(&self) -> (r: bool)
        ensures
            r == (self.spec_remaining() == 0),
    {
        self.remaining() == 0
    }

    /// Returns once every job has reported back. With nobody else to hand tickets back, that is
    /// only ever the case when the count is already zero.
    pub fn wait(&self)
        requires
            self.spec_remaining() == 0,
    {
        while !self.is_done()
            invariant
                self.spec_remaining() == 0,
            decreases self.spec_remaining(),
        {
        }
    }

    /// The count is the initial count plus the tickets issued and not yet handed back, so the
    /// latch is done exactly when it was made with a count of zero and every ticket it issued
    /// has come back.
    pub proof fn lemma_done_means_all_back(&self)
        requires
            self.wf(),
        ensures
            self.spec_remaining() == self.initial() + self.outstanding().len(),
            self.spec_remaining() == 0 <==> (self.initial() == 0 && self.outstanding() == Set::<nat>::empty()),
    {
        if self.outstanding@.len() == 0 {
            assert(self.outstanding@ =~= Set::empty());
        }
    }
}

} // verus!
