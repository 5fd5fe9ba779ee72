//! The token a job carries to report that it is done.

use vstd::prelude::*;
use crate::latch::latch::Latch;

verus! {

/// Proof that one job was entered into a [`Latch`]; handing it back with
/// [`Latch::release`] reports the job done. It names the latch that issued it and carries a serial
/// number unique among that latch's tickets.
pub struct LatchTicket {
    /// Identity of the issuing latch.
    latch: Ghost<int>,
    /// Position of this ticket among those its latch issued.
    serial: Ghost<nat>,
}

impl LatchTicket {
    /// Identity of the latch that issued this ticket.
    pub closed spec fn latch_id(&self) -> int {
        self.latch@
    }

    /// Position of this ticket among those its latch issued.
    pub closed spec fn serial(&self) -> nat {
        self.serial@
    }

    pub(crate) fn new(Ghost(latch): Ghost<int>, Ghost(serial): Ghost<nat>) -> (t: Self)
        ensures
            t.latch_id() == latch,
            t.serial() == serial,
    {
        LatchTicket { latch: Ghost(latch), serial: Ghost(serial) }
    }

    /// Whether the group of jobs behind `latch`, the latch that issued this ticket, has been
    /// cancelled by now; a job that sees `true` skips its body but still hands the ticket back.
    pub fn is_cancelled(&self, latch: &Latch) -> (r: bool)
        requires
            self.latch_id() == latch.id(),
        ensures
            r == latch.spec_cancelled(),
    {
        latch.is_cancelled()
    }
}

} // verus!
