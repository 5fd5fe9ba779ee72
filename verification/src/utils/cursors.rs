//! A snapshot of a ring's three cursors, taken once per operation.

use vstd::prelude::*;
use crate::collection::ring_buffer::fixed_buffer::distance;

verus! {

/// The cursors of a ring read together, plus the constants needed to interpret them.
///
/// `[stolen, blocked)` is being read out by a consumer, `[blocked, tail)` is waiting to be taken.
#[derive(Clone, Copy)]
pub struct CursorData {
    /// Everything before this cursor has been taken out and its cells are free again.
    pub stolen: u32,
    /// Everything before this cursor has been claimed by some consumer.
    pub blocked: u32,
    /// The next push goes here.
    pub tail: u32,
    pub capacity: u32,
    pub mask: u32,
}

impl CursorData {
    /// Elements that are in the ring and not yet claimed.
    pub fn filled_slots(&self) -> (r: usize)
        ensures
            r == distance(self.blocked, self.tail),
    {
        self.tail.wrapping_sub(self.blocked) as usize
    }

    /// Cells that a push may write to.
    pub fn empty_slots(&self) -> (r: usize)
        requires
            distance(self.stolen, self.tail) <= self.capacity,
        ensures
            r == self.capacity - distance(self.stolen, self.tail),
    {
        (self.capacity - self.tail.wrapping_sub(self.stolen)) as usize
    }
}

} // verus!
