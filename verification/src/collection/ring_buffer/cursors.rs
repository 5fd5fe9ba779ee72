//! The three cursors of a ring, read once per operation.

use vstd::prelude::*;

verus! {

/// A snapshot of a ring's cursors, so that one operation works from one consistent reading.
#[derive(Clone, Copy)]
pub struct Cursors {
    pub stolen: u32,
    pub in_progress: u32,
    pub tail: u32,
}

impl Cursors {
    /// The tail advanced by `val`, wrapping.
    pub fn increse_tail(&self, val: u32) -> (r: u32)
        ensures
            r == (self.tail + val) % 0x1_0000_0000,
    {
        self.tail.wrapping_add(val)
    }

    /// The number of cells from `stolen` up to `tail`.
    pub fn available_slots(&self) -> (r: usize)
        requires
            self.stolen <= self.tail,
        ensures
            r == self.tail - self.stolen,
    {
        (self.tail - self.stolen) as usize
    }
}

} // verus!
