//! The packed head cursor of a ring: two `u32` cursors in one word.

use vstd::prelude::*;
use crate::utils::bits::{pack, unpack, spec_pack, spec_hi, spec_lo};

verus! {

/// Two cursors kept in one word, so that they are always read and replaced together.
pub struct Head {
    packed: u64,
}

impl View for Head {
    type V = u64;

    closed spec fn view(&self) -> u64 {
        self.packed
    }
}

impl Head {
    /// A head holding `stolen` in the upper half and `in_progress` in the lower half.
    pub fn new(stolen: u32, in_progress: u32) -> (h: Self)
        ensures
            h@ == spec_pack(stolen, in_progress),
            spec_hi(h@) == stolen,
            spec_lo(h@) == in_progress,
    {
        Head { packed: pack(stolen, in_progress) }
    }

    /// Both cursors: `(upper, lower)`.
    pub fn load_unpack(&self) -> (r: (u32, u32))
        ensures
            r.0 == spec_hi(self@),
            r.1 == spec_lo(self@),
    {
        unpack(self.packed)
    }

    /// Replaces both cursors at once.
    pub fn store_pack(&mut self, val: (u32, u32))
        ensures
            final(self)@ == spec_pack(val.0, val.1),
            spec_hi(final(self)@) == val.0,
            spec_lo(final(self)@) == val.1,
    {
        self.packed = pack(val.0, val.1);
    }

    /// The packed word.
    pub fn load(&self) -> (r: u64)
        ensures
            r == self@,
    {
        self.packed
    }

    /// Replaces the packed word.
    pub fn store(&mut self, val: u64)
        ensures
            final(self)@ == val,
    {
        self.packed = val;
    }

    /// Replaces the word with `new` if it still is `current`; returns the word it found,
    /// as `Ok` when the replacement happened and as `Err` when it did not.
    pub fn compare_exchange_weak(&mut self, current: u64, new: u64) -> (r: Result<u64, u64>)
        ensures
            old(self)@ == current ==> r == Ok::<u64, u64>(current) && final(self)@ == new,
            old(self)@ != current ==> r == Err::<u64, u64>(old(self)@) && final(self)@ == old(self)@,
    {
        if self.packed == current {
            self.packed = new;
            Ok(current)
        } else {
            Err(self.packed)
        }
    }
}

} // verus!
