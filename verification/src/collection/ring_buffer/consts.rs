use vstd::prelude::*;
use vstd::arithmetic::power2::pow2;

verus! {

/// Exclusive upper bound on a ring's capacity: above it the distance between two wrapping `u32`
/// cursors no longer tells a full ring from an empty one.
pub const MAX_CAPACITY: usize = 0x8000_0000;

/// A capacity that a ring accepts: a power of two below [`MAX_CAPACITY`].
pub open spec fn valid_capacity(capacity: int) -> bool {
    &&& capacity < MAX_CAPACITY
    &&& exists|k: nat| pow2(k) == capacity
}

} // verus!
