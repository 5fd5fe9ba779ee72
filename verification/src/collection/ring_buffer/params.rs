//! Arguments handed to the claim steps of the rings.

use vstd::prelude::*;
use crate::utils::cursors::CursorData;

verus! {

/// What a push batch wants to reserve at the tail.
pub struct ParamsCasTailForPushBatch {
    /// The cursors the reservation is computed from; refreshed when the reservation is retried.
    pub cursor_data: CursorData,
    /// How many values the source holds.
    pub src_amount: usize,
    /// At most this many are pushed; lowered to what fits.
    pub push_amount: usize,
}

/// What a pop batch wants to claim at the head.
pub struct ParamsCasForPopBatch {
    /// The cursors the claim is computed from; refreshed when the claim is retried.
    pub cursor_data: CursorData,
    /// At most this many are popped; lowered to what is there.
    pub pop_amount: usize,
}

} // verus!
