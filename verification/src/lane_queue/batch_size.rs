//! How much to load into a worker's ring in one go.

use vstd::prelude::*;
use vstd::math::{min, max};
use crate::lane_queue::local_queue::LocalQueue;

verus! {

/// The batch size for a queue of `len` values shared by `workers` workers, loading into a ring
/// of `capacity` cells of which `remaining` are free.
pub open spec fn spec_batch_size(len: int, workers: int, capacity: int, remaining: int) -> int {
    min(min(len / max(workers, 1) + 1, capacity / 2), remaining)
}

/// How many values to load into `dst`, on top of the one the caller runs right away.
///
/// The smallest of three bounds:
///
/// - `len / workers + 1`: an even share for every worker of the lane, plus one so that it never
///   comes out as zero while there is work.
/// - `capacity / 2`: half of the ring stays free for the jobs the caller is about to spawn.
/// - `remaining`: the free cells; only the owner pushes, so this cannot shrink behind its back.
pub fn batch_size<T, Q: LocalQueue<T>>(len: usize, workers: usize, dst: &Q) -> (r: usize)
    requires
        dst.local_wf(),
        (len as int) / max(workers as int, 1) < usize::MAX,
    ensures
        r == spec_batch_size(len as int, workers as int, dst.local_capacity(), dst.local_capacity() - dst.local_view().len()),
        ({
            let share = (len as int) / (if workers > 1 { workers as int } else { 1 }) + 1;
            let half = dst.local_capacity() / 2;
            let free = dst.local_capacity() - dst.local_view().len();
            &&& r <= share && r <= half && r <= free
            &&& r == share || r == half || r == free
        }),
{
    let w = if workers > 1 { workers } else { 1 };
    let share = len / w + 1;
    let half = dst.capacity() / 2;
    let free = dst.remaining();
    let mut r = share;
    if half < r {
        r = half;
    }
    if free < r {
        r = free;
    }
    r
}

} // verus!
