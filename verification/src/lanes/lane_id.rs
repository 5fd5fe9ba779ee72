//! The name of a lane.

use vstd::prelude::*;

verus! {

/// The lane a job runs on.
#[derive(Debug, Clone, Copy, PartialEq, Eq, Structural, Hash)]
pub enum LaneId {
    /// CPU-bound frame work; the default, and where most jobs live.
    Compute,
    /// Work that mostly waits: loading assets, decoding, compiling shaders. This lane runs
    /// futures.
    Async,
    /// Work that must run on the main thread.
    Main,
}

impl Default for LaneId {
    /// Jobs go to the compute lane unless told otherwise.
    fn default() -> (r: Self)
        ensures
            r == LaneId::Compute,
    {
        LaneId::Compute
    }
}

} // verus!
