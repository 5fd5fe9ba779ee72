//! Which lane runs a job. Lanes are split by how work behaves, not by engine subsystem: the
//! compute lane for frame work that never waits, the async lane for work that mostly waits, and
//! the main lane for calls that must happen on the thread that owns the frame loop.

pub mod lane_id;

pub use lane_id::LaneId;
