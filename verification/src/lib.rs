//! Verified building blocks of a frame-oriented work-stealing runtime: fixed-size ring buffers
//! with wrapping cursors, the shared lane queue, countdown latches, dependency graphs between
//! jobs and per-worker slots.

pub mod collection;
pub mod utils;
pub mod lane_queue;
pub mod latch;
pub mod per_worker;
pub mod job_graph;
pub mod lanes;
