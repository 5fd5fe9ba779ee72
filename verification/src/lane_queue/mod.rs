//! The shared queue of a lane: where work from outside the pool lands, and where a worker spills
//! when its own ring is full. Work leaves it in batches.

pub mod batch_size;
pub mod lane_queue;
pub mod local_queue;

pub use lane_queue::LaneQueue;
pub use local_queue::LocalQueue;
