//! Saying which job comes after which, so that a frame is a graph rather than a chain of
//! barriers.
//!
//! Spawning a job hands back a handle, and later jobs hang off handles. Each job keeps count of
//! what it still waits for; whoever brings that count to zero releases the job. A dependency that
//! has already finished costs no waiting at all. Since a handle only exists once its job does,
//! every edge points back in time and no cycle can be written down.

pub mod job_handle;
pub mod node;
pub mod scope;

pub use job_handle::JobHandle;
pub use node::Node;
pub use scope::Scope;
