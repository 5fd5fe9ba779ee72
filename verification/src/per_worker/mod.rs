//! One slot per participating thread, so that each writes its own results without sharing.

pub mod borrow_guard;
pub mod per_worker;

pub use per_worker::PerWorker;
