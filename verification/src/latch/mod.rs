//! "Run n jobs, then wake me": a countdown that every rendezvous of the crate is built on.

pub mod latch;
pub mod latch_ticket;

pub use latch::Latch;
pub use latch_ticket::LatchTicket;
