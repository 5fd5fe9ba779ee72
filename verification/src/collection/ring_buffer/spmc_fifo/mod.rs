//! Single producer, several consumers, first in first out on both sides.

pub mod consumer;
pub mod producer;
pub mod spmc_ring_buffer_fifo;

pub use consumer::Consumer;
pub use producer::Producer;
pub use spmc_ring_buffer_fifo::SpmcRingBufferFifo;
