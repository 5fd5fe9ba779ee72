//! A ring whose owner pushes and pops at the tail, while thieves take from the head.

pub mod consumer;
pub mod spmc_ring_buffer_lifo_produce_fifo_consume;

pub use consumer::Consumer;
pub use spmc_ring_buffer_lifo_produce_fifo_consume::SpmcRingBufferLifoProduceFifoConsume;
