//! Fixed-size ring buffers whose capacity is a power of two, addressed by wrapping `u32` cursors.

pub mod consts;
pub mod fixed_buffer;
pub mod head;
pub mod params;
pub mod spmc_fifo;
pub mod spmc;
pub mod spmc_lifo_produce_fifo_consume;
pub mod cursors;
pub mod fifo;
