//! Containers that several parties move values in and out of.

pub mod ring_buffer;
pub mod stack;
