pub mod bits;
pub mod cursors;
pub mod steal;
pub mod vec_front;

pub use bits::{pack, unpack};
