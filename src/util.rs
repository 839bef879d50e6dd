//! Helpers shared by the trajectory engine.

pub use crate::circular_buffer::CircularBuffer;
