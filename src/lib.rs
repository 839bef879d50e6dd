//! Trajectory engine for strange attractors: fixed-capacity trail buffers and
//! the per-tick update of a set of independent trajectories.

pub mod attractor;
pub mod circular_buffer;
pub mod util;

pub use attractor::Attractor;
pub use circular_buffer::CircularBuffer;
