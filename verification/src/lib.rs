//! Generator and constraint-propagation solver for "Unequal" puzzles: an
//! N x N Latin square augmented with per-edge adjacency constraints, where a
//! marked pair of neighbors must differ by exactly 1 and an unmarked pair
//! must not.

pub mod bits;
pub mod latin;
pub mod laws;
pub mod puzzle;
pub mod render;
mod rng;

pub use latin::LatinSquare;
pub use puzzle::Adjacency;
pub use puzzle::Direction;
pub use puzzle::UnequalLatinSquare;
