//! Randomised maze generation on a rectangular grid of characters.

pub mod carving;
pub mod grid;
pub mod lattice;
pub mod point;
pub mod prim;
pub mod resolve;
mod rng;

pub use grid::{END, PASSAGE, START, WALL};
pub use point::Point;
pub use prim::{MazeError, Prim};
