//! Conway's Game of Life on a toroidal grid, with every operation of the
//! engine proved against a mathematical model of the grid.
pub mod cell;
pub mod grid;
pub mod laws;
pub mod universe;

pub use cell::Cell;
pub use grid::{DEFAULT_HEIGHT, DEFAULT_WIDTH};
pub use universe::{GridError, Universe};
