//! Conway's Game of Life on a toroidal grid, stored one bit per cell.

pub mod bits;
pub mod laws;
pub mod rules;
pub mod universe;

pub use universe::{Cell, Universe};
