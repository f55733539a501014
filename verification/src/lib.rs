//! A verified core for binero ("takuzu") puzzles: an even-sized square grid
//! is filled with two symbols so that every row and column holds the same
//! number of each symbol and never three equal symbols in a row.
//!
//! The crate provides the grid with its constraint checks, a linear
//! undo/redo history, and a solver/generator that fills a grid by
//! constraint propagation with randomized backtracking.

pub mod cells;
pub mod difficulty;
pub mod engine;
pub mod grid;
pub mod history;
mod names;
mod rng;
pub mod size;
pub mod value;

pub use difficulty::Difficulty;
pub use engine::Binero;
pub use grid::Grid;
pub use history::{History, Item};
pub use size::Size;
pub use value::Value;
