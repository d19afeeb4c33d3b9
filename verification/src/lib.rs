//! Sudoku puzzles with a unique solution: board rules, a randomized solver,
//! a capped solution counter and a carver that keeps the solution unique.

pub mod board;
pub mod rules;
pub mod search;
pub mod seed;
pub mod carve;
mod random;
pub mod grid;
pub mod validate;

pub use grid::{generate_sudoku, GenerationError, SudokuGrid};
pub use validate::{check_solution, is_complete, is_valid_move};
