//! A 9x9 Sudoku solver: a grid held in three synchronized views (rows,
//! columns, boxes) and a depth-first backtracking search over it.
pub mod grid;
pub mod laws;
pub mod solver;
pub mod text;

pub use grid::{box_index_of, Sudoku};
pub use solver::{candidates, solve_sudoku};
pub use text::load_sudoku;
