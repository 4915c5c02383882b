//! Computed programs: the Sudoku board and the token runner.

pub mod runner;
pub mod sudoku;
