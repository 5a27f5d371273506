//! A backtracking solver for 9x9 Sudoku grids, verified with Verus.
pub mod grid;
pub mod lemmas;
pub mod matrix;
