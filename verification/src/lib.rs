//! A 9x9 Sudoku generator and solver built on randomized backtracking search,
//! with the search's behaviour verified: a solve succeeds exactly when the
//! puzzle has a legal completion, a successful solve fills exactly the empty
//! cells and legally, and a failed solve leaves the grid untouched.

pub mod model;
pub mod puzzle;
pub mod randomness;
pub mod solver;
