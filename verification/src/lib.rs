//! A verified single-puzzle Sudoku solver.
//!
//! The grid is a flat, 81-cell array of digits (0 marks an empty cell).
//! Solving first applies constraint-propagation rules (naked singles and
//! hidden singles per row, column and block) to a fixed point, then falls
//! back to recursive backtracking over the remaining empty cells, always
//! branching on a cell with the fewest candidates.

pub mod solver;
pub mod sudoku;
