//! A verified 9×9 Sudoku board and backtracking solver.
//!
//! A [`Sudoku`](sudoku::Sudoku) holds nine 3×3 [`Quadrant`](quadrant::Quadrant)s.
//! Its view is the grid read row by row: a sequence of 81 digits, `0` for an
//! empty cell. Contracts are stated over that view.
//!
//! - [`digits`]: the range of a digit, and sequences without repeated digits.
//! - [`error`]: the errors, their messages, and the order in which failed
//!   validations are reported.
//! - [`grid`]: rows, columns and quadrants of a grid, and what a valid and a
//!   solved grid are.
//! - [`quadrant`] and [`sudoku`]: the board, how it is built from flat input
//!   and how it is read.
//! - [`completion`]: the completions of a grid and their order.
//! - [`solver`]: the search. [`solve`](solver::solve) leaves the first
//!   completion of the board, or the board unchanged where it has none.

pub mod completion;
pub mod digits;
pub mod error;
pub mod grid;
pub mod quadrant;
pub mod solver;
pub mod sudoku;
