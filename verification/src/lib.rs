//! Sudoku boards, an exact backtracking solver and a generator of puzzles
//! with a unique solution.
//!
//! Every executable function carries a contract stated over the
//! mathematical model in [`rules`]: a board is a sequence of 81 digits,
//! `0` standing for an empty cell.

pub mod candidates;
pub mod cell;
pub mod consts;
pub mod coord;
pub mod digit;
pub mod error;
pub mod random;
pub mod rules;
pub mod sudoku;
pub mod solve;
pub mod generate;
pub mod text;
pub mod prelude;
