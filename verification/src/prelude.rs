//! The names that most users of the library need.

pub use crate::candidates::Candidates;
pub use crate::cell::Cell;
pub use crate::consts::{GRID_SIZE, HOUSE_SIZE, MIN_CLUES, SQUARE_SIZE};
pub use crate::coord::{Coord, SudokuIndex};
pub use crate::digit::Digit;
pub use crate::error::{ParseError, SudokuError, SudokuResult};
pub use crate::generate::{Generate, LatinSquare, LatinSquares, SudokuConfig};
pub use crate::solve::{BacktrackingSolver, BruteForceSolver, Solution, Solve};
pub use crate::sudoku::Sudoku;
