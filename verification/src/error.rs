use vstd::prelude::*;

verus! {

/// What can go wrong when building digits or generating puzzles.
#[derive(Debug, PartialEq, Eq, Structural, Clone, Copy)]
pub enum SudokuError {
    /// The raw value is not one of `1..=9`.
    InvalidDigit(u8),
    /// The requested number of clues is outside `17..=81`.
    InvalidClueCount(usize),
    /// The retry budget ran out before a puzzle was found.
    GenerationFailed,
}

pub type SudokuResult<T> = Result<T, SudokuError>;

/// Why a flat digit string is not a board.
#[derive(Debug, PartialEq, Eq, Structural, Clone, Copy)]
pub enum ParseError {
    /// The character at `index` is not one of `'0'..='9'`.
    InvalidChar { char: char, index: usize },
    /// The string does not hold exactly 81 characters.
    InvalidLength { len: usize },
}

} // verus!
