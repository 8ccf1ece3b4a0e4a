pub mod latin_squares;

use vstd::prelude::*;

use crate::consts::{GRID_SIZE, MIN_CLUES};
use crate::error::{SudokuError, SudokuResult};
use crate::rules::{
    extends, filled_count, grid_filled, grid_valid, has_unique_completion, houses_complete,
};
use crate::sudoku::Sudoku;

pub use latin_squares::{LatinSquare, LatinSquares};

verus! {

/// What is asked of a generated puzzle.
#[derive(Debug, PartialEq, Eq, Structural, Clone, Copy)]
pub struct SudokuConfig {
    /// The number of clues, `17..=81`.
    pub cells: usize,
}

impl SudokuConfig {
    /// `is_valid` in specifications.
    pub open spec fn spec_is_valid(&self) -> bool {
        17 <= self.cells <= 81
    }

    /// The number of clues is one that a puzzle can have.
    #[verifier::when_used_as_spec(spec_is_valid)]
    pub fn is_valid(&self) -> (r: bool)
        ensures
            r == (17 <= self.cells <= 81),
    {
        MIN_CLUES <= self.cells && self.cells <= GRID_SIZE
    }
}

/// `p` is a puzzle with `cells` clues: it has that many digits, keeps the
/// rules, has exactly one completion, and its given cells are those that
/// hold a digit.
pub open spec fn is_puzzle(p: Sudoku, cells: usize) -> bool {
    &&& p.wf()
    &&& filled_count(p@) == cells
    &&& grid_valid(p@)
    &&& has_unique_completion(p@)
    &&& forall|i: int| 0 <= i < 81 ==> (#[trigger] p.0[i]).is_given == (p.0[i].digit is Some)
}

/// `p` arose from `full` by emptying cells.
pub open spec fn carved_from(p: Sudoku, full: Sudoku) -> bool {
    &&& extends(full@, p@)
    &&& forall|i: int|
        0 <= i < 81 ==> (#[trigger] p.0[i]).coord == full.0[i].coord && p.0[i].candidates
            == full.0[i].candidates
}

/// The error that a request with this configuration ends in, if it ends
/// in one.
pub open spec fn refusal(config: SudokuConfig) -> SudokuError {
    if config.is_valid() {
        SudokuError::GenerationFailed
    } else {
        SudokuError::InvalidClueCount(config.cells)
    }
}

/// A way to make boards.
pub trait Generate: Sized {
    /// A puzzle with `config.cells` clues and exactly one completion.
    fn generate(self, config: SudokuConfig) -> (r: SudokuResult<Sudoku>)
        ensures
            r matches Ok(p) ==> config.is_valid() && is_puzzle(p, config.cells),
            r matches Err(e) ==> e == refusal(config),
    ;

    /// A full board that keeps the rules.
    fn generate_filled(self, config: SudokuConfig) -> (r: SudokuResult<Sudoku>)
        ensures
            r matches Ok(s) ==> s.wf() && grid_filled(s@) && grid_valid(s@) && houses_complete(s@),
            r matches Err(e) ==> e == SudokuError::GenerationFailed,
    ;

    /// A puzzle with `config.cells` clues and exactly one completion,
    /// carved out of `sudoku`.
    fn generate_from(self, sudoku: Sudoku, config: SudokuConfig) -> (r: SudokuResult<Sudoku>)
        requires
            sudoku.wf(),
        ensures
            r matches Ok(p) ==> config.is_valid() && is_puzzle(p, config.cells) && carved_from(
                p,
                sudoku,
            ),
            r matches Err(e) ==> e == refusal(config),
    ;
}

} // verus!
