use vstd::prelude::*;

use crate::candidates::Candidates;
use crate::coord::Coord;
use crate::digit::Digit;

verus! {

/// One cell of the board.
///
/// `candidates` is a cache that only
/// [`Sudoku::solve_all_candidates`](crate::sudoku::Sudoku::solve_all_candidates)
/// fills; nothing keeps it current.
#[derive(Debug, PartialEq, Eq, Structural, Hash, Clone, Copy)]
pub struct Cell {
    pub coord: Coord,
    pub digit: Option<Digit>,
    pub candidates: Candidates,
    pub is_given: bool,
}

impl Cell {
    /// The digit as a number, `0` for an empty cell.
    pub open spec fn value(self) -> u8 {
        match self.digit {
            Some(d) => d.0,
            None => 0,
        }
    }

    /// The digit, if any, lies in `1..=9`.
    pub open spec fn wf(self) -> bool {
        self.digit matches Some(d) ==> d.wf()
    }
}

impl Default for Cell {
    fn default() -> (r: Self)
        ensures
            r == (Cell {
                coord: Coord(0, 0),
                digit: None,
                candidates: Candidates::empty(),
                is_given: false,
            }),
    {
        Cell { coord: Coord(0, 0), digit: None, candidates: Candidates::empty(), is_given: false }
    }
}

} // verus!
