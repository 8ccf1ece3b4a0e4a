use vstd::prelude::*;

use crate::rules::{grid_valid, is_completion, lemma_invalid_has_no_completion};
use crate::solve::{depth_first, first_completion, same_marks, search_outcome, Solve};
use crate::sudoku::Sudoku;

verus! {

/// Depth-first search that works out the candidates of every empty cell
/// anew at each step, and keeps nothing between steps.
pub struct BacktrackingSolver;

impl BacktrackingSolver {
    /// The solver; it holds no state.
    pub fn new() -> Self {
        BacktrackingSolver
    }

    /// Depth-first search from a board that keeps the rules, the
    /// candidates worked out anew at every step.
    pub fn search(sudoku: &mut Sudoku) -> (r: bool)
        requires
            old(sudoku).wf(),
            grid_valid(old(sudoku)@),
        ensures
            final(sudoku).wf(),
            same_marks(*final(sudoku), *old(sudoku)),
            r ==> is_completion(final(sudoku)@, old(sudoku)@),
            !r ==> *final(sudoku) == *old(sudoku),
            !r ==> forall|s: Seq<u8>| !is_completion(s, old(sudoku)@),
            r ==> first_completion(old(sudoku)@) == Some(final(sudoku)@),
            !r ==> first_completion(old(sudoku)@) is None,
    {
        let all_candidates = sudoku.all_candidates();
        depth_first(sudoku, all_candidates, true)
    }
}

impl Solve for BacktrackingSolver {
    /// Both solvers search in the same order: the outcome is
    /// `search_outcome`.
    open spec fn outcome(self, g: Seq<u8>) -> Option<Seq<u8>> {
        search_outcome(g)
    }

    /// A board that breaks the rules has no completion and is left alone;
    /// any other is searched depth first, and becomes the first completion
    /// that the search comes upon.
    fn solve(self, sudoku: &mut Sudoku) -> (r: bool) {
        if !sudoku.is_valid() {
            proof {
                lemma_invalid_has_no_completion(sudoku@);
            }
            return false;
        }
        Self::search(sudoku)
    }
}

} // verus!
