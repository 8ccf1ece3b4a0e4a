use vstd::prelude::*;

use crate::candidates::{is_digit, Candidates};
use crate::cell::Cell;
use crate::consts::{GRID_SIZE, HOUSE_SIZE};
use crate::coord::{Coord, SudokuIndex};
use crate::digit::Digit;
use crate::rules::{
    allowed, allowed_set, box_cell, box_of, box_pos, capped, col_of, completions, completions_below,
    filled_count, grid_filled, grid_valid, in_grid, is_completion, is_grid,
    lemma_allowed_after_place, lemma_box_cells, lemma_capped_full, lemma_capped_step,
    lemma_cell_houses, lemma_col_cells, lemma_completions_below_ends, lemma_completions_finite,
    lemma_completions_of_filled, lemma_filled_count, lemma_filled_count_update,
    lemma_invalid_has_no_completion, lemma_place_keeps_valid, lemma_row_cells, row_of, same_house,
};
use crate::solve::{depth_first, first_completion, same_marks, search_outcome, Solution, Solve};
use crate::sudoku::Sudoku;

verus! {

/// Depth-first search that always branches on an empty cell with the
/// fewest candidates.
pub struct BruteForceSolver;

/// `cands` holds, for every empty cell of `g`, the digits allowed there.
pub open spec fn candidates_match(g: Seq<u8>, cands: Seq<Candidates>) -> bool {
    &&& cands.len() == 81
    &&& forall|i: int| in_grid(i) && g[i] == 0 ==> (#[trigger] cands[i])@ == allowed_set(g, i)
}

impl BruteForceSolver {
    /// The solver; it holds no state.
    pub fn new() -> Self {
        BruteForceSolver
    }

    /// The first empty cell among those with the fewest candidates, with
    /// its candidates; `None` where no cell is empty.
    pub fn cell_with_least_candidates(sudoku: &Sudoku, all_candidates: &Vec<Candidates>) -> (r:
        Option<(usize, Candidates)>)
        requires
            sudoku.wf(),
            all_candidates@.len() == 81,
        ensures
            r is None <==> grid_filled(sudoku@),
            r matches Some((index, candidates)) ==> {
                &&& index < 81
                &&& sudoku@[index as int] == 0
                &&& candidates == all_candidates@[index as int]
                &&& forall|j: int|
                    in_grid(j) && sudoku@[j] == 0 ==> candidates@.len() <= (
                    #[trigger] all_candidates@[j])@.len()
                &&& forall|j: int|
                    0 <= j < index && sudoku@[j] == 0 ==> candidates@.len() < (
                    #[trigger] all_candidates@[j])@.len()
            },
    {
        let mut best_candidates_count = usize::MAX;
        let mut result: Option<(usize, Candidates)> = None;
        let mut i: usize = 0;
        proof {
            sudoku.lemma_view();
        }
        while i < GRID_SIZE
            invariant
                i <= 81,
                sudoku.wf(),
                all_candidates@.len() == 81,
                forall|j: int|
                    0 <= j < 81 ==> (#[trigger] sudoku@[j] == 0) == (sudoku.0[j].digit is None),
                result is None ==> forall|j: int| 0 <= j < i ==> #[trigger] sudoku@[j] != 0,
                result is None ==> best_candidates_count == usize::MAX,
                result matches Some((index, candidates)) ==> {
                    &&& index < i
                    &&& sudoku@[index as int] == 0
                    &&& candidates == all_candidates@[index as int]
                    &&& best_candidates_count == candidates@.len()
                    &&& best_candidates_count > 0
                    &&& forall|j: int|
                        0 <= j < i && sudoku@[j] == 0 ==> candidates@.len() <= (
                        #[trigger] all_candidates@[j])@.len()
                    &&& forall|j: int|
                        0 <= j < index && sudoku@[j] == 0 ==> candidates@.len() < (
                        #[trigger] all_candidates@[j])@.len()
                },
            decreases 81 - i,
        {
            if sudoku.0[i].digit.is_none() {
                let candidates = all_candidates[i];
                let candidates_count = candidates.count();
                proof {
                    candidates.lemma_members();
                }
                if candidates_count < best_candidates_count {
                    best_candidates_count = candidates_count;
                    result = Some((i, candidates));

                    if best_candidates_count == 0 {
                        assert(sudoku@[i as int] == 0);
                        return result;
                    }
                }
            }
            i += 1;
        }
        proof {
            if result is None {
                assert forall|j: int| in_grid(j) implies #[trigger] sudoku@[j] != 0 by {}
            } else {
                let (index, _) = result.unwrap();
                assert(sudoku@[index as int] == 0);
            }
        }
        result
    }

    /// Takes `digit` out of the candidates of every cell that shares a
    /// house with the cell at `index`, that cell itself left alone.
    pub fn recalculate_all_candidates(
        all_candidates: &mut Vec<Candidates>,
        index: usize,
        digit: Digit,
    )
        requires
            old(all_candidates)@.len() == 81,
            index < 81,
            digit.wf(),
        ensures
            final(all_candidates)@.len() == 81,
            forall|j: int|
                in_grid(j) ==> (#[trigger] final(all_candidates)@[j])@ == if j != index
                    && same_house(index as int, j) {
                    old(all_candidates)@[j]@.remove(digit.0)
                } else {
                    old(all_candidates)@[j]@
                },
            forall|j: int|
                in_grid(j) && !(j != index && same_house(index as int, j))
                    ==> #[trigger] final(all_candidates)@[j] == old(all_candidates)@[j],
            forall|j: int|
                in_grid(j) && old(all_candidates)@[j].wf()
                    ==> (#[trigger] final(all_candidates)@[j]).wf(),
    {
        let coord = Coord::from_index(index);
        let Coord(row, col) = coord;
        let ghost before = all_candidates@;
        let ghost at = index as int;
        proof {
            lemma_cell_houses(at);
        }

        let mut r: usize = 0;
        while r < HOUSE_SIZE
            invariant
                r <= 9,
                index < 81,
                digit.wf(),
                row == row_of(at),
                col == col_of(at),
                at == index,
                all_candidates@.len() == 81,
                before.len() == 81,
                forall|j: int|
                    in_grid(j) ==> (#[trigger] all_candidates@[j])@ == if j != at && col_of(j)
                        == col && row_of(j) < r {
                        before[j]@.remove(digit.0)
                    } else {
                        before[j]@
                    },
                forall|j: int|
                    in_grid(j) && !(j != at && col_of(j) == col && row_of(j) < r)
                        ==> #[trigger] all_candidates@[j] == before[j],
                forall|j: int|
                    in_grid(j) && before[j].wf() ==> (#[trigger] all_candidates@[j]).wf(),
            decreases 9 - r,
        {
            if r != row {
                let target = Coord(r, col).into_index();
                proof {
                    lemma_col_cells(col as int, r as int);
                }
                let mut candidates = all_candidates[target];
                candidates.remove(digit);
                all_candidates.set(target, candidates);
            }
            r += 1;
        }

        let mut c: usize = 0;
        while c < HOUSE_SIZE
            invariant
                c <= 9,
                index < 81,
                digit.wf(),
                row == row_of(at),
                col == col_of(at),
                at == index,
                all_candidates@.len() == 81,
                before.len() == 81,
                forall|j: int|
                    in_grid(j) ==> (#[trigger] all_candidates@[j])@ == if j != at && (col_of(j)
                        == col || (row_of(j) == row && col_of(j) < c)) {
                        before[j]@.remove(digit.0)
                    } else {
                        before[j]@
                    },
                forall|j: int|
                    in_grid(j) && !(j != at && (col_of(j) == col || (row_of(j) == row && col_of(j)
                        < c))) ==> #[trigger] all_candidates@[j] == before[j],
                forall|j: int|
                    in_grid(j) && before[j].wf() ==> (#[trigger] all_candidates@[j]).wf(),
            decreases 9 - c,
        {
            if c != col {
                let target = Coord(row, c).into_index();
                proof {
                    lemma_row_cells(row as int, c as int);
                }
                let mut candidates = all_candidates[target];
                candidates.remove(digit);
                all_candidates.set(target, candidates);
                proof {
                    assert(before[target as int]@.remove(digit.0).remove(digit.0)
                        =~= before[target as int]@.remove(digit.0));
                }
            }
            c += 1;
        }

        let square = Sudoku::square_indices_of_cell(coord);
        let ghost b = box_of(at);
        let mut k: usize = 0;
        while k < HOUSE_SIZE
            invariant
                k <= 9,
                index < 81,
                digit.wf(),
                row == row_of(at),
                col == col_of(at),
                b == box_of(at),
                0 <= b < 9,
                at == index,
                all_candidates@.len() == 81,
                before.len() == 81,
                forall|m: int| 0 <= m < 9 ==> #[trigger] square[m] == box_cell(b, m),
                forall|j: int|
                    in_grid(j) ==> (#[trigger] all_candidates@[j])@ == if j != at && (col_of(j)
                        == col || row_of(j) == row || (box_of(j) == b && box_pos(j)
                        < k)) {
                        before[j]@.remove(digit.0)
                    } else {
                        before[j]@
                    },
                forall|j: int|
                    in_grid(j) && !(j != at && (col_of(j) == col || row_of(j) == row || (box_of(j)
                        == b && box_pos(j) < k))) ==> #[trigger] all_candidates@[j]
                        == before[j],
                forall|j: int|
                    in_grid(j) && before[j].wf() ==> (#[trigger] all_candidates@[j]).wf(),
            decreases 9 - k,
        {
            let target = square[k];
            proof {
                lemma_box_cells(b, k as int);
                assert(target == box_cell(b, k as int));
            }
            if target != index {
                let mut candidates = all_candidates[target];
                candidates.remove(digit);
                all_candidates.set(target, candidates);
                proof {
                    assert(before[target as int]@.remove(digit.0).remove(digit.0)
                        =~= before[target as int]@.remove(digit.0));
                }
            }
            k += 1;
            proof {
                assert forall|j: int| in_grid(j) && box_of(j) == b && box_pos(j)
                    == k - 1 implies j == target by {
                    lemma_cell_houses(j);
                }
            }
        }
        proof {
            assert forall|j: int| in_grid(j) implies (j != at && (col_of(j) == col || row_of(j)
                == row || (box_of(j) == b && box_pos(j) < 9))) == (j != at
                && same_house(at, j)) by {
                lemma_cell_houses(j);
            }
        }
    }

    /// What recalculating does to candidates that matched the board before
    /// a digit was placed: they match the board after it.
    pub proof fn lemma_recalculated_match(
        g: Seq<u8>,
        before: Seq<Candidates>,
        after: Seq<Candidates>,
        index: int,
        digit: u8,
    )
        requires
            g.len() == 81,
            in_grid(index),
            g[index] == 0,
            is_digit(digit),
            candidates_match(g, before),
            after.len() == 81,
            forall|j: int|
                in_grid(j) ==> (#[trigger] after[j])@ == if j != index && same_house(index, j) {
                    before[j]@.remove(digit)
                } else {
                    before[j]@
                },
        ensures
            candidates_match(g.update(index, digit), after),
    {
        let h = g.update(index, digit);
        assert forall|i: int| in_grid(i) && h[i] == 0 implies (#[trigger] after[i])@
            == allowed_set(h, i) by {
            lemma_allowed_after_place(g, index, digit, i);
            assert(before[i]@ == allowed_set(g, i));
        }
    }

    /// Depth-first search from a board that keeps the rules, with the
    /// candidates of its empty cells at hand.
    pub fn solve_inner(sudoku: &mut Sudoku, all_candidates: Vec<Candidates>) -> (r: bool)
        requires
            old(sudoku).wf(),
            grid_valid(old(sudoku)@),
            candidates_match(old(sudoku)@, all_candidates@),
        ensures
            final(sudoku).wf(),
            same_marks(*final(sudoku), *old(sudoku)),
            r ==> is_completion(final(sudoku)@, old(sudoku)@),
            !r ==> *final(sudoku) == *old(sudoku),
            !r ==> forall|s: Seq<u8>| !is_completion(s, old(sudoku)@),
            r ==> first_completion(old(sudoku)@) == Some(final(sudoku)@),
            !r ==> first_completion(old(sudoku)@) is None,
    {
        depth_first(sudoku, all_candidates, false)
    }

    /// Counts the completions of a board that keeps the rules, up to
    /// `limit`, and leaves the board as it was.
    pub fn count_inner(sudoku: &mut Sudoku, all_candidates: Vec<Candidates>, limit: usize) -> (r:
        Solution)
        requires
            old(sudoku).wf(),
            grid_valid(old(sudoku)@),
            candidates_match(old(sudoku)@, all_candidates@),
        ensures
            *final(sudoku) == *old(sudoku),
            r.wf(),
            r.count() == capped(completions(old(sudoku)@).len(), limit as nat),
        decreases 81 - filled_count(old(sudoku)@),
    {
        proof {
            sudoku.lemma_view();
            lemma_filled_count(sudoku@);
        }
        if limit == 0 {
            return Solution::Impossible;
        }
        if let Some((index, candidates)) = Self::cell_with_least_candidates(
            sudoku,
            &all_candidates,
        ) {
            let ghost start = *sudoku;
            let ghost g = start@;
            let ghost at = index as int;
            let mut found = Solution::Impossible;
            let mut d: u8 = 1;
            proof {
                lemma_completions_below_ends(g, at);
            }
            while d <= 9 && found.solutions() < limit
                invariant
                    1 <= d <= 10,
                    index < 81,
                    at == index,
                    start == *old(sudoku),
                    g == start@,
                    start.wf(),
                    is_grid(g),
                    grid_valid(g),
                    g[at] == 0,
                    filled_count(g) < 81,
                    candidates_match(g, all_candidates@),
                    candidates@ == allowed_set(g, at),
                    forall|j: int|
                        0 <= j < 81 && j != at ==> #[trigger] sudoku.0[j] == start.0[j],
                    sudoku.0[at] == (Cell { digit: sudoku.0[at].digit, ..start.0[at] }),
                    found.wf(),
                    found.count() == capped(completions_below(g, at, d as int).len(), limit as nat),
                decreases 10 - d,
            {
                let digit = Digit::new_unchecked(d);
                let mut more = Solution::Impossible;
                if candidates.contains(digit) {
                    sudoku.set_cell(index, digit);

                    let mut next = all_candidates.clone();
                    assert(next@ =~= all_candidates@);
                    Self::recalculate_all_candidates(&mut next, index, digit);

                    proof {
                        let placed = Cell { digit: Some(digit), ..start.0[at] };
                        assert(sudoku.0@ =~= start.0@.update(at, placed));
                        sudoku.lemma_view_after_write(start, at, Some(digit));
                        assert(allowed(g, at, d));
                        lemma_place_keeps_valid(g, at, d);
                        lemma_filled_count_update(g, at, d);
                        Self::lemma_recalculated_match(g, all_candidates@, next@, at, d);
                    }
                    more = Self::count_inner(sudoku, next, limit - found.solutions());
                }
                proof {
                    lemma_capped_step(g, at, d, limit as nat, found.count(), more.count());
                }
                found = found.union(more);
                d += 1;
            }

            sudoku.clear_cell(index);

            proof {
                assert(sudoku.0@ =~= start.0@);
                assert(sudoku.0 =~= start.0);
                if d <= 9 {
                    lemma_capped_full(g, at, d as int, limit as nat);
                } else {
                    lemma_completions_below_ends(g, at);
                }
            }
            found
        } else {
            proof {
                lemma_completions_of_filled(sudoku@);
            }
            Solution::Unique
        }
    }

    /// How many completions the board has, counted up to `limit`.
    pub fn count(&self, sudoku: &Sudoku, limit: usize) -> (r: Solution)
        requires
            sudoku.wf(),
        ensures
            r.wf(),
            completions(sudoku@).finite(),
            r.count() == capped(completions(sudoku@).len(), limit as nat),
    {
        let mut board = *sudoku;
        proof {
            sudoku.lemma_view();
            lemma_completions_finite(sudoku@);
        }
        if !board.is_valid() {
            proof {
                lemma_invalid_has_no_completion(sudoku@);
            }
            return Solution::Impossible;
        }
        let all_candidates = board.all_candidates();
        Self::count_inner(&mut board, all_candidates, limit)
    }
}

impl Solve for BruteForceSolver {
    /// Both solvers search in the same order: the outcome is
    /// `search_outcome`.
    open spec fn outcome(self, g: Seq<u8>) -> Option<Seq<u8>> {
        search_outcome(g)
    }

    /// A board that breaks the rules has no completion and is left alone;
    /// any other is searched depth first, and becomes the first completion
    /// that the search comes upon.
    fn solve(self, sudoku: &mut Sudoku) -> (r: bool) {
        if !sudoku.is_valid() {
            proof {
                lemma_invalid_has_no_completion(sudoku@);
            }
            return false;
        }
        let all_candidates = sudoku.all_candidates();
        Self::solve_inner(sudoku, all_candidates)
    }
}

} // verus!
