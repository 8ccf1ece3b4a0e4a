pub mod backtracking;
pub mod brute_force;

use vstd::prelude::*;

use crate::candidates::{is_digit, Candidates};
use crate::cell::Cell;
use crate::digit::Digit;
use crate::rules::{
    allowed, allowed_set, excluded, filled_count, grid_filled, grid_valid, in_grid, is_completion,
    is_grid, lemma_completion_digit, lemma_completion_split, lemma_filled_count,
    lemma_filled_count_update, lemma_place_keeps_valid,
};
use crate::solve::brute_force::candidates_match;
use crate::sudoku::Sudoku;

pub use backtracking::BacktrackingSolver;
pub use brute_force::BruteForceSolver;

verus! {

/// The cells of `after` are those of `before` but for their digits.
pub open spec fn same_marks(after: Sudoku, before: Sudoku) -> bool {
    forall|i: int|
        0 <= i < 81 ==> (#[trigger] after.0[i]).coord == before.0[i].coord && after.0[i].is_given
            == before.0[i].is_given && after.0[i].candidates == before.0[i].candidates
}

/// `c` is the cell that the search branches on: the first empty cell among
/// those with the fewest allowed digits.
pub open spec fn is_branch_cell(g: Seq<u8>, c: int) -> bool {
    &&& in_grid(c)
    &&& g[c] == 0
    &&& forall|j: int|
        in_grid(j) && g[j] == 0 ==> allowed_set(g, c).len() <= (#[trigger] allowed_set(g, j)).len()
    &&& forall|j: int|
        0 <= j < c && g[j] == 0 ==> allowed_set(g, c).len() < (#[trigger] allowed_set(g, j)).len()
}

/// The cell that the search branches on.
pub open spec fn branch_cell(g: Seq<u8>) -> int {
    choose|c: int| is_branch_cell(g, c)
}

/// What the search finds when it tries the digits from `d` on in the
/// empty cell `c`, in ascending order: the first completion found with
/// such a digit placed, if there is one.
pub open spec fn first_from_digit(g: Seq<u8>, c: int, d: u8) -> Option<Seq<u8>>
    decreases 81 - filled_count(g), 10 - d,
{
    if g.len() != 81 || !in_grid(c) || g[c] != 0 || !is_digit(d) {
        None
    } else {
        proof {
            lemma_filled_count_update(g, c, d);
            lemma_filled_count(g.update(c, d));
        }
        if allowed(g, c, d) && first_completion(g.update(c, d)) is Some {
            first_completion(g.update(c, d))
        } else {
            first_from_digit(g, c, (d + 1) as u8)
        }
    }
}

/// What depth-first search finds on a grid that keeps the rules: the
/// grid itself when it is full; else, with the branch cell chosen, the
/// first completion found with one of its allowed digits placed, the
/// digits tried in ascending order.
pub open spec fn first_completion(g: Seq<u8>) -> Option<Seq<u8>>
    decreases 81 - filled_count(g), 11int,
{
    if grid_filled(g) {
        Some(g)
    } else {
        proof {
            lemma_filled_count(g);
        }
        first_from_digit(g, branch_cell(g), 1)
    }
}

/// What depth-first search finds on any grid: nothing on one that breaks
/// the rules, else the first completion.
pub open spec fn search_outcome(g: Seq<u8>) -> Option<Seq<u8>> {
    if grid_valid(g) {
        first_completion(g)
    } else {
        None
    }
}

/// No grid has two branch cells.
pub proof fn lemma_branch_cell(g: Seq<u8>, c: int)
    requires
        is_branch_cell(g, c),
    ensures
        branch_cell(g) == c,
{
    let b = branch_cell(g);
    assert(is_branch_cell(g, b));
    if b < c {
        assert(allowed_set(g, c).len() < allowed_set(g, b).len());
        assert(allowed_set(g, b).len() <= allowed_set(g, c).len());
    } else if c < b {
        assert(allowed_set(g, b).len() < allowed_set(g, c).len());
        assert(allowed_set(g, c).len() <= allowed_set(g, b).len());
    }
}

/// Digits that are not allowed are passed over.
pub proof fn lemma_first_from_digit_skip(g: Seq<u8>, c: int, d: u8, e: u8)
    requires
        1 <= d <= e <= 10,
        forall|x: u8| d <= x < e ==> !#[trigger] allowed(g, c, x),
    ensures
        first_from_digit(g, c, d) == first_from_digit(g, c, e),
    decreases e - d,
{
    if d < e {
        assert(!allowed(g, c, d));
        lemma_first_from_digit_skip(g, c, (d + 1) as u8, e);
        if g.len() != 81 || !in_grid(c) || g[c] != 0 {
            assert(first_from_digit(g, c, e) is None);
        }
    }
}

/// Depth-first search from a board that keeps the rules, with the
/// candidates of its empty cells at hand. It branches on the first empty
/// cell among those with the fewest candidates and tries these in
/// ascending order; the cell is emptied again where none of them leads to
/// a full board. With `afresh` the candidates for the next step are worked
/// out anew from the board, else they are recalculated from those at
/// hand.
pub fn depth_first(sudoku: &mut Sudoku, all_candidates: Vec<Candidates>, afresh: bool) -> (r: bool)
    requires
        old(sudoku).wf(),
        grid_valid(old(sudoku)@),
        candidates_match(old(sudoku)@, all_candidates@),
    ensures
        final(sudoku).wf(),
        same_marks(*final(sudoku), *old(sudoku)),
        r ==> is_completion(final(sudoku)@, old(sudoku)@),
        !r ==> *final(sudoku) == *old(sudoku),
        !r ==> forall|s: Seq<u8>| !is_completion(s, old(sudoku)@),
        r ==> first_completion(old(sudoku)@) == Some(final(sudoku)@),
        !r ==> first_completion(old(sudoku)@) is None,
    decreases 81 - filled_count(old(sudoku)@),
{
    proof {
        sudoku.lemma_view();
        lemma_filled_count(sudoku@);
    }
    if let Some((index, candidates)) = BruteForceSolver::cell_with_least_candidates(
        sudoku,
        &all_candidates,
    ) {
        let ghost start = *sudoku;
        let ghost g = start@;
        let ghost at = index as int;
        let digits = candidates.digits();
        let mut k: usize = 0;
        let ghost mut lowest: u8 = 1;
        proof {
            assert(is_branch_cell(g, at)) by {
                assert forall|j: int| in_grid(j) && g[j] == 0 implies allowed_set(g, at).len()
                    <= (#[trigger] allowed_set(g, j)).len() by {
                    assert(all_candidates@[j]@ == allowed_set(g, j));
                }
                assert forall|j: int| 0 <= j < at && g[j] == 0 implies allowed_set(
                    g,
                    at,
                ).len() < (#[trigger] allowed_set(g, j)).len() by {
                    assert(all_candidates@[j]@ == allowed_set(g, j));
                }
            }
            lemma_branch_cell(g, at);
        }
        while k < digits.len()
            invariant
                k <= digits@.len(),
                1 <= lowest <= 10,
                k == 0 ==> lowest == 1,
                k > 0 ==> lowest == digits@[k - 1].0 + 1,
                forall|i: int, j: int| 0 <= i < j < digits@.len() ==> digits@[i].0 < digits@[j].0,
                first_completion(g) == first_from_digit(g, at, lowest),
                index < 81,
                at == index,
                start == *old(sudoku),
                g == start@,
                start.wf(),
                is_grid(g),
                grid_valid(g),
                g[at] == 0,
                filled_count(g) < 81,
                candidates_match(g, all_candidates@),
                candidates@ == allowed_set(g, at),
                forall|i: int|
                    0 <= i < digits@.len() ==> (#[trigger] digits@[i]).wf()
                        && candidates@.contains(digits@[i].0),
                forall|d: u8| #[trigger] candidates@.contains(d) ==> digits@.contains(Digit(d)),
                forall|j: int|
                    0 <= j < 81 && j != at ==> #[trigger] sudoku.0[j] == start.0[j],
                sudoku.0[at] == (Cell { digit: sudoku.0[at].digit, ..start.0[at] }),
                forall|m: int| 0 <= m < k ==> excluded(g, at, (#[trigger] digits@[m]).0),
            decreases digits@.len() - k,
        {
            let digit = digits[k];
            proof {
                let first = lowest;
                assert forall|x: u8| first <= x < digit.0 implies !#[trigger] allowed(
                    g,
                    at,
                    x,
                ) by {
                    if allowed(g, at, x) {
                        assert(candidates@.contains(x));
                        assert(digits@.contains(Digit(x)));
                        let m = choose|m: int| 0 <= m < digits@.len() && digits@[m] == Digit(x);
                        if m < k {
                            assert(k > 0);
                            if m < k - 1 {
                                assert(digits@[m].0 < digits@[k - 1].0);
                            }
                        } else if m > k {
                            assert(digits@[k as int].0 < digits@[m].0);
                        }
                    }
                }
                if k > 0 {
                    assert(digits@[k - 1].0 < digits@[k as int].0);
                }
                lemma_first_from_digit_skip(g, at, first, digit.0);
            }
            sudoku.set_cell(index, digit);
            proof {
                let placed = Cell { digit: Some(digit), ..start.0[at] };
                assert(sudoku.0@ =~= start.0@.update(at, placed));
                sudoku.lemma_view_after_write(start, at, Some(digit));
                assert(sudoku@ == g.update(at, digit.0));
                assert(allowed(g, at, digit.0));
                lemma_place_keeps_valid(g, at, digit.0);
                lemma_filled_count_update(g, at, digit.0);
            }

            let next = if afresh {
                sudoku.all_candidates()
            } else {
                let mut kept = all_candidates.clone();
                assert(kept@ =~= all_candidates@);
                BruteForceSolver::recalculate_all_candidates(&mut kept, index, digit);
                proof {
                    BruteForceSolver::lemma_recalculated_match(
                        g,
                        all_candidates@,
                        kept@,
                        at,
                        digit.0,
                    );
                }
                kept
            };

            if depth_first(sudoku, next, afresh) {
                proof {
                    lemma_completion_split(sudoku@, g, at, digit.0);
                }
                return true;
            }
            proof {
                assert forall|s: Seq<u8>| #[trigger] is_completion(s, g) implies s[at]
                    != digit.0 by {
                    lemma_completion_split(s, g, at, digit.0);
                }
                assert(excluded(g, at, digit.0));
                lowest = (digit.0 + 1) as u8;
            }
            k += 1;
        }

        sudoku.clear_cell(index);

        proof {
            assert(sudoku.0@ =~= start.0@);
            assert(sudoku.0 =~= start.0);
            assert forall|x: u8| lowest <= x < 10 implies !#[trigger] allowed(g, at, x) by {
                if allowed(g, at, x) {
                    assert(candidates@.contains(x));
                    assert(digits@.contains(Digit(x)));
                    let m = choose|m: int| 0 <= m < digits@.len() && digits@[m] == Digit(x);
                    if m < k - 1 {
                        assert(digits@[m].0 < digits@[k - 1].0);
                    }
                }
            }
            lemma_first_from_digit_skip(g, at, lowest, 10);
            assert forall|s: Seq<u8>| !is_completion(s, g) by {
                if is_completion(s, g) {
                    let d = s[at];
                    lemma_completion_digit(s, g, at);
                    lemma_completion_split(s, g, at, d);
                    assert(candidates@.contains(d));
                    assert(digits@.contains(Digit(d)));
                    let m = choose|m: int| 0 <= m < digits@.len() && digits@[m] == Digit(d);
                    assert(excluded(g, at, digits@[m].0));
                }
            }
        }
        false
    } else {
        true
    }
}


/// A way to fill a board.
pub trait Solve: Sized {
    /// What this solver makes of a grid: the completion that it fills in,
    /// or `None` where it fills in none.
    spec fn outcome(self, g: Seq<u8>) -> Option<Seq<u8>>;

    /// Fills the empty cells so that the rules hold, and says `true`; or,
    /// where that cannot be done, leaves the board as it was and says
    /// `false`. Which completion is filled in where there are several is
    /// the solver's own: `outcome` names it.
    fn solve(self, sudoku: &mut Sudoku) -> (r: bool)
        requires
            old(sudoku).wf(),
        ensures
            final(sudoku).wf(),
            same_marks(*final(sudoku), *old(sudoku)),
            r ==> is_completion(final(sudoku)@, old(sudoku)@),
            !r ==> *final(sudoku) == *old(sudoku),
            r <==> exists|s: Seq<u8>| is_completion(s, old(sudoku)@),
            r ==> self.outcome(old(sudoku)@) == Some(final(sudoku)@),
            !r ==> self.outcome(old(sudoku)@) is None,
    ;
}

/// How many completions a board has, as far as they were counted.
#[derive(Debug, PartialEq, Eq, Structural, Clone, Copy)]
pub enum Solution {
    /// No completion exists.
    Impossible,
    /// Exactly one completion was found.
    Unique,
    /// This many completions were found, at least two.
    Ambiguous(usize),
}

impl Solution {
    /// An `Ambiguous` outcome stands for two completions or more.
    pub open spec fn wf(self) -> bool {
        self matches Solution::Ambiguous(n) ==> n >= 2
    }

    /// The number of completions that the outcome stands for.
    pub open spec fn count(self) -> nat {
        match self {
            Solution::Impossible => 0,
            Solution::Unique => 1,
            Solution::Ambiguous(n) => n as nat,
        }
    }

    /// The outcome that stands for `n` completions.
    pub open spec fn of_count(n: nat) -> Solution {
        if n == 0 {
            Solution::Impossible
        } else if n == 1 {
            Solution::Unique
        } else {
            Solution::Ambiguous(n as usize)
        }
    }

    /// The outcome of two searches over disjoint sets of completions,
    /// taken together.
    pub open spec fn spec_union(self, other: Solution) -> Solution {
        Self::of_count(self.count() + other.count())
    }

    /// The outcome that stands for `n` completions.
    pub fn from_count(n: usize) -> (r: Self)
        ensures
            r == Self::of_count(n as nat),
            r.wf(),
            r.count() == n,
    {
        if n == 0 {
            Solution::Impossible
        } else if n == 1 {
            Solution::Unique
        } else {
            Solution::Ambiguous(n)
        }
    }

    /// The number of completions that the outcome stands for.
    pub fn solutions(&self) -> (r: usize)
        ensures
            r == self.count(),
    {
        match self {
            Solution::Impossible => 0,
            Solution::Unique => 1,
            Solution::Ambiguous(n) => *n,
        }
    }

    /// Adds up two outcomes: `Impossible` changes nothing, two `Unique`
    /// make `Ambiguous(2)`, and counts add.
    pub fn union(self, other: Solution) -> (r: Solution)
        requires
            self.wf(),
            other.wf(),
            self.count() + other.count() <= usize::MAX,
        ensures
            r == self.spec_union(other),
            r.wf(),
            r.count() == self.count() + other.count(),
    {
        match (self, other) {
            (Solution::Impossible, x) => x,
            (x, Solution::Impossible) => x,
            (Solution::Unique, Solution::Unique) => Solution::Ambiguous(2),
            (Solution::Unique, Solution::Ambiguous(k)) => Solution::Ambiguous(k + 1),
            (Solution::Ambiguous(j), Solution::Unique) => Solution::Ambiguous(j + 1),
            (Solution::Ambiguous(j), Solution::Ambiguous(k)) => Solution::Ambiguous(j + k),
        }
    }

    /// `Impossible` is neutral on either side.
    pub proof fn lemma_union_impossible(x: Solution)
        requires
            x.wf(),
        ensures
            Solution::Impossible.spec_union(x) == x,
            x.spec_union(Solution::Impossible) == x,
    {
    }

    /// Two single completions make two.
    pub proof fn lemma_union_unique()
        ensures
            Solution::Unique.spec_union(Solution::Unique) == Solution::Ambiguous(2),
    {
    }

    /// The order of the two outcomes does not matter.
    pub proof fn lemma_union_commutative(x: Solution, y: Solution)
        ensures
            x.spec_union(y) == y.spec_union(x),
    {
    }

    /// Three outcomes add up to the same whichever two are joined first,
    /// as long as the sum fits the machine word.
    pub proof fn lemma_union_associative(x: Solution, y: Solution, z: Solution)
        requires
            x.wf(),
            y.wf(),
            z.wf(),
            x.count() + y.count() + z.count() <= usize::MAX,
        ensures
            x.spec_union(y).spec_union(z) == x.spec_union(y.spec_union(z)),
            x.spec_union(y).spec_union(z).count() == x.count() + y.count() + z.count(),
    {
    }

    /// On counts, joining is adding.
    pub proof fn lemma_union_ambiguous(j: usize, k: usize)
        requires
            j >= 2,
            k >= 2,
            j + k <= usize::MAX,
        ensures
            Solution::Ambiguous(j).spec_union(Solution::Ambiguous(k)) == Solution::Ambiguous(
                (j + k) as usize,
            ),
            Solution::Unique.spec_union(Solution::Ambiguous(k)) == Solution::of_count(
                (k + 1) as nat,
            ),
    {
    }
}

} // verus!
