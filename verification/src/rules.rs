//! The mathematical model of a board and the rules of the game.
//!
//! A grid is a sequence of 81 numbers in row-major order; `0` stands for an
//! empty cell. Everything here is specification or proof.

use vstd::prelude::*;

use crate::candidates::is_digit;

verus! {

/// `i` is the flat index of a cell.
pub open spec fn in_grid(i: int) -> bool {
    0 <= i < 81
}

/// The row of cell `i`.
pub open spec fn row_of(i: int) -> int {
    i / 9
}

/// The column of cell `i`.
pub open spec fn col_of(i: int) -> int {
    i % 9
}

/// The boxes are numbered in row-major order.
pub open spec fn box_of(i: int) -> int {
    (i / 27) * 3 + (i % 9) / 3
}

/// The place of cell `i` inside its box, in row-major order.
pub open spec fn box_pos(i: int) -> int {
    ((i / 9) % 3) * 3 + i % 3
}

/// The `k`-th cell of row `r`, from the left.
pub open spec fn row_cell(r: int, k: int) -> int {
    r * 9 + k
}

/// The `k`-th cell of column `c`, from the top.
pub open spec fn col_cell(c: int, k: int) -> int {
    k * 9 + c
}

/// The `k`-th cell of box `b`, in row-major order inside the box.
pub open spec fn box_cell(b: int, k: int) -> int {
    (b / 3) * 27 + (b % 3) * 3 + (k / 3) * 9 + k % 3
}

/// The two cells share a row, a column or a box. A cell shares all three
/// with itself.
pub open spec fn same_house(i: int, j: int) -> bool {
    row_of(i) == row_of(j) || col_of(i) == col_of(j) || box_of(i) == box_of(j)
}

/// 81 cells, each empty or holding a digit.
pub open spec fn is_grid(g: Seq<u8>) -> bool {
    &&& g.len() == 81
    &&& forall|i: int| in_grid(i) ==> #[trigger] g[i] <= 9
}

/// No two cells of one house hold the same digit.
pub open spec fn grid_valid(g: Seq<u8>) -> bool {
    forall|i: int, j: int|
        #![trigger g[i], g[j]]
        in_grid(i) && in_grid(j) && i != j && same_house(i, j) && g[i] != 0 ==> g[i] != g[j]
}

/// No cell is empty.
pub open spec fn grid_filled(g: Seq<u8>) -> bool {
    forall|i: int| in_grid(i) ==> #[trigger] g[i] != 0
}

/// Every cell is empty.
pub open spec fn grid_empty(g: Seq<u8>) -> bool {
    forall|i: int| in_grid(i) ==> #[trigger] g[i] == 0
}

/// How many of the first `n` cells hold a digit.
pub open spec fn filled_upto(g: Seq<u8>, n: int) -> int
    decreases n,
{
    if n <= 0 {
        0
    } else {
        filled_upto(g, n - 1) + if g[n - 1] != 0 {
            1int
        } else {
            0int
        }
    }
}

/// How many cells hold a digit.
pub open spec fn filled_count(g: Seq<u8>) -> int {
    filled_upto(g, 81)
}

/// Digit `d` occurs nowhere in the row, the column or the box of cell `i`.
pub open spec fn allowed(g: Seq<u8>, i: int, d: u8) -> bool {
    &&& is_digit(d)
    &&& forall|j: int| in_grid(j) && same_house(i, j) ==> #[trigger] g[j] != d
}

/// The digits that may still go into cell `i`.
pub open spec fn allowed_set(g: Seq<u8>, i: int) -> Set<u8> {
    Set::new(|d: u8| allowed(g, i, d))
}

/// `s` keeps every digit that `g` holds.
pub open spec fn extends(s: Seq<u8>, g: Seq<u8>) -> bool {
    forall|i: int| in_grid(i) && g[i] != 0 ==> #[trigger] s[i] == g[i]
}

/// `s` is a full, rule-abiding grid that keeps every digit of `g`.
pub open spec fn is_completion(s: Seq<u8>, g: Seq<u8>) -> bool {
    &&& is_grid(s)
    &&& grid_filled(s)
    &&& grid_valid(s)
    &&& extends(s, g)
}

/// No completion of `g` holds digit `d` in cell `c`.
pub open spec fn excluded(g: Seq<u8>, c: int, d: u8) -> bool {
    forall|s: Seq<u8>| #[trigger] is_completion(s, g) ==> s[c] != d
}

/// All completions of `g`.
pub open spec fn completions(g: Seq<u8>) -> Set<Seq<u8>> {
    Set::new(|s: Seq<u8>| is_completion(s, g))
}

/// The completions of `g` whose cell `c` holds a digit smaller than `k`.
pub open spec fn completions_below(g: Seq<u8>, c: int, k: int) -> Set<Seq<u8>> {
    Set::new(|s: Seq<u8>| is_completion(s, g) && s[c] < k)
}

/// `n`, but no more than `limit`.
pub open spec fn capped(n: nat, limit: nat) -> nat {
    if n <= limit {
        n
    } else {
        limit
    }
}

/// `g` has exactly one completion.
pub open spec fn has_unique_completion(g: Seq<u8>) -> bool {
    completions(g).finite() && completions(g).len() == 1
}

/// The cells of a row lie on the board, in that row, at that column.
pub proof fn lemma_row_cells(h: int, k: int)
    requires
        0 <= h < 9,
        0 <= k < 9,
    ensures
        in_grid(row_cell(h, k)),
        row_of(row_cell(h, k)) == h,
        col_of(row_cell(h, k)) == k,
{
}

/// The cells of a column lie on the board, in that column, at that row.
pub proof fn lemma_col_cells(h: int, k: int)
    requires
        0 <= h < 9,
        0 <= k < 9,
    ensures
        in_grid(col_cell(h, k)),
        col_of(col_cell(h, k)) == h,
        row_of(col_cell(h, k)) == k,
{
}

/// The cells of a box lie on the board, in that box, at that place.
pub proof fn lemma_box_cells(h: int, k: int)
    requires
        0 <= h < 9,
        0 <= k < 9,
    ensures
        in_grid(box_cell(h, k)),
        box_of(box_cell(h, k)) == h,
        box_pos(box_cell(h, k)) == k,
        row_of(box_cell(h, k)) == (h / 3) * 3 + k / 3,
        col_of(box_cell(h, k)) == (h % 3) * 3 + k % 3,
{
    let br = h / 3;
    let bc = h % 3;
    let kr = k / 3;
    let kc = k % 3;
    let j = box_cell(h, k);
    assert(j == 9 * (br * 3 + kr) + (bc * 3 + kc));
    assert(0 <= bc * 3 + kc < 9);
    assert(j / 9 == br * 3 + kr);
    assert(j % 9 == bc * 3 + kc);
    assert(j == 27 * br + (kr * 9 + bc * 3 + kc));
    assert(0 <= kr * 9 + bc * 3 + kc < 27);
    assert(j / 27 == br);
    assert((j % 9) / 3 == bc);
    assert((j / 9) % 3 == kr);
    assert(j == 3 * (br * 9 + kr * 3 + bc) + kc);
    assert(j % 3 == kc);
}

/// Every cell is the cell of its row at its column, of its column at its
/// row, and of its box at its place in the box.
pub proof fn lemma_cell_houses(i: int)
    requires
        in_grid(i),
    ensures
        0 <= row_of(i) < 9,
        0 <= col_of(i) < 9,
        0 <= box_of(i) < 9,
        0 <= box_pos(i) < 9,
        row_cell(row_of(i), col_of(i)) == i,
        col_cell(col_of(i), row_of(i)) == i,
        box_cell(box_of(i), box_pos(i)) == i,
{
    let r = i / 9;
    let c = i % 9;
    assert(i == 9 * r + c);
    assert(i / 27 == r / 3);
    assert(i % 3 == c % 3);
    let b = box_of(i);
    let p = box_pos(i);
    assert(b == (r / 3) * 3 + c / 3);
    assert(p == (r % 3) * 3 + c % 3);
    assert(b / 3 == r / 3);
    assert(b % 3 == c / 3);
    assert(p / 3 == r % 3);
    assert(p % 3 == c % 3);
}


/// Among `n` cells, between none and `n` hold a digit.
pub proof fn lemma_filled_upto_bounds(g: Seq<u8>, n: int)
    requires
        0 <= n,
    ensures
        0 <= filled_upto(g, n) <= n,
    decreases n,
{
    if n > 0 {
        lemma_filled_upto_bounds(g, n - 1);
    }
}

/// The count reaches `n` exactly when none of the first `n` cells is
/// empty, and stays at `0` exactly when all of them are.
pub proof fn lemma_filled_upto_extremes(g: Seq<u8>, n: int)
    requires
        0 <= n,
    ensures
        filled_upto(g, n) == n <==> forall|i: int| 0 <= i < n ==> #[trigger] g[i] != 0,
        filled_upto(g, n) == 0 <==> forall|i: int| 0 <= i < n ==> #[trigger] g[i] == 0,
    decreases n,
{
    if n > 0 {
        lemma_filled_upto_extremes(g, n - 1);
        lemma_filled_upto_bounds(g, n - 1);
        if filled_upto(g, n) == n {
            assert forall|i: int| 0 <= i < n implies #[trigger] g[i] != 0 by {
                if i == n - 1 {
                }
            }
        }
        if filled_upto(g, n) == 0 {
            assert forall|i: int| 0 <= i < n implies #[trigger] g[i] == 0 by {
                if i == n - 1 {
                }
            }
        }
        if forall|i: int| 0 <= i < n ==> #[trigger] g[i] != 0 {
            assert(g[n - 1] != 0);
        }
        if forall|i: int| 0 <= i < n ==> #[trigger] g[i] == 0 {
            assert(g[n - 1] == 0);
        }
    }
}

/// A grid holds between 0 and 81 digits: 81 exactly when it is full,
/// none exactly when it is empty.
pub proof fn lemma_filled_count(g: Seq<u8>)
    ensures
        0 <= filled_count(g) <= 81,
        filled_count(g) == 81 <==> grid_filled(g),
        filled_count(g) == 0 <==> grid_empty(g),
{
    lemma_filled_upto_bounds(g, 81);
    lemma_filled_upto_extremes(g, 81);
}

/// Writing one cell changes the count by what that cell gains or loses.
pub proof fn lemma_filled_upto_update(g: Seq<u8>, c: int, d: u8, n: int)
    requires
        g.len() == 81,
        in_grid(c),
        0 <= n <= 81,
    ensures
        filled_upto(g.update(c, d), n) == filled_upto(g, n) + if c < n {
            (if d != 0 {
                1int
            } else {
                0int
            }) - (if g[c] != 0 {
                1int
            } else {
                0int
            })
        } else {
            0int
        },
    decreases n,
{
    if n > 0 {
        lemma_filled_upto_update(g, c, d, n - 1);
    }
}

/// Writing one cell changes the number of digits by what that cell
/// gains or loses.
pub proof fn lemma_filled_count_update(g: Seq<u8>, c: int, d: u8)
    requires
        g.len() == 81,
        in_grid(c),
    ensures
        filled_count(g.update(c, d)) == filled_count(g) + (if d != 0 {
            1int
        } else {
            0int
        }) - (if g[c] != 0 {
            1int
        } else {
            0int
        }),
{
    lemma_filled_upto_update(g, c, d, 81);
}

/// A grid that has a completion keeps the rules.
pub proof fn lemma_completion_needs_valid(s: Seq<u8>, g: Seq<u8>)
    requires
        is_completion(s, g),
    ensures
        grid_valid(g),
{
    assert forall|i: int, j: int|
        #![trigger g[i], g[j]]
        in_grid(i) && in_grid(j) && i != j && same_house(i, j) && g[i] != 0 implies g[i]
        != g[j] by {
        if g[i] == g[j] {
            assert(s[i] == g[i]);
            assert(s[j] == g[j]);
        }
    }
}

/// A full grid that keeps the rules is its own and only completion.
pub proof fn lemma_completions_of_filled(g: Seq<u8>)
    requires
        is_grid(g),
        grid_filled(g),
    ensures
        grid_valid(g) ==> completions(g) == set![g],
        !grid_valid(g) ==> completions(g) == Set::<Seq<u8>>::empty(),
        completions(g).finite(),
        completions(g).len() == if grid_valid(g) {
            1nat
        } else {
            0nat
        },
{
    if grid_valid(g) {
        assert forall|s: Seq<u8>| is_completion(s, g) implies s == g by {
            assert forall|i: int| 0 <= i < 81 implies s[i] == g[i] by {
                assert(g[i] != 0);
            }
            assert(s =~= g);
        }
        assert(is_completion(g, g));
        assert(completions(g) =~= set![g]);
    } else {
        assert forall|s: Seq<u8>| !is_completion(s, g) by {
            if is_completion(s, g) {
                lemma_completion_needs_valid(s, g);
            }
        }
        assert(completions(g) =~= Set::<Seq<u8>>::empty());
    }
}

/// Placing an allowed digit into an empty cell keeps the rules.
pub proof fn lemma_place_keeps_valid(g: Seq<u8>, c: int, d: u8)
    requires
        g.len() == 81,
        grid_valid(g),
        in_grid(c),
        g[c] == 0,
        allowed(g, c, d),
    ensures
        grid_valid(g.update(c, d)),
{
    let h = g.update(c, d);
    assert forall|i: int, j: int|
        #![trigger h[i], h[j]]
        in_grid(i) && in_grid(j) && i != j && same_house(i, j) && h[i] != 0 implies h[i]
        != h[j] by {
        if i == c {
            assert(g[j] != d);
        } else if j == c {
            assert(g[i] != d);
        } else {
            assert(g[i] != g[j]);
        }
    }
}

/// What a placed digit does to the allowed digits of every cell: it
/// leaves the cells that share a house with `c`, and no others.
pub proof fn lemma_allowed_after_place(g: Seq<u8>, c: int, d: u8, i: int)
    requires
        g.len() == 81,
        in_grid(c),
        in_grid(i),
        g[c] == 0,
        is_digit(d),
    ensures
        allowed_set(g.update(c, d), i) == if same_house(i, c) {
            allowed_set(g, i).remove(d)
        } else {
            allowed_set(g, i)
        },
{
    let h = g.update(c, d);
    let expected = if same_house(i, c) {
        allowed_set(g, i).remove(d)
    } else {
        allowed_set(g, i)
    };
    assert forall|e: u8| allowed_set(h, i).contains(e) == expected.contains(e) by {
        if is_digit(e) {
            if allowed(h, i, e) {
                assert forall|j: int| in_grid(j) && same_house(i, j) implies #[trigger] g[j]
                    != e by {
                    if j != c {
                        assert(h[j] != e);
                    }
                }
                if same_house(i, c) {
                    assert(h[c] != e);
                }
            }
            if expected.contains(e) {
                assert(allowed(g, i, e));
                assert forall|j: int| in_grid(j) && same_house(i, j) implies #[trigger] h[j]
                    != e by {
                    if j != c {
                        assert(g[j] != e);
                    }
                }
            }
        }
    }
    assert(allowed_set(h, i) =~= expected);
}

/// The completions of a grid with an empty cell `c` are, digit by digit,
/// the completions of the grid with that digit in `c`.
pub proof fn lemma_completion_split(s: Seq<u8>, g: Seq<u8>, c: int, d: u8)
    requires
        is_grid(g),
        in_grid(c),
        g[c] == 0,
        is_digit(d),
    ensures
        is_completion(s, g.update(c, d)) <==> is_completion(s, g) && s[c] == d,
        is_completion(s, g) && s[c] == d ==> allowed(g, c, d),
{
    let h = g.update(c, d);
    if is_completion(s, h) {
        assert(h[c] == d);
        assert(s[c] == h[c]);
        assert forall|i: int| in_grid(i) && g[i] != 0 implies #[trigger] s[i] == g[i] by {
            assert(h[i] == g[i]);
            assert(s[i] == h[i]);
        }
    }
    if is_completion(s, g) && s[c] == d {
        assert forall|i: int| in_grid(i) && h[i] != 0 implies #[trigger] s[i] == h[i] by {
            if i != c {
                assert(s[i] == g[i]);
            }
        }
        assert forall|j: int| in_grid(j) && same_house(c, j) implies #[trigger] g[j] != d by {
            if g[j] == d {
                assert(s[j] == g[j]);
                assert(s[c] != 0);
                assert(s[c] != s[j]);
            }
        }
    }
}

/// A completion holds a digit in every cell.
pub proof fn lemma_completion_digit(s: Seq<u8>, g: Seq<u8>, c: int)
    requires
        is_completion(s, g),
        in_grid(c),
    ensures
        is_digit(s[c]),
{
    assert(s[c] != 0);
    assert(s[c] <= 9);
}

/// No completion holds a digit below 1 in a cell, and every completion
/// holds one below 10.
pub proof fn lemma_completions_below_ends(g: Seq<u8>, c: int)
    requires
        in_grid(c),
    ensures
        completions_below(g, c, 1) == Set::<Seq<u8>>::empty(),
        completions_below(g, c, 10) == completions(g),
{
    assert forall|s: Seq<u8>| is_completion(s, g) implies 1 <= s[c] < 10 by {
        lemma_completion_digit(s, g, c);
    }
    assert(completions_below(g, c, 1) =~= Set::<Seq<u8>>::empty());
    assert(completions_below(g, c, 10) =~= completions(g));
}

/// One more digit for cell `c` adds the completions of the grid with that
/// digit placed, and those are new. A digit that is not allowed adds none.
pub proof fn lemma_completions_below_step(g: Seq<u8>, c: int, d: u8)
    requires
        is_grid(g),
        in_grid(c),
        g[c] == 0,
        is_digit(d),
    ensures
        completions_below(g, c, d + 1) == completions_below(g, c, d as int).union(
            completions(g.update(c, d)),
        ),
        completions_below(g, c, d as int).disjoint(completions(g.update(c, d))),
        !allowed(g, c, d) ==> completions(g.update(c, d)) == Set::<Seq<u8>>::empty(),
{
    let lower = completions_below(g, c, d as int);
    let placed = completions(g.update(c, d));
    assert forall|s: Seq<u8>|
        completions_below(g, c, d + 1).contains(s) == lower.union(placed).contains(s) by {
        lemma_completion_split(s, g, c, d);
    }
    assert(completions_below(g, c, d + 1) =~= lower.union(placed));
    assert forall|s: Seq<u8>| !(lower.contains(s) && placed.contains(s)) by {
        lemma_completion_split(s, g, c, d);
    }
    if !allowed(g, c, d) {
        assert forall|s: Seq<u8>| !placed.contains(s) by {
            lemma_completion_split(s, g, c, d);
        }
        assert(placed =~= Set::<Seq<u8>>::empty());
    }
}

/// A grid has finitely many completions.
pub proof fn lemma_completions_finite(g: Seq<u8>)
    requires
        is_grid(g),
    ensures
        completions(g).finite(),
    decreases 81 - filled_count(g), 11int,
{
    lemma_filled_count(g);
    if grid_filled(g) {
        lemma_completions_of_filled(g);
    } else {
        let c = choose|c: int| in_grid(c) && g[c] == 0;
        lemma_completions_below_finite(g, c, 10);
        lemma_completions_below_ends(g, c);
    }
}

/// Finitely many completions hold a digit below `k` in the empty cell `c`.
pub proof fn lemma_completions_below_finite(g: Seq<u8>, c: int, k: int)
    requires
        is_grid(g),
        in_grid(c),
        g[c] == 0,
        1 <= k <= 10,
    ensures
        completions_below(g, c, k).finite(),
    decreases 81 - filled_count(g), k,
{
    if k == 1 {
        lemma_completions_below_ends(g, c);
    } else {
        let d = (k - 1) as u8;
        lemma_completions_below_finite(g, c, k - 1);
        lemma_filled_count_update(g, c, d);
        lemma_filled_count(g.update(c, d));
        lemma_completions_finite(g.update(c, d));
        lemma_completions_below_step(g, c, d);
    }
}

/// A row, a column or a box, by its number.
pub enum House {
    Row(int),
    Col(int),
    Square(int),
}

impl House {
    /// The number of the house among the nine of its kind.
    pub open spec fn number(self) -> int {
        match self {
            House::Row(h) => h,
            House::Col(h) => h,
            House::Square(h) => h,
        }
    }

    /// The house of the same kind with number `h`.
    pub open spec fn renumbered(self, h: int) -> House {
        match self {
            House::Row(_) => House::Row(h),
            House::Col(_) => House::Col(h),
            House::Square(_) => House::Square(h),
        }
    }

    /// The house is one of the 27 on the board.
    pub open spec fn wf(self) -> bool {
        0 <= self.number() < 9
    }

    /// The `k`-th cell of the house.
    pub open spec fn cell(self, k: int) -> int {
        match self {
            House::Row(h) => row_cell(h, k),
            House::Col(h) => col_cell(h, k),
            House::Square(h) => box_cell(h, k),
        }
    }

    /// Cell `i` lies in the house.
    pub open spec fn holds(self, i: int) -> bool {
        match self {
            House::Row(h) => row_of(i) == h,
            House::Col(h) => col_of(i) == h,
            House::Square(h) => box_of(i) == h,
        }
    }

    /// The place of cell `i` in a house of this kind.
    pub open spec fn place(self, i: int) -> int {
        match self {
            House::Row(_) => col_of(i),
            House::Col(_) => row_of(i),
            House::Square(_) => box_pos(i),
        }
    }

    /// No digit occurs twice in the house.
    pub open spec fn distinct(self, g: Seq<u8>) -> bool {
        forall|p: int, q: int|
            #![trigger g[self.cell(p)], g[self.cell(q)]]
            0 <= p < 9 && 0 <= q < 9 && p != q && g[self.cell(p)] != 0 ==> g[self.cell(p)]
                != g[self.cell(q)]
    }

    /// Digit `d` does not occur in the house.
    pub open spec fn free_of(self, g: Seq<u8>, d: u8) -> bool {
        forall|k: int| 0 <= k < 9 ==> #[trigger] g[self.cell(k)] != d
    }

    /// Digit `d` occurs exactly once in the house.
    pub open spec fn holds_once(self, g: Seq<u8>, d: u8) -> bool {
        exists|k: int|
            0 <= k < 9 && #[trigger] g[self.cell(k)] == d && forall|m: int|
                0 <= m < 9 && m != k ==> #[trigger] g[self.cell(m)] != d
    }
}

/// The `k`-th cell of a house lies on the board, in that house, at place
/// `k`.
pub proof fn lemma_house_cell(house: House, k: int)
    requires
        house.wf(),
        0 <= k < 9,
    ensures
        in_grid(house.cell(k)),
        house.holds(house.cell(k)),
        house.place(house.cell(k)) == k,
{
    match house {
        House::Row(h) => lemma_row_cells(h, k),
        House::Col(h) => lemma_col_cells(h, k),
        House::Square(h) => lemma_box_cells(h, k),
    }
}

/// A cell that lies in a house is the cell of that house at its place.
pub proof fn lemma_cell_in_house(house: House, i: int)
    requires
        in_grid(i),
        house.holds(i),
    ensures
        house.wf(),
        0 <= house.place(i) < 9,
        house.cell(house.place(i)) == i,
{
    lemma_cell_houses(i);
}

/// Two cells of one house share that house, and differ where their places
/// differ.
pub proof fn lemma_house_shared(house: House, p: int, q: int)
    requires
        house.wf(),
        0 <= p < 9,
        0 <= q < 9,
    ensures
        in_grid(house.cell(p)),
        in_grid(house.cell(q)),
        same_house(house.cell(p), house.cell(q)),
        p != q ==> house.cell(p) != house.cell(q),
{
    lemma_house_cell(house, p);
    lemma_house_cell(house, q);
}

/// A grid keeps the rules exactly when each of its 27 houses does.
pub proof fn lemma_valid_by_houses(g: Seq<u8>)
    ensures
        grid_valid(g) <==> forall|house: House| house.wf() ==> #[trigger] house.distinct(g),
{
    if grid_valid(g) {
        assert forall|house: House| house.wf() implies #[trigger] house.distinct(g) by {
            assert forall|p: int, q: int|
                #![trigger g[house.cell(p)], g[house.cell(q)]]
                0 <= p < 9 && 0 <= q < 9 && p != q && g[house.cell(p)] != 0 implies g[house.cell(
                p,
            )] != g[house.cell(q)] by {
                lemma_house_shared(house, p, q);
            }
        }
    }
    if forall|house: House| house.wf() ==> #[trigger] house.distinct(g) {
        assert forall|i: int, j: int|
            #![trigger g[i], g[j]]
            in_grid(i) && in_grid(j) && i != j && same_house(i, j) && g[i] != 0 implies g[i]
            != g[j] by {
            let house = if row_of(i) == row_of(j) {
                House::Row(row_of(i))
            } else if col_of(i) == col_of(j) {
                House::Col(col_of(i))
            } else {
                House::Square(box_of(i))
            };
            lemma_cell_in_house(house, i);
            lemma_cell_in_house(house, j);
            assert(house.distinct(g));
            assert(g[house.cell(house.place(i))] != g[house.cell(house.place(j))]);
        }
    }
}

/// A digit that is allowed in a cell occurs in no house that holds the
/// cell.
pub proof fn lemma_allowed_is_free(g: Seq<u8>, i: int, d: u8, house: House)
    requires
        in_grid(i),
        house.holds(i),
        allowed(g, i, d),
    ensures
        house.free_of(g, d),
{
    lemma_cell_in_house(house, i);
    assert forall|k: int| 0 <= k < 9 implies #[trigger] g[house.cell(k)] != d by {
        lemma_house_shared(house, house.place(i), k);
    }
}

/// A digit is allowed in a cell exactly when it occurs in none of the
/// three houses of that cell.
pub proof fn lemma_allowed_by_houses(g: Seq<u8>, i: int, d: u8)
    requires
        in_grid(i),
        is_digit(d),
    ensures
        allowed(g, i, d) <==> House::Row(row_of(i)).free_of(g, d) && House::Col(col_of(i)).free_of(
            g,
            d,
        ) && House::Square(box_of(i)).free_of(g, d),
{
    if allowed(g, i, d) {
        lemma_allowed_is_free(g, i, d, House::Row(row_of(i)));
        lemma_allowed_is_free(g, i, d, House::Col(col_of(i)));
        lemma_allowed_is_free(g, i, d, House::Square(box_of(i)));
    }
    if House::Row(row_of(i)).free_of(g, d) && House::Col(col_of(i)).free_of(g, d) && House::Square(
        box_of(i),
    ).free_of(g, d) {
        assert forall|j: int| in_grid(j) && same_house(i, j) implies #[trigger] g[j] != d by {
            let house = if row_of(i) == row_of(j) {
                House::Row(row_of(i))
            } else if col_of(i) == col_of(j) {
                House::Col(col_of(i))
            } else {
                House::Square(box_of(i))
            };
            lemma_cell_in_house(house, j);
            assert(g[house.cell(house.place(j))] != d);
        }
    }
}

/// Counting up to a limit, digit by digit: what was counted below `d`,
/// joined with what the grid with `d` placed adds within the rest of the
/// limit, is what is counted below `d + 1`.
pub proof fn lemma_capped_step(g: Seq<u8>, c: int, d: u8, limit: nat, found: nat, more: nat)
    requires
        is_grid(g),
        in_grid(c),
        g[c] == 0,
        is_digit(d),
        found == capped(completions_below(g, c, d as int).len(), limit),
        more == if allowed(g, c, d) {
            capped(completions(g.update(c, d)).len(), (limit - found) as nat)
        } else {
            0
        },
    ensures
        found + more == capped(completions_below(g, c, d + 1).len(), limit),
{
    lemma_completions_below_finite(g, c, d as int);
    lemma_completions_below_step(g, c, d);
    lemma_filled_count_update(g, c, d);
    lemma_completions_finite(g.update(c, d));
    vstd::set_lib::lemma_set_disjoint_lens(
        completions_below(g, c, d as int),
        completions(g.update(c, d)),
    );
}

/// Once the limit is reached below some digit, the whole count is at the
/// limit.
pub proof fn lemma_capped_full(g: Seq<u8>, c: int, k: int, limit: nat)
    requires
        is_grid(g),
        in_grid(c),
        g[c] == 0,
        1 <= k <= 10,
        capped(completions_below(g, c, k).len(), limit) == limit,
    ensures
        capped(completions(g).len(), limit) == limit,
{
    lemma_completions_finite(g);
    assert(completions_below(g, c, k).subset_of(completions(g)));
    vstd::set_lib::lemma_len_subset(completions_below(g, c, k), completions(g));
}

/// A grid with a unique completion keeps the rules.
pub proof fn lemma_unique_needs_valid(g: Seq<u8>)
    requires
        has_unique_completion(g),
    ensures
        grid_valid(g),
{
    let s = completions(g).choose();
    assert(completions(g).len() != 0);
    assert(completions(g).contains(s));
    lemma_completion_needs_valid(s, g);
}

/// A grid with exactly one completion: every completion is that one.
pub proof fn lemma_unique_completion(g: Seq<u8>, s: Seq<u8>, t: Seq<u8>)
    requires
        has_unique_completion(g),
        is_completion(s, g),
        is_completion(t, g),
    ensures
        s == t,
        completions(g) == set![s],
{
    Set::lemma_is_singleton(completions(g));
    assert(completions(g).contains(s));
    assert(completions(g).contains(t));
    assert(completions(g) =~= set![s]);
}

/// Every row, every column and every box holds each of the nine digits
/// exactly once.
pub open spec fn houses_complete(g: Seq<u8>) -> bool {
    forall|house: House, d: u8| house.wf() && is_digit(d) ==> #[trigger] house.holds_once(g, d)
}

/// Nine different digits are all the digits: each occurs among them.
proof fn lemma_nine_digits(values: Seq<u8>, d: u8)
    requires
        values.len() == 9,
        forall|k: int| 0 <= k < 9 ==> is_digit(#[trigger] values[k]),
        values.no_duplicates(),
        is_digit(d),
    ensures
        exists|k: int| 0 <= k < 9 && #[trigger] values[k] == d,
{
    let found = values.to_set();
    let digits = Set::new(|x: u8| is_digit(x));
    values.unique_seq_to_set();
    vstd::seq_lib::seq_to_set_is_finite(values);
    assert(digits =~= set![1u8, 2u8, 3u8, 4u8, 5u8, 6u8, 7u8, 8u8, 9u8]);
    assert(digits.finite());
    assert(digits.len() == 9);
    assert forall|x: u8| found.contains(x) implies digits.contains(x) by {
        let k = choose|k: int| 0 <= k < values.len() && values[k] == x;
        assert(is_digit(values[k]));
    }
    assert(found.subset_of(digits));
    vstd::set_lib::lemma_set_subset_finite(digits, found);
    vstd::set_lib::lemma_subset_equality(found, digits);
    assert(found.contains(d));
}

/// On a full grid that keeps the rules, every house holds each digit
/// exactly once.
pub proof fn lemma_full_houses(g: Seq<u8>)
    requires
        is_grid(g),
        grid_filled(g),
        grid_valid(g),
    ensures
        houses_complete(g),
{
    lemma_valid_by_houses(g);
    assert forall|house: House, d: u8| house.wf() && is_digit(d) implies #[trigger] house.holds_once(
        g,
        d,
    ) by {
        let values = Seq::new(9, |k: int| g[house.cell(k)]);
        assert forall|k: int| 0 <= k < 9 implies is_digit(#[trigger] values[k]) by {
            lemma_house_cell(house, k);
            assert(g[house.cell(k)] != 0);
            assert(g[house.cell(k)] <= 9);
        }
        assert(house.distinct(g));
        assert forall|p: int, q: int| 0 <= p < 9 && 0 <= q < 9 && p != q implies values[p]
            != values[q] by {
            assert(is_digit(values[p]));
            assert(g[house.cell(p)] != g[house.cell(q)]);
        }
        lemma_nine_digits(values, d);
        let k = choose|k: int| 0 <= k < 9 && #[trigger] values[k] == d;
        assert(g[house.cell(k)] == d);
        assert forall|m: int| 0 <= m < 9 && m != k implies #[trigger] g[house.cell(m)] != d by {
            assert(values[m] != values[k]);
        }
    }
}

/// A grid that breaks the rules has no completion.
pub proof fn lemma_invalid_has_no_completion(g: Seq<u8>)
    requires
        !grid_valid(g),
    ensures
        forall|s: Seq<u8>| !is_completion(s, g),
        completions(g) == Set::<Seq<u8>>::empty(),
{
    assert forall|s: Seq<u8>| !is_completion(s, g) by {
        if is_completion(s, g) {
            lemma_completion_needs_valid(s, g);
        }
    }
    assert(completions(g) =~= Set::<Seq<u8>>::empty());
}

} // verus!
