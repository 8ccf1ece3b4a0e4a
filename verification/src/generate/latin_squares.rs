use rand::rngs::ThreadRng;
use vstd::prelude::*;

use crate::candidates::Candidates;
use crate::cell::Cell;
use crate::consts::{ATTEMPT_LIMIT, COARSE_CLUES, GRID_SIZE, HOUSE_SIZE, RETRY_LIMIT, SQUARE_SIZE};
use crate::coord::{Coord, SudokuIndex};
use crate::digit::Digit;
use crate::error::{SudokuError, SudokuResult};
use crate::generate::{carved_from, is_puzzle, Generate, SudokuConfig};
use crate::random::{shuffle, thread_rng};
use crate::rules::{
    box_cell, box_of, box_pos, extends, filled_count, grid_filled, grid_valid,
    has_unique_completion, houses_complete, in_grid, is_grid, lemma_box_cells, lemma_cell_houses,
    lemma_filled_count_update, lemma_full_houses, lemma_unique_needs_valid, same_house,
};
use crate::solve::same_marks;
use crate::sudoku::Sudoku;

verus! {

/// Three rows of three symbols out of `0`, `1`, `2`.
#[derive(Debug, PartialEq, Eq, Clone, Copy)]
pub struct LatinSquare(pub [[u8; SQUARE_SIZE]; SQUARE_SIZE]);

/// The three symbols `0`, `1`, `2`, each once.
pub open spec fn is_symbol_row(row: Seq<u8>) -> bool {
    &&& row.len() == 3
    &&& forall|j: int| 0 <= j < 3 ==> #[trigger] row[j] < 3
    &&& row[0] != row[1]
    &&& row[0] != row[2]
    &&& row[1] != row[2]
}

impl LatinSquare {
    /// The symbol in row `r`, column `c`.
    pub open spec fn at(self, r: int, c: int) -> u8 {
        self.0[r][c]
    }

    /// Every row and every column holds each symbol once.
    pub open spec fn is_latin(self) -> bool {
        &&& forall|r: int, c: int| 0 <= r < 3 && 0 <= c < 3 ==> #[trigger] self.at(r, c) < 3
        &&& forall|r: int, a: int, b: int|
            #![trigger self.at(r, a), self.at(r, b)]
            0 <= r < 3 && 0 <= a < 3 && 0 <= b < 3 && a != b ==> self.at(r, a) != self.at(r, b)
        &&& forall|c: int, a: int, b: int|
            #![trigger self.at(a, c), self.at(b, c)]
            0 <= c < 3 && 0 <= a < 3 && 0 <= b < 3 && a != b ==> self.at(a, c) != self.at(b, c)
    }

    fn is_row(row: &Vec<u8>) -> (r: bool)
        ensures
            r == is_symbol_row(row@),
    {
        row.len() == 3 && row[0] < 3 && row[1] < 3 && row[2] < 3 && row[0] != row[1] && row[0]
            != row[2] && row[1] != row[2]
    }

    /// The square whose first two rows are given; its last row holds in
    /// each column the symbol that the two above leave. `None` where a
    /// given row is not the three symbols, or where the two rows hold the
    /// same symbol in some column.
    pub fn from_rows(first: &Vec<u8>, second: &Vec<u8>) -> (r: Option<LatinSquare>)
        ensures
            r is Some <==> is_symbol_row(first@) && is_symbol_row(second@) && forall|j: int|
                0 <= j < 3 ==> #[trigger] first@[j] != second@[j],
            r matches Some(square) ==> {
                &&& square.is_latin()
                &&& forall|j: int|
                    0 <= j < 3 ==> square.at(0, j) == #[trigger] first@[j] && square.at(1, j)
                        == second@[j] && square.at(2, j) == 3 - first@[j] - second@[j]
            },
    {
        if !Self::is_row(first) || !Self::is_row(second) {
            return None;
        }
        let mut square = LatinSquare([[0u8;SQUARE_SIZE];SQUARE_SIZE]);
        let size = SQUARE_SIZE;

        let mut j: usize = 0;
        while j < size
            invariant
                j <= 3,
                size == 3,
                is_symbol_row(first@),
                is_symbol_row(second@),
                forall|c: int|
                    0 <= c < j ==> #[trigger] first@[c] != second@[c] && square.at(0, c)
                        == first@[c] && square.at(1, c) == second@[c] && square.at(2, c) == 3
                        - first@[c] - second@[c],
            decreases 3 - j,
        {
            if first[j] == second[j] {
                return None;
            }
            square.0[0][j] = first[j];
            square.0[1][j] = second[j];

            let mut used = [false;SQUARE_SIZE];
            used[first[j] as usize] = true;
            used[second[j] as usize] = true;

            let ghost a = first@[j as int];
            let ghost b = second@[j as int];
            assert(forall|s: int| 0 <= s < 3 ==> #[trigger] used[s] == (s == a || s == b));
            let mut i: usize = 0;
            while i < size && used[i]
                invariant
                    i <= 3,
                    size == 3,
                    a < 3,
                    b < 3,
                    a != b,
                    forall|s: int| 0 <= s < 3 ==> #[trigger] used[s] == (s == a || s == b),
                    forall|s: int| 0 <= s < i ==> #[trigger] used[s],
                decreases 3 - i,
            {
                i += 1;
            }
            assert(i < 3 && i == 3 - a - b) by {
                assert(used[0] == (0 == a || 0 == b));
                assert(used[1] == (1 == a || 1 == b));
                assert(used[2] == (2 == a || 2 == b));
            }
            square.0[size - 1][j] = i as u8;
            j += 1;
        }
        Some(square)
    }

    /// A random Latin square: a shuffled first row, a second row shuffled
    /// again and again until it meets the first in no column, and the last
    /// row that these two leave. `None` where no such second row came up
    /// within the retry limit.
    pub fn new_random(rng: &mut ThreadRng) -> (r: Option<LatinSquare>)
        ensures
            r matches Some(square) ==> square.is_latin(),
    {
        let mut first: Vec<u8> = vec![0u8, 1u8, 2u8];
        shuffle(&mut first, rng);

        let mut second: Vec<u8> = vec![0u8, 1u8, 2u8];
        let mut tries: usize = 0;
        while tries < RETRY_LIMIT
            invariant
                tries <= RETRY_LIMIT,
            decreases RETRY_LIMIT - tries,
        {
            shuffle(&mut second, rng);
            if let Some(square) = Self::from_rows(&first, &second) {
                return Some(square);
            }
            tries += 1;
        }
        None
    }
}

/// Builds full boards out of ten random Latin squares, and carves
/// puzzles out of full boards.
pub struct LatinSquares;

/// The number that the decimal digits of `num` spell when read in base 3.
pub open spec fn base_3_reading(num: nat) -> nat
    decreases num,
{
    if num == 0 {
        0
    } else {
        num % 10 + 3 * base_3_reading(num / 10)
    }
}

/// The row that the fixed row swaps move to the place of row `r`:
/// rows 1 and 3, 2 and 6, 5 and 7 change places.
pub open spec fn swapped_row(r: int) -> int {
    if r == 1 {
        3
    } else if r == 3 {
        1
    } else if r == 2 {
        6
    } else if r == 6 {
        2
    } else if r == 5 {
        7
    } else if r == 7 {
        5
    } else {
        r
    }
}

/// The cell whose digit the row swaps move to cell `i`.
pub open spec fn swapped(i: int) -> int {
    swapped_row(i / 9) * 9 + i % 9
}

/// The digit that cell `k` of box `b` gets from its Latin square and the
/// selector, before the rows are swapped: the selector's symbol at the
/// box's place and the square's symbol at the cell's place, read as a
/// number in base 3, plus one.
pub open spec fn paired_digit(squares: Seq<LatinSquare>, selector: LatinSquare, b: int, k: int) -> int {
    3 * selector.at(b / 3, b % 3) + squares[b].at(k / 3, k % 3) + 1
}

/// The digit of cell `i` on the composed board.
pub open spec fn composed_digit(squares: Seq<LatinSquare>, selector: LatinSquare, i: int) -> int {
    paired_digit(squares, selector, box_of(swapped(i)), box_pos(swapped(i)))
}

/// Ten Latin squares: one for each box, and the selector.
pub open spec fn are_latin(squares: Seq<LatinSquare>, selector: LatinSquare) -> bool {
    &&& squares.len() == 9
    &&& forall|b: int| 0 <= b < 9 ==> (#[trigger] squares[b]).is_latin()
    &&& selector.is_latin()
}

/// Where the digit of cell `i` comes from: with `r` and `c` the row and
/// column of `i`, the selector's symbol at `(r % 3, c / 3)` and the symbol
/// at `(r / 3, c % 3)` of the square numbered `(r % 3) * 3 + c / 3`.
pub proof fn lemma_composed_digit(squares: Seq<LatinSquare>, selector: LatinSquare, i: int)
    requires
        in_grid(i),
    ensures
        composed_digit(squares, selector, i) == 3 * selector.at((i / 9) % 3, (i % 9) / 3)
            + squares[((i / 9) % 3) * 3 + (i % 9) / 3].at((i / 9) / 3, (i % 9) % 3) + 1,
        in_grid(swapped(i)),
        swapped(swapped(i)) == i,
{
    let r = i / 9;
    let c = i % 9;
    assert(swapped_row(r) == 3 * (r % 3) + r / 3);
    let j = swapped(i);
    assert(j == 9 * (3 * (r % 3) + r / 3) + c);
    assert(j / 9 == 3 * (r % 3) + r / 3);
    assert(j % 9 == c);
    lemma_cell_houses(j);
    assert(j / 27 == r % 3);
    assert((j / 9) % 3 == r / 3);
    assert(j % 3 == c % 3);
    let b = box_of(j);
    let k = box_pos(j);
    assert(b == (r % 3) * 3 + c / 3);
    assert(k == (r / 3) * 3 + c % 3);
    assert(b / 3 == r % 3);
    assert(b % 3 == c / 3);
    assert(k / 3 == r / 3);
    assert(k % 3 == c % 3);
}

/// Two different cells of one house get different digits. A cell is
/// named by four numbers below 3: `a` and `b` with row `3 * a + b`, and
/// `t` and `c` with column `3 * t + c`.
proof fn lemma_pairs_differ(
    squares: Seq<LatinSquare>,
    selector: LatinSquare,
    a1: int,
    b1: int,
    t1: int,
    c1: int,
    a2: int,
    b2: int,
    t2: int,
    c2: int,
)
    requires
        are_latin(squares, selector),
        0 <= a1 < 3 && 0 <= b1 < 3 && 0 <= t1 < 3 && 0 <= c1 < 3,
        0 <= a2 < 3 && 0 <= b2 < 3 && 0 <= t2 < 3 && 0 <= c2 < 3,
        !(a1 == a2 && b1 == b2 && t1 == t2 && c1 == c2),
        (a1 == a2 && b1 == b2) || (t1 == t2 && c1 == c2) || (a1 == a2 && t1 == t2),
    ensures
        3 * selector.at(b1, t1) + squares[b1 * 3 + t1].at(a1, c1) != 3 * selector.at(b2, t2)
            + squares[b2 * 3 + t2].at(a2, c2),
        selector.at(b1, t1) < 3,
        squares[b1 * 3 + t1].at(a1, c1) < 3,
{
    let s1 = squares[b1 * 3 + t1];
    let s2 = squares[b2 * 3 + t2];
    assert(s1.is_latin());
    assert(s2.is_latin());
    let h1 = selector.at(b1, t1);
    let h2 = selector.at(b2, t2);
    let l1 = s1.at(a1, c1);
    let l2 = s2.at(a2, c2);
    assert(h1 < 3 && h2 < 3 && l1 < 3 && l2 < 3);
    if b1 != b2 {
        // one column of boxes: the selector's symbols differ
        assert(t1 == t2);
        assert(selector.at(b1, t1) != selector.at(b2, t1));
    } else if t1 != t2 {
        // one row of boxes: the selector's symbols differ
        assert(selector.at(b1, t1) != selector.at(b1, t2));
    } else {
        // one square: its symbols differ
        assert(s1 == s2);
        if a1 != a2 {
            assert(c1 == c2);
            assert(s1.at(a1, c1) != s1.at(a2, c1));
        } else {
            assert(c1 != c2);
            assert(s1.at(a1, c1) != s1.at(a1, c2));
        }
    }
}

/// What sharing a house means for the thirds of rows and columns.
proof fn lemma_house_thirds(i: int, j: int)
    requires
        in_grid(i),
        in_grid(j),
        i != j,
        same_house(i, j),
    ensures
        !((i / 9) / 3 == (j / 9) / 3 && (i / 9) % 3 == (j / 9) % 3 && (i % 9) / 3 == (j % 9) / 3
            && (i % 9) % 3 == (j % 9) % 3),
        ((i / 9) / 3 == (j / 9) / 3 && (i / 9) % 3 == (j / 9) % 3) || ((i % 9) / 3 == (j % 9) / 3
            && (i % 9) % 3 == (j % 9) % 3) || ((i / 9) / 3 == (j / 9) / 3 && (i % 9) / 3 == (j
            % 9) / 3),
{
    lemma_cell_houses(i);
    lemma_cell_houses(j);
    let ri = i / 9;
    let ci = i % 9;
    let rj = j / 9;
    let cj = j % 9;
    assert(i / 27 == ri / 3);
    assert(j / 27 == rj / 3);
    assert(box_of(i) == (ri / 3) * 3 + ci / 3);
    assert(box_of(j) == (rj / 3) * 3 + cj / 3);
}

/// A board composed of ten Latin squares is full and keeps the rules.
pub proof fn lemma_composed_valid(squares: Seq<LatinSquare>, selector: LatinSquare, g: Seq<u8>)
    requires
        are_latin(squares, selector),
        g.len() == 81,
        forall|i: int| in_grid(i) ==> #[trigger] g[i] == composed_digit(squares, selector, i),
    ensures
        is_grid(g),
        grid_filled(g),
        grid_valid(g),
{
    assert forall|i: int| in_grid(i) implies 1 <= #[trigger] g[i] <= 9 by {
        lemma_composed_digit(squares, selector, i);
        let r = i / 9;
        let c = i % 9;
        let sq = squares[(r % 3) * 3 + c / 3];
        assert(sq.is_latin());
        assert(selector.at(r % 3, c / 3) < 3);
        assert(sq.at(r / 3, c % 3) < 3);
    }
    assert forall|i: int, j: int|
        #![trigger g[i], g[j]]
        in_grid(i) && in_grid(j) && i != j && same_house(i, j) && g[i] != 0 implies g[i]
        != g[j] by {
        lemma_composed_digit(squares, selector, i);
        lemma_composed_digit(squares, selector, j);
        lemma_house_thirds(i, j);
        lemma_pairs_differ(
            squares,
            selector,
            (i / 9) / 3,
            (i / 9) % 3,
            (i % 9) / 3,
            (i % 9) % 3,
            (j / 9) / 3,
            (j / 9) % 3,
            (j % 9) / 3,
            (j % 9) % 3,
        );
    }
}

/// What carving `g` in the given order ends in. Each coordinate is taken
/// in turn; one off the board or of an empty cell is passed over. The
/// cell is emptied if the grid keeps a unique completion without it, and
/// stays as it was otherwise. The first grid so reached that holds
/// `target` digits is the outcome; there is none where the order runs
/// out before.
pub open spec fn carve_outcome(g: Seq<u8>, order: Seq<Coord>, target: int) -> Option<Seq<u8>>
    decreases order.len(),
{
    if order.len() == 0 {
        None
    } else {
        let coord = order[0];
        let rest = order.drop_first();
        let i = coord.0 * 9 + coord.1;
        if !coord.wf() || g[i] == 0 {
            carve_outcome(g, rest, target)
        } else if !has_unique_completion(g.update(i, 0)) {
            carve_outcome(g, rest, target)
        } else if filled_count(g.update(i, 0)) == target {
            Some(g.update(i, 0))
        } else {
            carve_outcome(g.update(i, 0), rest, target)
        }
    }
}

/// The coordinates of those of the first `n` cells that hold a digit, in
/// row-major order.
pub open spec fn clue_coords(g: Seq<u8>, n: int) -> Seq<Coord>
    decreases n,
{
    if n <= 0 {
        Seq::empty()
    } else if g[n - 1] != 0 {
        clue_coords(g, n - 1).push(Coord(((n - 1) / 9) as usize, ((n - 1) % 9) as usize))
    } else {
        clue_coords(g, n - 1)
    }
}

impl LatinSquares {
    /// Reads the decimal digits of `num` as a number in base 3.
    pub fn convert_base_3_to_10(num: u8) -> (r: u8)
        ensures
            r == base_3_reading(num as nat),
    {
        let mut rest = num;
        let mut weight: u8 = 1;
        let mut result: u8 = 0;
        let mut i: u8 = 0;

        while rest > 0
            invariant
                i <= 3,
                i == 0 ==> weight == 1 && rest == num && result == 0,
                i == 1 ==> weight == 3 && rest == num / 10 && result <= 9,
                i == 2 ==> weight == 9 && rest == num / 100 && result <= 36,
                i == 3 ==> weight == 27 && rest == 0,
                result + weight * base_3_reading(rest as nat) == base_3_reading(num as nat),
            decreases rest,
        {
            assert(base_3_reading(rest as nat) == rest % 10 + 3 * base_3_reading(
                (rest / 10) as nat,
            ));
            assert(weight * (rest % 10 + 3 * base_3_reading((rest / 10) as nat)) == weight * (rest
                % 10) + (weight * 3) * base_3_reading((rest / 10) as nat)) by (nonlinear_arith);
            result += (rest % 10) * weight;
            rest /= 10;
            weight *= 3;
            i += 1;
        }
        assert(base_3_reading(0) == 0);
        result
    }

    /// Swaps the digits of the two rows, cell by cell.
    fn swap_two_rows(sudoku: &mut Sudoku, r1: usize, r2: usize)
        requires
            r1 < 9,
            r2 < 9,
            r1 != r2,
        ensures
            forall|i: int|
                0 <= i < 81 ==> #[trigger] final(sudoku).0[i] == (Cell {
                    digit: old(sudoku).0[if i / 9 == r1 {
                        r2 * 9 + i % 9
                    } else if i / 9 == r2 {
                        r1 * 9 + i % 9
                    } else {
                        i
                    }].digit,
                    ..old(sudoku).0[i]
                }),
    {
        let mut col: usize = 0;
        while col < HOUSE_SIZE
            invariant
                col <= 9,
                r1 < 9,
                r2 < 9,
                r1 != r2,
                forall|i: int|
                    0 <= i < 81 ==> #[trigger] sudoku.0[i] == (Cell {
                        digit: old(sudoku).0[if i % 9 < col && i / 9 == r1 {
                            r2 * 9 + i % 9
                        } else if i % 9 < col && i / 9 == r2 {
                            r1 * 9 + i % 9
                        } else {
                            i
                        }].digit,
                        ..old(sudoku).0[i]
                    }),
            decreases 9 - col,
        {
            let first = Coord(r1, col).into_index();
            let second = Coord(r2, col).into_index();

            let temp_digit = sudoku.0[first].digit;
            sudoku.0[first].digit = sudoku.0[second].digit;
            sudoku.0[second].digit = temp_digit;
            col += 1;
        }
    }

    /// Swaps rows 1 and 3, 2 and 6, 5 and 7: the digit of every cell
    /// moves to the same column of the other row.
    pub fn swap_rows(sudoku: &mut Sudoku)
        ensures
            forall|i: int|
                0 <= i < 81 ==> #[trigger] final(sudoku).0[i] == (Cell {
                    digit: old(sudoku).0[swapped(i)].digit,
                    ..old(sudoku).0[i]
                }),
    {
        Self::swap_two_rows(sudoku, 1, 3);
        Self::swap_two_rows(sudoku, 2, 6);
        Self::swap_two_rows(sudoku, 5, 7);
    }

    /// The full board that ten Latin squares determine: box `b` is built
    /// from `squares[b]` and the selector's symbol at the place of that
    /// box, and then the rows are swapped.
    pub fn compose(squares: &Vec<LatinSquare>, big_square: &LatinSquare) -> (r: Sudoku)
        requires
            are_latin(squares@, *big_square),
        ensures
            r.wf(),
            forall|i: int|
                in_grid(i) ==> #[trigger] r@[i] == composed_digit(squares@, *big_square, i),
            grid_filled(r@),
            grid_valid(r@),
            houses_complete(r@),
            r.is_fresh(),
    {
        let mut sudoku = Sudoku::new_empty();
        let ghost blank = sudoku;

        let mut index: usize = 0;
        while index < HOUSE_SIZE
            invariant
                index <= 9,
                are_latin(squares@, *big_square),
                forall|i: int|
                    0 <= i < 81 ==> #[trigger] sudoku.0[i] == (Cell {
                        digit: sudoku.0[i].digit,
                        ..blank.0[i]
                    }),
                forall|i: int|
                    0 <= i < 81 && box_of(i) < index ==> (#[trigger] sudoku.0[i]).digit == Some(
                        Digit(paired_digit(squares@, *big_square, box_of(i), box_pos(i)) as u8),
                    ),
            decreases 9 - index,
        {
            let Coord(row, col) = Coord::from_index_of(index, SQUARE_SIZE);
            assert(big_square.at(row as int, col as int) < 3);
            let big_square_value = big_square.0[row][col] * 10;
            let latin_square = &squares[index];
            assert(latin_square.is_latin());

            let mut cell_index: usize = 0;
            while cell_index < HOUSE_SIZE
                invariant
                    cell_index <= 9,
                    index < 9,
                    row == index / 3,
                    col == index % 3,
                    are_latin(squares@, *big_square),
                    *latin_square == squares@[index as int],
                    latin_square.is_latin(),
                    big_square_value == big_square.at(row as int, col as int) * 10,
                    big_square_value < 30,
                    forall|i: int|
                        0 <= i < 81 ==> #[trigger] sudoku.0[i] == (Cell {
                            digit: sudoku.0[i].digit,
                            ..blank.0[i]
                        }),
                    forall|i: int|
                        0 <= i < 81 && (box_of(i) < index || (box_of(i) == index && box_pos(i)
                            < cell_index)) ==> (#[trigger] sudoku.0[i]).digit == Some(
                            Digit(paired_digit(squares@, *big_square, box_of(i), box_pos(i)) as u8),
                        ),
                decreases 9 - cell_index,
            {
                let Coord(r, c) = Coord::from_index_of(cell_index, SQUARE_SIZE);
                assert(latin_square.at(r as int, c as int) < 3);

                // pair the symbol with the selector's symbol
                let paired = latin_square.0[r][c] + big_square_value;

                // read the pair in base 3
                let base_10 = Self::convert_base_3_to_10(paired);
                proof {
                    let low = latin_square.at(r as int, c as int) as nat;
                    let high = big_square.at(row as int, col as int) as nat;
                    assert(paired == 10 * high + low);
                    assert(base_3_reading(paired as nat) == low + 3 * high) by {
                        reveal_with_fuel(base_3_reading, 3);
                        if paired != 0 {
                            assert(paired as nat % 10 == low);
                            assert(paired as nat / 10 == high);
                            if high != 0 {
                                assert(high % 10 == high);
                                assert(high / 10 == 0);
                            }
                        }
                    }
                    lemma_box_cells(index as int, cell_index as int);
                    assert forall|i: int|
                        in_grid(i) && box_of(i) == index && box_pos(i) == cell_index implies i
                        == box_cell(index as int, cell_index as int) by {
                        lemma_cell_houses(i);
                    }
                }
                let digit = Digit::new_unchecked(base_10 + 1);

                sudoku.square_mut(index, cell_index).digit = Some(digit);
                cell_index += 1;
            }
            index += 1;
        }

        let ghost filled = sudoku;
        Self::swap_rows(&mut sudoku);

        proof {
            assert forall|i: int| 0 <= i < 81 implies (#[trigger] sudoku.0[i]).digit == Some(
                Digit(composed_digit(squares@, *big_square, i) as u8),
            ) && 1 <= composed_digit(squares@, *big_square, i) <= 9 by {
                lemma_composed_digit(squares@, *big_square, i);
                let j = swapped(i);
                lemma_cell_houses(j);
                assert(filled.0[j].digit == Some(
                    Digit(paired_digit(squares@, *big_square, box_of(j), box_pos(j)) as u8),
                ));
                let r = i / 9;
                let c = i % 9;
                assert(squares@[(r % 3) * 3 + c / 3].is_latin());
                assert(big_square.at(r % 3, c / 3) < 3);
                assert(squares@[(r % 3) * 3 + c / 3].at(r / 3, c % 3) < 3);
            }
            assert forall|i: int| 0 <= i < 81 implies (#[trigger] sudoku.0[i]).wf() by {}
            assert forall|i: int| in_grid(i) implies #[trigger] sudoku@[i] == composed_digit(
                squares@,
                *big_square,
                i,
            ) by {
                assert(sudoku.0[i].digit == Some(
                    Digit(composed_digit(squares@, *big_square, i) as u8),
                ));
            }
            lemma_composed_valid(squares@, *big_square, sudoku@);
            lemma_full_houses(sudoku@);
        }
        sudoku
    }

    /// A full board that keeps the rules, composed of ten random Latin
    /// squares. Fails where one of the squares did not come about within
    /// the retry limit.
    pub fn generate_filled_sudoku(rng: &mut ThreadRng) -> (r: SudokuResult<Sudoku>)
        ensures
            r matches Ok(s) ==> s.wf() && grid_filled(s@) && grid_valid(s@) && houses_complete(s@)
                && s.is_fresh(),
            r matches Err(e) ==> e == SudokuError::GenerationFailed,
    {
        // one random square for each box
        let mut squares: Vec<LatinSquare> = Vec::new();
        let mut count: usize = 0;
        while count < HOUSE_SIZE
            invariant
                count <= 9,
                squares@.len() == count,
                forall|b: int| 0 <= b < count ==> (#[trigger] squares@[b]).is_latin(),
            decreases 9 - count,
        {
            match LatinSquare::new_random(rng) {
                Some(square) => squares.push(square),
                None => {
                    return Err(SudokuError::GenerationFailed);
                },
            }
            count += 1;
        }

        // and one more, which says for each box which third of the digits it gets
        match LatinSquare::new_random(rng) {
            Some(big_square) => Ok(Self::compose(&squares, &big_square)),
            None => Err(SudokuError::GenerationFailed),
        }
    }

    /// Draws random coordinates and empties the cells there until exactly
    /// `to_keep` digits are left. A board that comes with `to_keep` digits
    /// or fewer is handed back as it is. `None` where `RETRY_LIMIT`
    /// coordinates were drawn and more than `to_keep` digits are still
    /// left.
    pub fn with_n_random_cells(sudoku: Sudoku, rng: &mut ThreadRng, to_keep: usize) -> (r: Option<
        Sudoku,
    >)
        requires
            sudoku.wf(),
        ensures
            filled_count(sudoku@) <= to_keep ==> r == Some(sudoku),
            r matches Some(b) ==> {
                &&& b.wf()
                &&& same_marks(b, sudoku)
                &&& extends(sudoku@, b@)
                &&& filled_count(b@) == if filled_count(sudoku@) <= to_keep {
                    filled_count(sudoku@)
                } else {
                    to_keep as int
                }
            },
            exists|draws: Seq<Coord>|
                #![trigger emptied_at(sudoku@, draws)]
                {
                    &&& draws.len() <= RETRY_LIMIT
                    &&& forall|k: int| 0 <= k < draws.len() ==> (#[trigger] draws[k]).wf()
                    &&& forall|n: int|
                        0 <= n < draws.len() ==> filled_count(
                            emptied_at(sudoku@, #[trigger] draws.take(n)),
                        ) > to_keep
                    &&& r matches Some(b) ==> b@ == emptied_at(sudoku@, draws)
                    &&& r is None ==> draws.len() == RETRY_LIMIT && filled_count(
                        emptied_at(sudoku@, draws),
                    ) > to_keep
                },
    {
        let mut board = sudoku;
        let mut cell_count = board.count_filled_cells();
        let mut draws: usize = 0;
        let ghost mut drawn: Seq<Coord> = Seq::empty();

        while cell_count > to_keep && draws < RETRY_LIMIT
            invariant
                draws <= RETRY_LIMIT,
                sudoku.wf(),
                board.wf(),
                same_marks(board, sudoku),
                cell_count == filled_count(board@),
                filled_count(board@) <= filled_count(sudoku@),
                filled_count(board@) >= to_keep || filled_count(board@) == filled_count(sudoku@),
                filled_count(sudoku@) <= to_keep ==> board == sudoku,
                drawn.len() == draws,
                forall|k: int| 0 <= k < drawn.len() ==> (#[trigger] drawn[k]).wf(),
                board@ == emptied_at(sudoku@, drawn),
                forall|n: int|
                    0 <= n < drawn.len() ==> filled_count(
                        emptied_at(sudoku@, #[trigger] drawn.take(n)),
                    ) > to_keep,
            decreases RETRY_LIMIT - draws,
        {
            let random_coord = Coord::random(rng);
            let index = random_coord.into_index();
            let ghost before = board;
            let ghost earlier = drawn;
            proof {
                before.lemma_view();
            }

            if board.0[index].digit.is_some() {
                board.clear_cell(index);
                cell_count -= 1;
                proof {
                    board.lemma_view_after_write(before, index as int, None);
                    lemma_filled_count_update(before@, index as int, 0);
                }
            }
            draws += 1;
            proof {
                drawn = earlier.push(random_coord);
                assert(drawn.drop_last() =~= earlier);
                assert(board@ =~= before@.update(index as int, 0));
                assert forall|n: int| 0 <= n < drawn.len() implies filled_count(
                    emptied_at(sudoku@, #[trigger] drawn.take(n)),
                ) > to_keep by {
                    if n < earlier.len() {
                        assert(drawn.take(n) =~= earlier.take(n));
                    } else {
                        assert(drawn.take(n) =~= earlier);
                    }
                }
            }
        }
        proof {
            lemma_emptied_at(sudoku@, drawn);
        }
        if cell_count <= to_keep {
            Some(board)
        } else {
            None
        }
    }

    /// Marks as given exactly the cells that hold a digit.
    fn mark_givens(sudoku: &mut Sudoku)
        ensures
            forall|i: int|
                0 <= i < 81 ==> #[trigger] final(sudoku).0[i] == (Cell {
                    is_given: old(sudoku).0[i].digit is Some,
                    ..old(sudoku).0[i]
                }),
            final(sudoku)@ == old(sudoku)@,
            old(sudoku).wf() ==> final(sudoku).wf(),
    {
        let mut index: usize = 0;
        while index < GRID_SIZE
            invariant
                index <= 81,
                forall|i: int|
                    0 <= i < 81 ==> #[trigger] sudoku.0[i] == (Cell {
                        is_given: if i < index {
                            old(sudoku).0[i].digit is Some
                        } else {
                            old(sudoku).0[i].is_given
                        },
                        ..old(sudoku).0[i]
                    }),
            decreases 81 - index,
        {
            let filled = sudoku.0[index].digit.is_some();
            sudoku.0[index].is_given = filled;
            index += 1;
        }
        proof {
            assert(sudoku@ =~= old(sudoku)@);
            if old(sudoku).wf() {
                assert forall|i: int| 0 <= i < 81 implies (#[trigger] sudoku.0[i]).wf() by {
                    assert(old(sudoku).0[i].wf());
                }
            }
        }
    }

    /// Carves `sudoku` in the given order, as `carve_outcome` says, and
    /// marks the clues of the puzzle so reached as given.
    pub fn carve_in_order(sudoku: Sudoku, order: &Vec<Coord>, target_cells: usize) -> (r: Option<
        Sudoku,
    >)
        requires
            sudoku.wf(),
        ensures
            match r {
                Some(p) => carve_outcome(sudoku@, order@, target_cells as int) == Some(p@)
                    && is_puzzle(p, target_cells) && carved_from(p, sudoku),
                None => carve_outcome(sudoku@, order@, target_cells as int) is None,
            },
    {
        let mut board = sudoku;
        let mut j: usize = 0;
        assert(order@.skip(0) =~= order@);
        while j < order.len()
            invariant
                j <= order@.len(),
                sudoku.wf(),
                board.wf(),
                same_marks(board, sudoku),
                extends(sudoku@, board@),
                carve_outcome(sudoku@, order@, target_cells as int) == carve_outcome(
                    board@,
                    order@.skip(j as int),
                    target_cells as int,
                ),
            decreases order@.len() - j,
        {
            let coord = order[j];
            let ghost before = board;
            proof {
                let rest = order@.skip(j as int);
                assert(rest[0] == coord);
                assert(rest.drop_first() =~= order@.skip(j + 1));
                before.lemma_view();
            }
            if coord.row() < HOUSE_SIZE && coord.col() < HOUSE_SIZE {
                let index = coord.into_index();
                if let Some(digit) = board.0[index].digit {
                    board.clear_cell(index);
                    proof {
                        board.lemma_view_after_write(before, index as int, None);
                    }
                    if board.is_unique() {
                        if board.count_filled_cells() == target_cells {
                            proof {
                                lemma_unique_needs_valid(board@);
                            }
                            Self::mark_givens(&mut board);
                            return Some(board);
                        }
                    } else {
                        board.set_cell(index, digit);
                        proof {
                            assert(before.0[index as int].wf());
                            assert(board.0@ =~= before.0@);
                            assert(board.0 =~= before.0);
                        }
                    }
                }
            }
            j += 1;
        }
        None
    }

    /// Carves `sudoku` in a random order of its clues: the outcome is that
    /// of `carve_in_order` for some order that holds the coordinate of
    /// every clue once.
    pub fn carve(sudoku: Sudoku, rng: &mut ThreadRng, target_cells: usize) -> (r: Option<Sudoku>)
        requires
            sudoku.wf(),
        ensures
            r matches Some(p) ==> is_puzzle(p, target_cells) && carved_from(p, sudoku),
            exists|order: Seq<Coord>|
                order.to_multiset() == clue_coords(sudoku@, 81).to_multiset() && match r {
                    Some(p) => #[trigger] carve_outcome(sudoku@, order, target_cells as int)
                        == Some(p@),
                    None => carve_outcome(sudoku@, order, target_cells as int) is None,
                },
    {
        let mut given_coords: Vec<Coord> = Vec::new();
        let mut index: usize = 0;
        proof {
            sudoku.lemma_view();
        }
        while index < GRID_SIZE
            invariant
                index <= 81,
                forall|i: int|
                    0 <= i < 81 ==> (#[trigger] sudoku@[i] == 0) == (sudoku.0[i].digit is None),
                given_coords@ == clue_coords(sudoku@, index as int),
            decreases 81 - index,
        {
            if sudoku.0[index].digit.is_some() {
                given_coords.push(Coord::from_index(index));
            }
            index += 1;
        }

        shuffle(&mut given_coords, rng);

        Self::carve_in_order(sudoku, &given_coords, target_cells)
    }
}

/// The grid with the cells at the given coordinates emptied. A coordinate
/// off the board empties nothing.
pub open spec fn emptied_at(g: Seq<u8>, coords: Seq<Coord>) -> Seq<u8>
    decreases coords.len(),
{
    if coords.len() == 0 {
        g
    } else if coords.last().wf() {
        emptied_at(g, coords.drop_last()).update(coords.last().0 * 9 + coords.last().1, 0)
    } else {
        emptied_at(g, coords.drop_last())
    }
}

/// Emptying leaves 81 cells, each of them empty or as it was, and those at
/// the given coordinates empty.
pub proof fn lemma_emptied_at(g: Seq<u8>, coords: Seq<Coord>)
    requires
        g.len() == 81,
    ensures
        emptied_at(g, coords).len() == 81,
        forall|i: int|
            in_grid(i) ==> #[trigger] emptied_at(g, coords)[i] == 0 || emptied_at(g, coords)[i]
                == g[i],
        forall|k: int|
            0 <= k < coords.len() && (#[trigger] coords[k]).wf() ==> emptied_at(
                g,
                coords,
            )[coords[k].0 * 9 + coords[k].1] == 0,
    decreases coords.len(),
{
    if coords.len() > 0 {
        let rest = coords.drop_last();
        lemma_emptied_at(g, rest);
        assert forall|k: int| 0 <= k < coords.len() && (#[trigger] coords[k]).wf() implies emptied_at(
            g,
            coords,
        )[coords[k].0 * 9 + coords[k].1] == 0 by {
            if k < coords.len() - 1 {
                assert(rest[k] == coords[k]);
            }
        }
    }
}

impl Generate for LatinSquares {
    /// A full board from `generate_filled`, carved by `generate_from`.
    fn generate(self, config: SudokuConfig) -> (r: SudokuResult<Sudoku>)
        ensures
            r matches Ok(p) ==> p.is_plain(),
    {
        if !config.is_valid() {
            return Err(SudokuError::InvalidClueCount(config.cells));
        }
        match LatinSquares.generate_filled(config) {
            Ok(filled_sudoku) => {
                let r = LatinSquares.generate_from(filled_sudoku, config);
                proof {
                    if let Ok(p) = r {
                        assert forall|i: int| 0 <= i < 81 implies (#[trigger] p.0[i]).coord
                            == Coord((i / 9) as usize, (i % 9) as usize) && p.0[i].candidates
                            == Candidates::empty() by {
                            assert(filled_sudoku.0[i] == (Cell {
                                digit: filled_sudoku.0[i].digit,
                                ..Sudoku::blank_cell(i)
                            }));
                        }
                    }
                }
                r
            },
            Err(e) => Err(e),
        }
    }

    /// A board composed of ten random Latin squares; the clue count plays
    /// no part. None of its cells is marked as given.
    fn generate_filled(self, _config: SudokuConfig) -> (r: SudokuResult<Sudoku>)
        ensures
            r matches Ok(s) ==> s.is_fresh(),
    {
        let mut rng = thread_rng();
        Self::generate_filled_sudoku(&mut rng)
    }

    /// A board with fewer clues than asked for, or without a unique
    /// completion, is refused at once. Else each attempt cuts the board
    /// down at random to `config.cells` clues, but to no fewer than
    /// `COARSE_CLUES`. A cut that did not come about, or that has lost
    /// uniqueness, is dropped. One that
    /// has the number of clues asked for is the puzzle. Any other is
    /// carved on, clue by clue in random order, each clue leaving only if
    /// the completion stays unique. The attempts end with the first
    /// puzzle, or at `ATTEMPT_LIMIT`.
    fn generate_from(self, filled_sudoku: Sudoku, config: SudokuConfig) -> (r: SudokuResult<
        Sudoku,
    >)
        ensures
            config.is_valid() && (filled_count(filled_sudoku@) < config.cells
                || !has_unique_completion(filled_sudoku@)) ==> r is Err,
            config.is_valid() && filled_count(filled_sudoku@) == config.cells
                && has_unique_completion(filled_sudoku@) ==> (r matches Ok(p) && p@
                == filled_sudoku@),
    {
        if !config.is_valid() {
            return Err(SudokuError::InvalidClueCount(config.cells));
        }
        let target_cells = config.cells;
        if filled_sudoku.count_filled_cells() < target_cells || !filled_sudoku.is_unique() {
            return Err(SudokuError::GenerationFailed);
        }
        let mut rng = thread_rng();

        let to_keep = if target_cells < COARSE_CLUES {
            COARSE_CLUES
        } else {
            target_cells
        };

        let mut attempts: usize = 0;
        while attempts < ATTEMPT_LIMIT
            invariant
                attempts <= ATTEMPT_LIMIT,
                filled_sudoku.wf(),
                config.is_valid(),
                target_cells == config.cells,
                to_keep >= target_cells,
                has_unique_completion(filled_sudoku@),
                filled_count(filled_sudoku@) >= config.cells,
                filled_count(filled_sudoku@) == config.cells ==> attempts == 0,
            decreases ATTEMPT_LIMIT - attempts,
        {
            attempts += 1;
            if let Some(cut) = Self::with_n_random_cells(filled_sudoku, &mut rng, to_keep) {
                let mut sudoku = cut;
                if sudoku.is_unique() {
                    if sudoku.count_filled_cells() == target_cells {
                        proof {
                            lemma_unique_needs_valid(sudoku@);
                        }
                        Self::mark_givens(&mut sudoku);
                        return Ok(sudoku);
                    }
                    if let Some(puzzle) = Self::carve(sudoku, &mut rng, target_cells) {
                        proof {
                            assert(extends(filled_sudoku@, puzzle@)) by {
                                assert forall|i: int|
                                    in_grid(i) && puzzle@[i] != 0 implies #[trigger] filled_sudoku@[i]
                                    == puzzle@[i] by {
                                    assert(sudoku@[i] == puzzle@[i]);
                                }
                            }
                        }
                        return Ok(puzzle);
                    }
                }
            }
        }
        Err(SudokuError::GenerationFailed)
    }
}

} // verus!
