use std::collections::HashSet;
use vstd::prelude::*;

use crate::candidates::{is_digit, Candidates};
use crate::cell::Cell;
use crate::consts::{GRID_SIZE, HOUSE_SIZE, SQUARE_SIZE};
use crate::coord::{Coord, SudokuIndex};
use crate::digit::Digit;
use crate::error::{SudokuError, SudokuResult};
use crate::generate::{is_puzzle, refusal, Generate, LatinSquares, SudokuConfig};
use crate::rules::{
    allowed, allowed_set, box_cell, box_of, capped, col_cell, col_of, completions, filled_count,
    filled_upto, grid_empty, grid_filled, grid_valid, has_unique_completion, houses_complete,
    in_grid, is_completion, is_grid, lemma_allowed_by_houses, lemma_box_cells,
    lemma_cell_houses, lemma_filled_count, lemma_house_cell, lemma_unique_completion,
    lemma_valid_by_houses, row_cell, row_of, same_house, House,
};
use crate::solve::{same_marks, BruteForceSolver, Solve};

verus! {

broadcast use vstd::std_specs::hash::group_hash_axioms;

/// A board of 81 cells in row-major order.
#[derive(Debug, PartialEq, Eq, Clone, Copy)]
pub struct Sudoku(pub [Cell; GRID_SIZE]);

impl View for Sudoku {
    type V = Seq<u8>;

    /// The digits of the board, `0` for an empty cell.
    open spec fn view(&self) -> Seq<u8> {
        Seq::new(81, |i: int| self.0[i].value())
    }
}

impl Sudoku {
    /// Every digit on the board lies in `1..=9`.
    pub open spec fn wf(&self) -> bool {
        forall|i: int| 0 <= i < 81 ==> (#[trigger] self.0[i]).wf()
    }

    /// Every cell knows its own place, a cell is given exactly when it
    /// holds a digit, and no candidates are cached.
    pub open spec fn is_plain(&self) -> bool {
        forall|i: int|
            0 <= i < 81 ==> {
                &&& (#[trigger] self.0[i]).coord == Coord((i / 9) as usize, (i % 9) as usize)
                &&& self.0[i].is_given == (self.0[i].digit is Some)
                &&& self.0[i].candidates == Candidates::empty()
            }
    }

    /// The cell at flat index `i` of the empty board.
    pub open spec fn blank_cell(i: int) -> Cell {
        Cell {
            coord: Coord((i / 9) as usize, (i % 9) as usize),
            digit: None,
            candidates: Candidates::empty(),
            is_given: false,
        }
    }

    /// But for its digits, the board is the empty board: every cell knows
    /// its own place, none is given, and no candidates are cached.
    pub open spec fn is_fresh(&self) -> bool {
        forall|i: int|
            0 <= i < 81 ==> #[trigger] self.0[i] == (Cell {
                digit: self.0[i].digit,
                ..Self::blank_cell(i)
            })
    }

    /// The digits of a well-formed board make a grid, with `0` exactly
    /// where a cell is empty.
    pub proof fn lemma_view(&self)
        requires
            self.wf(),
        ensures
            is_grid(self@),
            forall|i: int| 0 <= i < 81 ==> (#[trigger] self@[i] == 0) == (self.0[i].digit is None),
    {
        assert forall|i: int| in_grid(i) implies #[trigger] self@[i] <= 9 by {
            assert(self.0[i].wf());
        }
        assert forall|i: int| 0 <= i < 81 implies (#[trigger] self@[i] == 0) == (self.0[i].digit
            is None) by {
            assert(self.0[i].wf());
        }
    }

    /// The board with no digit on it.
    pub fn new_empty() -> (r: Self)
        ensures
            r.wf(),
            grid_empty(r@),
            forall|i: int| 0 <= i < 81 ==> #[trigger] r.0[i] == Self::blank_cell(i),
    {
        let mut cells = [Cell::default();GRID_SIZE];
        let mut index: usize = 0;
        while index < GRID_SIZE
            invariant
                index <= 81,
                forall|i: int|
                    0 <= i < 81 ==> #[trigger] cells[i] == (Cell {
                        coord: if i < index {
                            Coord((i / 9) as usize, (i % 9) as usize)
                        } else {
                            Coord(0, 0)
                        },
                        digit: None,
                        candidates: Candidates::empty(),
                        is_given: false,
                    }),
            decreases 81 - index,
        {
            cells[index].coord = Coord::from_index(index);
            index += 1;
        }
        Sudoku(cells)
    }

    /// A full board that keeps the rules, from the Latin-square generator.
    /// None of its cells is marked as given.
    pub fn new_filled(config: SudokuConfig) -> (r: SudokuResult<Self>)
        ensures
            r matches Ok(s) ==> s.wf() && grid_filled(s@) && grid_valid(s@) && houses_complete(s@)
                && s.is_fresh(),
            r matches Err(e) ==> e == SudokuError::GenerationFailed,
    {
        LatinSquares.generate_filled(config)
    }

    /// A puzzle with `config.cells` clues and exactly one completion, from
    /// the Latin-square generator.
    pub fn new_unique(config: SudokuConfig) -> (r: SudokuResult<Self>)
        ensures
            r matches Ok(p) ==> config.is_valid() && is_puzzle(p, config.cells) && p.is_plain(),
            r matches Err(e) ==> e == refusal(config),
    {
        LatinSquares.generate(config)
    }

    /// A puzzle with `config.cells` clues and exactly one completion, from
    /// `generator`.
    pub fn new_with_generator(generator: impl Generate, config: SudokuConfig) -> (r: SudokuResult<
        Self,
    >)
        ensures
            r matches Ok(p) ==> config.is_valid() && is_puzzle(p, config.cells),
            r matches Err(e) ==> e == refusal(config),
    {
        generator.generate(config)
    }

    /// A full board that keeps the rules, from `generator`.
    pub fn new_filled_with_generator(generator: impl Generate, config: SudokuConfig) -> (r:
        SudokuResult<Self>)
        ensures
            r matches Ok(s) ==> s.wf() && grid_filled(s@) && grid_valid(s@) && houses_complete(s@),
            r matches Err(e) ==> e == SudokuError::GenerationFailed,
    {
        generator.generate_filled(config)
    }

    /// The number of cells.
    pub fn size(&self) -> (r: usize)
        ensures
            r == 81,
    {
        self.0.len()
    }

    /// The cells, in row-major order.
    pub fn into_inner(self) -> (r: [Cell; GRID_SIZE])
        ensures
            r == self.0,
    {
        self.0
    }

    /// The cells for reading, in row-major order.
    pub fn as_slice(&self) -> (r: &[Cell])
        ensures
            r@ == self.0@,
    {
        self.0.as_slice()
    }

    /// The cells for writing, in row-major order.
    pub fn as_slice_mut(&mut self) -> (r: &mut [Cell])
        ensures
            r@ == old(self).0@,
            final(self).0@ == final(r)@,
    {
        &mut self.0
    }

    /// All cells for writing, in row-major order.
    pub fn cells_mut(&mut self) -> (r: &mut [Cell])
        ensures
            r@ == old(self).0@,
            final(self).0@ == final(r)@,
    {
        &mut self.0
    }

    /// How many cells hold a digit.
    pub fn count_filled_cells(&self) -> (r: usize)
        requires
            self.wf(),
        ensures
            r == filled_count(self@),
            r <= 81,
    {
        let mut count: usize = 0;
        let mut index: usize = 0;
        while index < GRID_SIZE
            invariant
                index <= 81,
                self.wf(),
                count == filled_upto(self@, index as int),
                count <= index,
            decreases 81 - index,
        {
            assert(self.0[index as int].wf());
            assert(self@[index as int] == self.0[index as int].value());
            if self.0[index].digit.is_some() {
                count += 1;
            }
            index += 1;
        }
        count
    }

    /// How many cells are empty.
    pub fn count_unfilled_cells(&self) -> (r: usize)
        requires
            self.wf(),
        ensures
            r == 81 - filled_count(self@),
    {
        self.0.len() - self.count_filled_cells()
    }

    /// Whether every cell is empty.
    pub fn is_empty(&self) -> (r: bool)
        requires
            self.wf(),
        ensures
            r == grid_empty(self@),
    {
        proof {
            lemma_filled_count(self@);
        }
        self.count_filled_cells() == 0
    }

    /// Whether no cell is empty.
    pub fn is_filled(&self) -> (r: bool)
        requires
            self.wf(),
        ensures
            r == grid_filled(self@),
    {
        proof {
            lemma_filled_count(self@);
        }
        self.count_filled_cells() == self.0.len()
    }

    /// The cell at `i`, or `None` where `i` lies beyond the board.
    pub fn cell<I: SudokuIndex>(&self, i: I) -> (r: Option<&Cell>)
        requires
            i.flat(HOUSE_SIZE) <= usize::MAX,
        ensures
            i.flat(HOUSE_SIZE) < 81 ==> r == Some(&self.0[i.flat(HOUSE_SIZE)]),
            i.flat(HOUSE_SIZE) >= 81 ==> r is None,
    {
        let index = i.into_index();
        if index < GRID_SIZE {
            Some(&self.0[index])
        } else {
            None
        }
    }

    /// The cell at `i` for writing. The board's digits stay in `1..=9` only
    /// if the writer keeps them so.
    pub fn cell_mut<I: SudokuIndex>(&mut self, i: I) -> (r: Option<&mut Cell>)
        requires
            i.flat(HOUSE_SIZE) <= usize::MAX,
        ensures
            i.flat(HOUSE_SIZE) < 81 ==> r is Some && *r.unwrap() == old(self).0[i.flat(HOUSE_SIZE)]
                && final(self).0@ == old(self).0@.update(
                i.flat(HOUSE_SIZE),
                *final(r.unwrap()),
            ),
            i.flat(HOUSE_SIZE) >= 81 ==> r is None && *final(self) == *old(self),
    {
        let index = i.into_index();
        if index < GRID_SIZE {
            Some(&mut self.0[index])
        } else {
            None
        }
    }

    /// The cells in row-major order.
    pub fn cells(&self) -> (r: Vec<Cell>)
        ensures
            r@ == self.0@,
    {
        let mut out: Vec<Cell> = Vec::new();
        let mut index: usize = 0;
        while index < GRID_SIZE
            invariant
                index <= 81,
                out@ == self.0@.subrange(0, index as int),
            decreases 81 - index,
        {
            out.push(self.0[index]);
            index += 1;
            assert(out@ =~= self.0@.subrange(0, index as int));
        }
        assert(self.0@.subrange(0, 81) =~= self.0@);
        out
    }

    /// Writes `digit` into the cell at `i` and hands the cell back; the
    /// rest of the cell and of the board stays. Beyond the board nothing
    /// happens.
    pub fn set_cell<I: SudokuIndex>(&mut self, i: I, digit: Digit) -> (r: Option<&mut Cell>)
        requires
            i.flat(HOUSE_SIZE) <= usize::MAX,
        ensures
            i.flat(HOUSE_SIZE) < 81 ==> r is Some && *r.unwrap() == (Cell {
                digit: Some(digit),
                ..old(self).0[i.flat(HOUSE_SIZE)]
            }) && final(self).0@ == old(self).0@.update(i.flat(HOUSE_SIZE), *final(r.unwrap())),
            i.flat(HOUSE_SIZE) >= 81 ==> r is None && *final(self) == *old(self),
    {
        let index = i.into_index();
        if index < GRID_SIZE {
            let cell = &mut self.0[index];
            cell.digit = Some(digit);
            Some(cell)
        } else {
            None
        }
    }

    /// The board with `digit` in the cell at `i`.
    pub fn with_cell<I: SudokuIndex>(self, i: I, digit: Digit) -> (r: Self)
        requires
            i.flat(HOUSE_SIZE) <= usize::MAX,
        ensures
            i.flat(HOUSE_SIZE) < 81 ==> r.0@ == self.0@.update(
                i.flat(HOUSE_SIZE),
                Cell { digit: Some(digit), ..self.0[i.flat(HOUSE_SIZE)] },
            ),
            i.flat(HOUSE_SIZE) >= 81 ==> r == self,
    {
        let mut board = self;
        board.set_cell(i, digit);
        board
    }

    /// Empties the cell at `i` and hands the cell back; the rest of the
    /// cell and of the board stays. Beyond the board nothing happens.
    pub fn clear_cell<I: SudokuIndex>(&mut self, i: I) -> (r: Option<&mut Cell>)
        requires
            i.flat(HOUSE_SIZE) <= usize::MAX,
        ensures
            i.flat(HOUSE_SIZE) < 81 ==> r is Some && *r.unwrap() == (Cell {
                digit: None,
                ..old(self).0[i.flat(HOUSE_SIZE)]
            }) && final(self).0@ == old(self).0@.update(i.flat(HOUSE_SIZE), *final(r.unwrap())),
            i.flat(HOUSE_SIZE) >= 81 ==> r is None && *final(self) == *old(self),
    {
        let index = i.into_index();
        if index < GRID_SIZE {
            let cell = &mut self.0[index];
            cell.digit = None;
            Some(cell)
        } else {
            None
        }
    }

    /// What writing a digit into one cell does to the digits of the board.
    pub proof fn lemma_view_after_write(&self, before: Self, i: int, digit: Option<Digit>)
        requires
            0 <= i < 81,
            self.0@ == before.0@.update(i, Cell { digit, ..before.0[i] }),
        ensures
            self@ == before@.update(i, (Cell { digit, ..before.0[i] }).value()),
            before.wf() && (digit matches Some(d) ==> d.wf()) ==> self.wf(),
            forall|j: int|
                0 <= j < 81 ==> (#[trigger] self.0[j]).coord == before.0[j].coord
                    && self.0[j].is_given == before.0[j].is_given && self.0[j].candidates
                    == before.0[j].candidates,
    {
        assert forall|j: int| 0 <= j < 81 implies #[trigger] self.0[j] == (if j == i {
            Cell { digit, ..before.0[i] }
        } else {
            before.0[j]
        }) by {
            assert(self.0[j] == self.0@[j]);
            assert(before.0[j] == before.0@[j]);
        }
        assert(self@ =~= before@.update(i, (Cell { digit, ..before.0[i] }).value()));
        if before.wf() && (digit matches Some(d) ==> d.wf()) {
            assert forall|j: int| 0 <= j < 81 implies (#[trigger] self.0[j]).wf() by {
                assert(before.0[j].wf());
            }
        }
    }

    /// The nine cells of row `index`, from the left.
    pub fn row(&self, index: usize) -> (r: Vec<Cell>)
        requires
            index < 9,
        ensures
            r@.len() == 9,
            forall|k: int| 0 <= k < 9 ==> #[trigger] r@[k] == self.0[row_cell(index as int, k)],
    {
        let mut out: Vec<Cell> = Vec::new();
        let mut k: usize = 0;
        while k < HOUSE_SIZE
            invariant
                k <= 9,
                index < 9,
                out@.len() == k,
                forall|m: int| 0 <= m < k ==> #[trigger] out@[m] == self.0[row_cell(index as int, m)],
            decreases 9 - k,
        {
            out.push(self.0[index * HOUSE_SIZE + k]);
            k += 1;
        }
        out
    }

    /// The `k`-th cell of row `index` for writing.
    pub fn row_mut(&mut self, index: usize, k: usize) -> (r: &mut Cell)
        requires
            index < 9,
            k < 9,
        ensures
            *r == old(self).0[row_cell(index as int, k as int)],
            final(self).0@ == old(self).0@.update(row_cell(index as int, k as int), *final(r)),
    {
        &mut self.0[index * HOUSE_SIZE + k]
    }

    /// The nine rows, from the top.
    pub fn rows(&self) -> (r: Vec<Vec<Cell>>)
        ensures
            r@.len() == 9,
            forall|h: int| 0 <= h < 9 ==> (#[trigger] r@[h])@.len() == 9,
            forall|h: int, k: int|
                0 <= h < 9 && 0 <= k < 9 ==> #[trigger] r@[h]@[k] == self.0[row_cell(h, k)],
    {
        let mut out: Vec<Vec<Cell>> = Vec::new();
        let mut h: usize = 0;
        while h < HOUSE_SIZE
            invariant
                h <= 9,
                out@.len() == h,
                forall|a: int| 0 <= a < h ==> (#[trigger] out@[a])@.len() == 9,
                forall|a: int, k: int|
                    0 <= a < h && 0 <= k < 9 ==> #[trigger] out@[a]@[k] == self.0[row_cell(a, k)],
            decreases 9 - h,
        {
            let house = self.row(h);
            out.push(house);
            h += 1;
        }
        out
    }

    /// The nine cells of column `index`, from the top.
    pub fn col(&self, index: usize) -> (r: Vec<Cell>)
        requires
            index < 9,
        ensures
            r@.len() == 9,
            forall|k: int| 0 <= k < 9 ==> #[trigger] r@[k] == self.0[col_cell(index as int, k)],
    {
        let mut out: Vec<Cell> = Vec::new();
        let mut k: usize = 0;
        while k < HOUSE_SIZE
            invariant
                k <= 9,
                index < 9,
                out@.len() == k,
                forall|m: int| 0 <= m < k ==> #[trigger] out@[m] == self.0[col_cell(index as int, m)],
            decreases 9 - k,
        {
            out.push(self.0[k * HOUSE_SIZE + index]);
            k += 1;
        }
        out
    }

    /// The `k`-th cell of column `index` for writing.
    pub fn col_mut(&mut self, index: usize, k: usize) -> (r: &mut Cell)
        requires
            index < 9,
            k < 9,
        ensures
            *r == old(self).0[col_cell(index as int, k as int)],
            final(self).0@ == old(self).0@.update(col_cell(index as int, k as int), *final(r)),
    {
        &mut self.0[k * HOUSE_SIZE + index]
    }

    /// The nine columns, from the left.
    pub fn cols(&self) -> (r: Vec<Vec<Cell>>)
        ensures
            r@.len() == 9,
            forall|h: int| 0 <= h < 9 ==> (#[trigger] r@[h])@.len() == 9,
            forall|h: int, k: int|
                0 <= h < 9 && 0 <= k < 9 ==> #[trigger] r@[h]@[k] == self.0[col_cell(h, k)],
    {
        let mut out: Vec<Vec<Cell>> = Vec::new();
        let mut h: usize = 0;
        while h < HOUSE_SIZE
            invariant
                h <= 9,
                out@.len() == h,
                forall|a: int| 0 <= a < h ==> (#[trigger] out@[a])@.len() == 9,
                forall|a: int, k: int|
                    0 <= a < h && 0 <= k < 9 ==> #[trigger] out@[a]@[k] == self.0[col_cell(a, k)],
            decreases 9 - h,
        {
            let house = self.col(h);
            out.push(house);
            h += 1;
        }
        out
    }

    /// The flat indices of the nine cells of the box at `coord`, where
    /// `coord` counts boxes, not cells: row-major inside the box.
    pub fn square_indices(coord: Coord) -> (r: [usize; HOUSE_SIZE])
        requires
            coord.0 * 27 + coord.1 * 3 + 20 <= usize::MAX,
        ensures
            forall|k: int|
                0 <= k < 9 ==> #[trigger] r[k] == coord.0 * 27 + coord.1 * 3 + (k / 3) * 9 + k % 3,
            coord.0 < 3 && coord.1 < 3 ==> forall|k: int|
                0 <= k < 9 ==> #[trigger] r[k] == box_cell(coord.0 * 3 + coord.1, k),
    {
        let Coord(row, col) = coord;
        let square_row = row * HOUSE_SIZE * SQUARE_SIZE;
        let square_col = col * SQUARE_SIZE;

        let square_index = square_row + square_col;

        [
            square_index,
            square_index + 1,
            square_index + 2,
            square_index + HOUSE_SIZE,
            square_index + HOUSE_SIZE + 1,
            square_index + HOUSE_SIZE + 2,
            square_index + HOUSE_SIZE * 2,
            square_index + HOUSE_SIZE * 2 + 1,
            square_index + HOUSE_SIZE * 2 + 2,
        ]
    }

    /// The flat indices of the box that holds the cell at `coord`.
    pub fn square_indices_of_cell(coord: Coord) -> (r: [usize; HOUSE_SIZE])
        requires
            coord.wf(),
        ensures
            forall|k: int|
                0 <= k < 9 ==> #[trigger] r[k] == box_cell(box_of(coord.0 * 9 + coord.1), k),
    {
        let Coord(row, col) = coord;
        Self::square_indices(Coord(row / SQUARE_SIZE, col / SQUARE_SIZE))
    }

    /// The place, among the boxes, of the box that holds the cell.
    fn cell_coord_to_square_coord(cell_coord: Coord) -> (r: Coord)
        ensures
            r == Coord(cell_coord.0 / 3, cell_coord.1 / 3),
    {
        Coord(cell_coord.row() / SQUARE_SIZE, cell_coord.col() / SQUARE_SIZE)
    }

    /// The nine cells of a box, row-major inside the box. `i` names the
    /// box: by its number, or by its row and column among the boxes.
    pub fn square<I: SudokuIndex>(&self, i: I) -> (r: Vec<Cell>)
        requires
            i.flat(SQUARE_SIZE) < 9,
        ensures
            r@.len() == 9,
            forall|k: int|
                0 <= k < 9 ==> #[trigger] r@[k] == self.0[box_cell(i.flat(SQUARE_SIZE), k)],
    {
        let index = i.into_index_of(SQUARE_SIZE);
        let square_indices = Self::square_indices(Coord::from_index_of(index, SQUARE_SIZE));
        let mut out: Vec<Cell> = Vec::new();
        let mut k: usize = 0;
        while k < HOUSE_SIZE
            invariant
                k <= 9,
                index < 9,
                out@.len() == k,
                forall|m: int| 0 <= m < 9 ==> #[trigger] square_indices[m] == box_cell(index as int, m),
                forall|m: int| 0 <= m < k ==> #[trigger] out@[m] == self.0[box_cell(index as int, m)],
            decreases 9 - k,
        {
            proof {
                lemma_box_cells(index as int, k as int);
            }
            out.push(self.0[square_indices[k]]);
            k += 1;
        }
        out
    }

    /// The `k`-th cell of a box for writing. `i` names the box as for
    /// `square`.
    pub fn square_mut<I: SudokuIndex>(&mut self, i: I, k: usize) -> (r: &mut Cell)
        requires
            i.flat(SQUARE_SIZE) < 9,
            k < 9,
        ensures
            *r == old(self).0[box_cell(i.flat(SQUARE_SIZE), k as int)],
            final(self).0@ == old(self).0@.update(
                box_cell(i.flat(SQUARE_SIZE), k as int),
                *final(r),
            ),
    {
        let index = i.into_index_of(SQUARE_SIZE);
        let square_indices = Self::square_indices(Coord::from_index_of(index, SQUARE_SIZE));
        proof {
            lemma_box_cells(index as int, k as int);
        }
        &mut self.0[square_indices[k]]
    }

    /// The `k`-th cell, for writing, of the box that holds the cell at
    /// `i`.
    pub fn square_mut_of_cell<I: SudokuIndex>(&mut self, i: I, k: usize) -> (r: &mut Cell)
        requires
            i.flat(HOUSE_SIZE) < 81,
            k < 9,
        ensures
            *r == old(self).0[box_cell(box_of(i.flat(HOUSE_SIZE)), k as int)],
            final(self).0@ == old(self).0@.update(
                box_cell(box_of(i.flat(HOUSE_SIZE)), k as int),
                *final(r),
            ),
    {
        let coord = Coord::from_index(i.into_index());
        self.square_mut(Self::cell_coord_to_square_coord(coord), k)
    }

    /// The nine cells of the box that holds the cell at `i`.
    pub fn square_of_cell<I: SudokuIndex>(&self, i: I) -> (r: Vec<Cell>)
        requires
            i.flat(HOUSE_SIZE) < 81,
        ensures
            r@.len() == 9,
            forall|k: int|
                0 <= k < 9 ==> #[trigger] r@[k] == self.0[box_cell(box_of(i.flat(HOUSE_SIZE)), k)],
    {
        let coord = Coord::from_index(i.into_index());
        self.square(Self::cell_coord_to_square_coord(coord))
    }

    /// Takes out of `candidates` every digit that a cell of `house` holds.
    fn strike(candidates: &mut Candidates, house: &Vec<Cell>)
        requires
            house@.len() == 9,
            forall|k: int| 0 <= k < 9 ==> (#[trigger] house@[k]).wf(),
            old(candidates).wf(),
        ensures
            final(candidates).wf(),
            forall|d: u8|
                #[trigger] final(candidates)@.contains(d) == (old(candidates)@.contains(d)
                    && Self::cells_free(house@, d)),
    {
        let mut k: usize = 0;
        while k < HOUSE_SIZE
            invariant
                k <= 9,
                house@.len() == 9,
                forall|m: int| 0 <= m < 9 ==> (#[trigger] house@[m]).wf(),
                candidates.wf(),
                forall|d: u8|
                    candidates@.contains(d) == (old(candidates)@.contains(d) && forall|m: int|
                        0 <= m < k ==> (#[trigger] house@[m]).value() != d),
            decreases 9 - k,
        {
            let ghost before = candidates@;
            proof {
                candidates.lemma_members();
            }
            assert(house@[k as int].wf());
            if let Some(digit) = house[k].digit {
                candidates.remove(digit);
            }
            k += 1;
            assert forall|d: u8|
                candidates@.contains(d) == (old(candidates)@.contains(d) && forall|m: int|
                    0 <= m < k ==> (#[trigger] house@[m]).value() != d) by {
                assert(candidates@.contains(d) == (before.contains(d) && house@[k - 1].value()
                    != d));
                if before.contains(d) && house@[k - 1].value() != d {
                    assert forall|m: int| 0 <= m < k implies (#[trigger] house@[m]).value()
                        != d by {
                        if m < k - 1 {
                        }
                    }
                }
            }
        }
    }

    /// The digits that occur nowhere in the row, the column or the box of
    /// the cell at `i`, computed from the board as it stands.
    pub fn cell_candidates<I: SudokuIndex>(&self, i: I) -> (r: Candidates)
        requires
            self.wf(),
            i.flat(HOUSE_SIZE) < 81,
        ensures
            r@ == allowed_set(self@, i.flat(HOUSE_SIZE)),
            r.wf(),
            forall|j: int|
                in_grid(j) && same_house(i.flat(HOUSE_SIZE), j) ==> !r@.contains(
                    #[trigger] self@[j],
                ),
    {
        let index = i.into_index();
        let mut candidates = Candidates::all();

        let Coord(row, col) = Coord::from_index(index);
        let in_row = self.row(row);
        let in_col = self.col(col);
        let in_square = self.square_of_cell(index);

        Self::strike(&mut candidates, &in_row);
        let ghost without_row = candidates@;
        Self::strike(&mut candidates, &in_col);
        let ghost without_col = candidates@;
        Self::strike(&mut candidates, &in_square);

        proof {
            let g = self@;
            let at = index as int;
            lemma_cell_houses(at);
            self.lemma_house_view(in_row@, House::Row(row_of(at)));
            self.lemma_house_view(in_col@, House::Col(col_of(at)));
            self.lemma_house_view(in_square@, House::Square(box_of(at)));
            assert forall|d: u8| candidates@.contains(d) == allowed(g, at, d) by {
                assert(without_row.contains(d) == (is_digit(d) && Self::cells_free(in_row@, d)));
                assert(without_col.contains(d) == (without_row.contains(d) && Self::cells_free(
                    in_col@,
                    d,
                )));
                assert(candidates@.contains(d) == (without_col.contains(d) && Self::cells_free(
                    in_square@,
                    d,
                )));
                if is_digit(d) {
                    lemma_allowed_by_houses(g, at, d);
                    assert(Self::cells_free(in_row@, d) == House::Row(row_of(at)).free_of(g, d));
                    assert(Self::cells_free(in_col@, d) == House::Col(col_of(at)).free_of(g, d));
                    assert(Self::cells_free(in_square@, d) == House::Square(box_of(at)).free_of(
                        g,
                        d,
                    ));
                }
            }
            assert(candidates@ =~= allowed_set(g, at));
        }
        candidates
    }

    /// For each cell its candidates: none for a cell that holds a digit,
    /// else what `cell_candidates` gives.
    pub fn all_candidates(&self) -> (r: Vec<Candidates>)
        requires
            self.wf(),
        ensures
            r@.len() == 81,
            forall|i: int|
                0 <= i < 81 ==> (#[trigger] r@[i]).wf() && r@[i]@ == if self@[i] != 0 {
                    Set::<u8>::empty()
                } else {
                    allowed_set(self@, i)
                },
    {
        let mut out: Vec<Candidates> = Vec::new();
        let mut index: usize = 0;
        while index < GRID_SIZE
            invariant
                index <= 81,
                self.wf(),
                out@.len() == index,
                forall|i: int|
                    0 <= i < index ==> (#[trigger] out@[i]).wf() && out@[i]@ == if self@[i] != 0 {
                        Set::<u8>::empty()
                    } else {
                        allowed_set(self@, i)
                    },
            decreases 81 - index,
        {
            proof {
                self.lemma_view();
            }
            let candidates = if self.0[index].digit.is_some() {
                Candidates::empty()
            } else {
                self.cell_candidates(index)
            };
            out.push(candidates);
            index += 1;
        }
        out
    }

    /// Stores in every cell the candidates that `all_candidates` gives for
    /// it. A later change of the board does not update them.
    pub fn solve_all_candidates(&mut self)
        requires
            old(self).wf(),
        ensures
            final(self).wf(),
            final(self)@ == old(self)@,
            forall|i: int|
                0 <= i < 81 ==> #[trigger] final(self).0[i] == (Cell {
                    candidates: final(self).0[i].candidates,
                    ..old(self).0[i]
                }) && final(self).0[i].candidates.wf() && final(self).0[i].candidates@
                    == if old(self)@[i] != 0 {
                    Set::<u8>::empty()
                } else {
                    allowed_set(old(self)@, i)
                },
    {
        let all_candidates = self.all_candidates();
        let mut index: usize = 0;
        while index < GRID_SIZE
            invariant
                index <= 81,
                all_candidates@.len() == 81,
                forall|i: int|
                    0 <= i < 81 ==> #[trigger] self.0[i] == (Cell {
                        candidates: if i < index {
                            all_candidates@[i]
                        } else {
                            old(self).0[i].candidates
                        },
                        ..old(self).0[i]
                    }),
            decreases 81 - index,
        {
            self.0[index].candidates = all_candidates[index];
            index += 1;
        }
        proof {
            assert forall|i: int| 0 <= i < 81 implies (#[trigger] self.0[i]).wf() by {
                assert(old(self).0[i].wf());
            }
            assert(self@ =~= old(self)@);
        }
    }

    /// None of the nine cells holds digit `d`.
    pub open spec fn cells_free(house: Seq<Cell>, d: u8) -> bool {
        forall|k: int| 0 <= k < 9 ==> (#[trigger] house[k]).value() != d
    }

    /// No two cells of `house` hold the same digit.
    pub open spec fn cells_distinct(house: Seq<Cell>) -> bool {
        forall|p: int, q: int|
            #![trigger house[p], house[q]]
            0 <= p < 9 && 0 <= q < 9 && p != q && house[p].value() != 0 ==> house[p].value()
                != house[q].value()
    }

    /// Whether no digit occurs twice among the nine cells.
    fn house_is_unique(house: &Vec<Cell>) -> (r: bool)
        requires
            house@.len() == 9,
            forall|k: int| 0 <= k < 9 ==> (#[trigger] house@[k]).wf(),
        ensures
            r == Self::cells_distinct(house@),
    {
        let mut used: HashSet<u8> = HashSet::new();
        let mut k: usize = 0;
        while k < HOUSE_SIZE
            invariant
                k <= 9,
                house@.len() == 9,
                forall|m: int| 0 <= m < 9 ==> (#[trigger] house@[m]).wf(),
                forall|d: u8|
                    used@.contains(d) == exists|m: int|
                        0 <= m < k && (#[trigger] house@[m]).value() == d && d != 0,
                forall|p: int, q: int|
                    #![trigger house@[p], house@[q]]
                    0 <= p < k && 0 <= q < k && p != q && house@[p].value() != 0
                        ==> house@[p].value() != house@[q].value(),
            decreases 9 - k,
        {
            assert(house@[k as int].wf());
            let ghost before = used@;
            if let Some(digit) = house[k].digit {
                if !used.insert(digit.0) {
                    proof {
                        let m = choose|m: int|
                            0 <= m < k && (#[trigger] house@[m]).value() == digit.0 && digit.0
                                != 0;
                        assert(house@[m].value() == house@[k as int].value());
                    }
                    return false;
                }
            }
            k += 1;
            proof {
                let last = house@[k - 1].value();
                assert forall|d: u8|
                    used@.contains(d) == exists|m: int|
                        0 <= m < k && (#[trigger] house@[m]).value() == d && d != 0 by {
                    if before.contains(d) {
                        let m = choose|m: int|
                            0 <= m < k - 1 && (#[trigger] house@[m]).value() == d && d != 0;
                        assert(0 <= m < k && house@[m].value() == d);
                    } else if d == last && d != 0 {
                        assert(house@[k - 1].value() == d);
                    } else {
                        if exists|m: int| 0 <= m < k && (#[trigger] house@[m]).value() == d && d != 0 {
                            let m = choose|m: int|
                                0 <= m < k && (#[trigger] house@[m]).value() == d && d != 0;
                            assert(m < k - 1);
                            assert(before.contains(d));
                        }
                    }
                }
                assert forall|p: int, q: int|
                    #![trigger house@[p], house@[q]]
                    0 <= p < k && 0 <= q < k && p != q && house@[p].value() != 0 implies house@[p].value()
                    != house@[q].value() by {
                    if p == k - 1 {
                        if house@[q].value() == last {
                            assert(before.contains(last));
                        }
                    } else if q == k - 1 {
                        if house@[p].value() == last {
                            assert(before.contains(last));
                        }
                    }
                }
            }
        }
        true
    }

    /// The nine boxes, in row-major order.
    fn squares(&self) -> (r: Vec<Vec<Cell>>)
        ensures
            r@.len() == 9,
            forall|h: int| 0 <= h < 9 ==> (#[trigger] r@[h])@.len() == 9,
            forall|h: int, k: int|
                0 <= h < 9 && 0 <= k < 9 ==> #[trigger] r@[h]@[k] == self.0[box_cell(h, k)],
    {
        let mut out: Vec<Vec<Cell>> = Vec::new();
        let mut h: usize = 0;
        while h < HOUSE_SIZE
            invariant
                h <= 9,
                out@.len() == h,
                forall|a: int| 0 <= a < h ==> (#[trigger] out@[a])@.len() == 9,
                forall|a: int, k: int|
                    0 <= a < h && 0 <= k < 9 ==> #[trigger] out@[a]@[k] == self.0[box_cell(a, k)],
            decreases 9 - h,
        {
            let house = self.square(h);
            out.push(house);
            h += 1;
        }
        out
    }

    /// Whether none of the nine houses of one kind holds a digit twice.
    /// `houses` holds the cells of these houses, by number.
    fn all_unique(&self, houses: &Vec<Vec<Cell>>, Ghost(kind): Ghost<House>) -> (r: bool)
        requires
            self.wf(),
            houses@.len() == 9,
            forall|h: int| 0 <= h < 9 ==> (#[trigger] houses@[h])@.len() == 9,
            forall|h: int, k: int|
                0 <= h < 9 && 0 <= k < 9 ==> #[trigger] houses@[h]@[k] == self.0[kind.renumbered(
                    h,
                ).cell(k)],
        ensures
            r == forall|h: int| 0 <= h < 9 ==> #[trigger] kind.renumbered(h).distinct(self@),
    {
        let mut h: usize = 0;
        while h < HOUSE_SIZE
            invariant
                h <= 9,
                self.wf(),
                houses@.len() == 9,
                forall|a: int| 0 <= a < 9 ==> (#[trigger] houses@[a])@.len() == 9,
                forall|a: int, k: int|
                    0 <= a < 9 && 0 <= k < 9 ==> #[trigger] houses@[a]@[k]
                        == self.0[kind.renumbered(a).cell(k)],
                forall|a: int| 0 <= a < h ==> #[trigger] kind.renumbered(a).distinct(self@),
            decreases 9 - h,
        {
            proof {
                self.lemma_house_view(houses@[h as int]@, kind.renumbered(h as int));
            }
            if !Self::house_is_unique(&houses[h]) {
                return false;
            }
            h += 1;
        }
        true
    }

    /// No row, column or box holds a digit twice. Empty cells do not count,
    /// so a board need not be full to be valid.
    pub fn is_valid(&self) -> (r: bool)
        requires
            self.wf(),
        ensures
            r == grid_valid(self@),
    {
        let rows = self.rows();
        let cols = self.cols();
        let squares = self.squares();
        let r = self.all_unique(&rows, Ghost(House::Row(0))) && self.all_unique(
            &cols,
            Ghost(House::Col(0)),
        ) && self.all_unique(&squares, Ghost(House::Square(0)));
        proof {
            lemma_valid_by_houses(self@);
            if r {
                assert forall|house: House| house.wf() implies #[trigger] house.distinct(
                    self@,
                ) by {
                    let h = house.number();
                    assert(house == House::Row(0).renumbered(h) || house == House::Col(
                        0,
                    ).renumbered(h) || house == House::Square(0).renumbered(h));
                }
            }
        }
        r
    }

    /// What nine cells read off a house say of the grid: their digits
    /// are those of the house, so they are distinct, or free of a digit,
    /// exactly when the house is.
    proof fn lemma_house_view(&self, cells: Seq<Cell>, house: House)
        requires
            self.wf(),
            house.wf(),
            cells.len() == 9,
            forall|k: int| 0 <= k < 9 ==> #[trigger] cells[k] == self.0[house.cell(k)],
        ensures
            forall|k: int| 0 <= k < 9 ==> (#[trigger] cells[k]).wf(),
            Self::cells_distinct(cells) == house.distinct(self@),
            forall|d: u8| Self::cells_free(cells, d) == #[trigger] house.free_of(self@, d),
    {
        let g = self@;
        assert forall|k: int| 0 <= k < 9 implies (#[trigger] cells[k]).wf() && cells[k].value()
            == g[house.cell(k)] by {
            lemma_house_cell(house, k);
            assert(self.0[house.cell(k)].wf());
        }
        if Self::cells_distinct(cells) {
            assert forall|p: int, q: int|
                #![trigger g[house.cell(p)], g[house.cell(q)]]
                0 <= p < 9 && 0 <= q < 9 && p != q && g[house.cell(p)] != 0 implies g[house.cell(
                p,
            )] != g[house.cell(q)] by {
                assert(cells[p].value() != cells[q].value());
            }
        }
        if house.distinct(g) {
            assert forall|p: int, q: int|
                #![trigger cells[p], cells[q]]
                0 <= p < 9 && 0 <= q < 9 && p != q && cells[p].value() != 0 implies cells[p].value()
                != cells[q].value() by {
                assert(g[house.cell(p)] != g[house.cell(q)]);
            }
        }
        assert forall|d: u8| Self::cells_free(cells, d) == #[trigger] house.free_of(g, d) by {
            if Self::cells_free(cells, d) {
                assert forall|k: int| 0 <= k < 9 implies #[trigger] g[house.cell(k)] != d by {
                    assert(cells[k].value() != d);
                }
            }
            if house.free_of(g, d) {
                assert forall|k: int| 0 <= k < 9 implies (#[trigger] cells[k]).value() != d by {
                    assert(g[house.cell(k)] != d);
                }
            }
        }
    }

    /// Lets `solver` fill the board. On `true` the board is a completion
    /// of what it was, the one that `solver.outcome` names; on `false` it
    /// is what it was, and no completion exists. Where exactly one
    /// completion exists, the board becomes it.
    pub fn solve_with(&mut self, solver: impl Solve) -> (r: bool)
        requires
            old(self).wf(),
        ensures
            final(self).wf(),
            same_marks(*final(self), *old(self)),
            r ==> is_completion(final(self)@, old(self)@),
            !r ==> *final(self) == *old(self),
            r <==> exists|s: Seq<u8>| is_completion(s, old(self)@),
            has_unique_completion(old(self)@) ==> r && completions(old(self)@) == set![
                final(self)@,
            ],
            r ==> solver.outcome(old(self)@) == Some(final(self)@),
            !r ==> solver.outcome(old(self)@) is None,
    {
        let r = solver.solve(self);
        proof {
            let g = old(self)@;
            if has_unique_completion(g) {
                Set::lemma_is_singleton(completions(g));
                let s = completions(g).choose();
                assert(completions(g).len() != 0);
                assert(completions(g).contains(s));
                lemma_unique_completion(g, self@, s);
            }
        }
        r
    }

    /// The number of completions of the board, counted up to `limit`.
    pub fn count_solutions(&self, limit: usize) -> (r: usize)
        requires
            self.wf(),
        ensures
            completions(self@).finite(),
            r == capped(completions(self@).len(), limit as nat),
    {
        BruteForceSolver::new().count(self, limit).solutions()
    }

    /// Whether the board has exactly one completion.
    pub fn is_unique(&self) -> (r: bool)
        requires
            self.wf(),
        ensures
            r == has_unique_completion(self@),
    {
        self.count_solutions(2) == 1
    }
}

impl From<[Cell; GRID_SIZE]> for Sudoku {
    fn from(value: [Cell; GRID_SIZE]) -> (r: Self) {
        Sudoku(value)
    }
}

impl vstd::std_specs::convert::FromSpecImpl<[Cell; GRID_SIZE]> for Sudoku {
    open spec fn obeys_from_spec() -> bool {
        true
    }

    open spec fn from_spec(value: [Cell; GRID_SIZE]) -> Self {
        Sudoku(value)
    }
}

impl TryFrom<Vec<Cell>> for Sudoku {
    type Error = Vec<Cell>;

    /// The board of the 81 cells, or the cells back where there are not
    /// 81 of them.
    fn try_from(value: Vec<Cell>) -> (r: Result<Self, Self::Error>) {
        if value.len() != GRID_SIZE {
            return Err(value);
        }
        let mut cells = [Cell::default();GRID_SIZE];
        let mut index: usize = 0;
        while index < GRID_SIZE
            invariant
                index <= 81,
                value@.len() == 81,
                forall|i: int| 0 <= i < index ==> #[trigger] cells[i] == value@[i],
            decreases 81 - index,
        {
            cells[index] = value[index];
            index += 1;
        }
        proof {
            assert(cells@ =~= value@);
            let chosen = choose|cells: [Cell; GRID_SIZE]| cells@ == value@;
            assert(chosen =~= cells);
        }
        Ok(Sudoku(cells))
    }
}

impl vstd::std_specs::convert::TryFromSpecImpl<Vec<Cell>> for Sudoku {
    open spec fn obeys_try_from_spec() -> bool {
        true
    }

    open spec fn try_from_spec(value: Vec<Cell>) -> Result<Self, Self::Error> {
        if value@.len() == 81 {
            Ok(Sudoku(choose|cells: [Cell; GRID_SIZE]| cells@ == value@))
        } else {
            Err(value)
        }
    }
}

impl Default for Sudoku {
    fn default() -> (r: Self)
        ensures
            r.wf(),
            grid_empty(r@),
            forall|i: int| 0 <= i < 81 ==> #[trigger] r.0[i] == Sudoku::blank_cell(i),
    {
        Sudoku::new_empty()
    }
}

} // verus!
