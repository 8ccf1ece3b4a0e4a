use rand::rngs::ThreadRng;
use vstd::prelude::*;

use crate::consts::HOUSE_SIZE;
use crate::random::random_below;

verus! {

/// A row and a column, in that order.
#[derive(Debug, Default, PartialEq, Eq, Structural, PartialOrd, Ord, Hash, Clone, Copy)]
pub struct Coord(pub usize, pub usize);

impl Coord {
    /// Row and column both lie on the board.
    pub open spec fn wf(self) -> bool {
        self.0 < 9 && self.1 < 9
    }

    /// A coordinate on the board, chosen by `rng`.
    pub fn random(rng: &mut ThreadRng) -> (r: Self)
        ensures
            r.wf(),
    {
        let random_row = random_below(rng, HOUSE_SIZE);
        let random_col = random_below(rng, HOUSE_SIZE);
        Coord(random_row, random_col)
    }

    /// The coordinate of the cell at flat index `index`.
    pub fn from_index(index: usize) -> (r: Self)
        requires
            index < 81,
        ensures
            r == Coord(index / 9, index % 9),
            r.wf(),
    {
        Self::from_index_of(index, HOUSE_SIZE)
    }

    /// The coordinate of flat index `index` on a board that is `size` wide.
    pub fn from_index_of(index: usize, size: usize) -> (r: Self)
        requires
            size > 0,
        ensures
            r == Coord(index / size, index % size),
    {
        Coord(index / size, index % size)
    }

    /// The row.
    pub fn row(&self) -> (r: usize)
        ensures
            r == self.0,
    {
        self.0
    }

    /// The column.
    pub fn col(&self) -> (r: usize)
        ensures
            r == self.1,
    {
        self.1
    }

    /// The coordinate in the same column of row `row`.
    pub fn with_row(self, row: usize) -> (r: Self)
        requires
            row < 9,
        ensures
            r == Coord(row, self.1),
    {
        Coord(row, self.col())
    }

    /// The coordinate in the same row of column `col`.
    pub fn with_col(self, col: usize) -> (r: Self)
        requires
            col < 9,
        ensures
            r == Coord(self.0, col),
    {
        Coord(self.row(), col)
    }
}

/// What can address a cell: a flat index, or a coordinate.
pub trait SudokuIndex: Sized {
    /// The flat index on a board that is `size` wide.
    spec fn flat(self, size: usize) -> int;

    /// The flat index on a board that is `size` wide, where it fits the
    /// machine word.
    fn into_index_of(self, size: usize) -> (r: usize)
        requires
            self.flat(size) <= usize::MAX,
        ensures
            r == self.flat(size),
    ;

    /// The flat index on the board.
    fn into_index(self) -> (r: usize)
        requires
            self.flat(HOUSE_SIZE) <= usize::MAX,
        ensures
            r == self.flat(HOUSE_SIZE),
    {
        self.into_index_of(HOUSE_SIZE)
    }
}

impl SudokuIndex for usize {
    open spec fn flat(self, size: usize) -> int {
        self as int
    }

    fn into_index_of(self, _size: usize) -> (r: usize) {
        self
    }
}

impl SudokuIndex for Coord {
    open spec fn flat(self, size: usize) -> int {
        self.0 * size + self.1
    }

    fn into_index_of(self, size: usize) -> (r: usize) {
        proof {
            assert(self.0 * size <= self.0 * size + self.1);
        }
        (self.row() * size) + self.col()
    }
}

} // verus!
