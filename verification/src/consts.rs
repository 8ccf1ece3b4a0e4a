use vstd::prelude::*;

verus! {

/// Side length of one box.
pub const SQUARE_SIZE: usize = 3;

/// Number of cells in a row, a column or a box; also the largest digit.
pub const HOUSE_SIZE: usize = 9;

/// Number of cells on the board.
pub const GRID_SIZE: usize = 81;

/// The fewest clues a puzzle is asked to have: no board with fewer has a
/// unique solution.
pub const MIN_CLUES: usize = 17;

/// How many clues the first, random cut of a full board leaves at least.
pub const COARSE_CLUES: usize = 40;

/// How often a random step is tried again before generation gives up.
pub const RETRY_LIMIT: usize = 10000;

/// How many times a puzzle is carved afresh out of a full board before
/// generation gives up.
pub const ATTEMPT_LIMIT: usize = 1000000;

} // verus!
