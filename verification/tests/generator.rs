use soku::coord::Coord;
use soku::digit::Digit;
use soku::error::SudokuError;
use soku::generate::{Generate, LatinSquare, LatinSquares, SudokuConfig};
use soku::solve::BruteForceSolver;
use soku::sudoku::Sudoku;

const CLUED: &str =
    "530070000600195000098000060800060003400803001700020006060000280000419005000080079";
const FULL: &str =
    "534678912672195348198342567859761423426853791713924856961537284287419635345286179";

fn is_latin_square(square: &LatinSquare) -> bool {
    let s = square.0;
    for a in 0..3 {
        let mut row = [false; 3];
        let mut col = [false; 3];
        for b in 0..3 {
            if s[a][b] > 2 || s[b][a] > 2 {
                return false;
            }
            row[s[a][b] as usize] = true;
            col[s[b][a] as usize] = true;
        }
        if row != [true; 3] || col != [true; 3] {
            return false;
        }
    }
    true
}

fn every_house_is_a_permutation(board: &Sudoku) -> bool {
    for h in 0..9usize {
        for house in [board.row(h), board.col(h), board.square(h)] {
            let mut digits: Vec<u8> = house.iter().map(|c| c.digit.map_or(0, |d| d.0)).collect();
            digits.sort();
            if digits != vec![1, 2, 3, 4, 5, 6, 7, 8, 9] {
                return false;
            }
        }
    }
    true
}

fn check_puzzle(puzzle: &Sudoku, cells: usize) {
    assert_eq!(puzzle.count_filled_cells(), cells);
    assert!(puzzle.is_valid());
    assert!(puzzle.is_unique());
    assert_eq!(puzzle.count_solutions(2), 1);
    for cell in puzzle.cells() {
        assert_eq!(cell.is_given, cell.digit.is_some());
    }
}

fn cyclic() -> LatinSquare {
    LatinSquare([[0, 1, 2], [1, 2, 0], [2, 0, 1]])
}

#[test]
fn from_rows_completes_the_last_row() {
    assert_eq!(LatinSquare::from_rows(&vec![0, 1, 2], &vec![1, 2, 0]), Some(cyclic()));
    assert_eq!(
        LatinSquare::from_rows(&vec![2, 0, 1], &vec![0, 1, 2]),
        Some(LatinSquare([[2, 0, 1], [0, 1, 2], [1, 2, 0]]))
    );
    assert_eq!(
        LatinSquare::from_rows(&vec![1, 0, 2], &vec![2, 1, 0]),
        Some(LatinSquare([[1, 0, 2], [2, 1, 0], [0, 2, 1]]))
    );
}

#[test]
fn from_rows_refuses_rows_that_meet_in_a_column() {
    assert_eq!(LatinSquare::from_rows(&vec![0, 1, 2], &vec![0, 1, 2]), None);
    assert_eq!(LatinSquare::from_rows(&vec![0, 1, 2], &vec![0, 2, 1]), None);
    assert_eq!(LatinSquare::from_rows(&vec![0, 1, 2], &vec![2, 1, 0]), None);
    assert_eq!(LatinSquare::from_rows(&vec![0, 1, 2], &vec![1, 0, 2]), None);
}

#[test]
fn from_rows_refuses_what_is_no_row_of_symbols() {
    assert_eq!(LatinSquare::from_rows(&vec![0, 1], &vec![1, 2, 0]), None);
    assert_eq!(LatinSquare::from_rows(&vec![0, 1, 2], &vec![1, 2, 0, 0]), None);
    assert_eq!(LatinSquare::from_rows(&vec![0, 1, 3], &vec![1, 2, 0]), None);
    assert_eq!(LatinSquare::from_rows(&vec![0, 0, 1], &vec![1, 2, 0]), None);
    assert_eq!(LatinSquare::from_rows(&vec![0, 1, 2], &vec![1, 1, 0]), None);
}

#[test]
fn every_pair_of_fitting_rows_gives_a_latin_square() {
    let rows: [[u8; 3]; 6] = [[0, 1, 2], [0, 2, 1], [1, 0, 2], [1, 2, 0], [2, 0, 1], [2, 1, 0]];
    let mut squares = 0;
    for a in rows {
        for b in rows {
            let fits = (0..3).all(|j| a[j] != b[j]);
            let square = LatinSquare::from_rows(&a.to_vec(), &b.to_vec());
            assert_eq!(square.is_some(), fits);
            if let Some(square) = square {
                assert!(is_latin_square(&square));
                assert_eq!(square.0[0], a);
                assert_eq!(square.0[1], b);
                squares += 1;
            }
        }
    }
    assert_eq!(squares, 12);
}

#[test]
fn random_squares_are_latin_and_vary() {
    let mut rng = rand::thread_rng();
    let mut seen: Vec<LatinSquare> = Vec::new();
    for _ in 0..600 {
        let square = LatinSquare::new_random(&mut rng).unwrap();
        assert!(is_latin_square(&square));
        if !seen.contains(&square) {
            seen.push(square);
        }
    }
    assert_eq!(seen.len(), 12);
}

#[test]
fn base_3_reading_of_decimal_digits() {
    assert_eq!(LatinSquares::convert_base_3_to_10(0), 0);
    assert_eq!(LatinSquares::convert_base_3_to_10(1), 1);
    assert_eq!(LatinSquares::convert_base_3_to_10(2), 2);
    assert_eq!(LatinSquares::convert_base_3_to_10(10), 3);
    assert_eq!(LatinSquares::convert_base_3_to_10(11), 4);
    assert_eq!(LatinSquares::convert_base_3_to_10(12), 5);
    assert_eq!(LatinSquares::convert_base_3_to_10(20), 6);
    assert_eq!(LatinSquares::convert_base_3_to_10(21), 7);
    assert_eq!(LatinSquares::convert_base_3_to_10(22), 8);
    assert_eq!(LatinSquares::convert_base_3_to_10(102), 11);
    assert_eq!(LatinSquares::convert_base_3_to_10(255), 2 * 9 + 5 * 3 + 5);
}

#[test]
fn swap_rows_exchanges_three_pairs_of_rows() {
    let board = Sudoku::from_str_line(FULL);
    let mut swapped = board;
    LatinSquares::swap_rows(&mut swapped);
    let from = [0usize, 3, 6, 1, 4, 7, 2, 5, 8];
    for r in 0..9 {
        for c in 0..9 {
            assert_eq!(swapped.0[r * 9 + c].digit, board.0[from[r] * 9 + c].digit);
            assert_eq!(swapped.0[r * 9 + c].coord, Coord(r, c));
        }
    }
    LatinSquares::swap_rows(&mut swapped);
    assert_eq!(swapped, board);
}

#[test]
fn compose_of_ten_cyclic_squares() {
    let board = LatinSquares::compose(&vec![cyclic(); 9], &cyclic());
    assert_eq!(
        board.to_str_line(),
        "123456789456789123789123456231564897564897231897231564312645978645978312978312645"
    );
    assert!(board.is_valid());
    assert!(board.is_filled());
}

#[test]
fn compose_of_ten_different_squares() {
    let squares = vec![
        LatinSquare([[0, 1, 2], [1, 2, 0], [2, 0, 1]]),
        LatinSquare([[0, 1, 2], [2, 0, 1], [1, 2, 0]]),
        LatinSquare([[1, 0, 2], [0, 2, 1], [2, 1, 0]]),
        LatinSquare([[2, 1, 0], [0, 2, 1], [1, 0, 2]]),
        LatinSquare([[1, 2, 0], [2, 0, 1], [0, 1, 2]]),
        LatinSquare([[0, 2, 1], [1, 0, 2], [2, 1, 0]]),
        LatinSquare([[2, 0, 1], [1, 2, 0], [0, 1, 2]]),
        LatinSquare([[1, 2, 0], [0, 1, 2], [2, 0, 1]]),
        LatinSquare([[0, 2, 1], [2, 1, 0], [1, 0, 2]]),
    ];
    let selector = LatinSquare([[2, 0, 1], [0, 1, 2], [1, 2, 0]]);
    let board = LatinSquares::compose(&squares, &selector);
    assert_eq!(
        board.to_str_line(),
        "789123546321564798645897132897312465132645879564789321978231654213456987456978213"
    );
    assert!(board.is_valid());
    assert!(board.is_filled());
    assert!(every_house_is_a_permutation(&board));
    for r in 0..9 {
        for c in 0..9 {
            let high = selector.0[r % 3][c / 3];
            let low = squares[(r % 3) * 3 + c / 3].0[r / 3][c % 3];
            assert_eq!(board.0[r * 9 + c].digit, Some(Digit(3 * high + low + 1)));
            assert!(!board.0[r * 9 + c].is_given);
        }
    }
}

#[test]
fn filled_boards_are_full_valid_and_made_of_permutations() {
    let mut lines: Vec<String> = Vec::new();
    for _ in 0..200 {
        let board = Sudoku::new_filled(SudokuConfig { cells: 30 }).unwrap();
        assert!(board.is_valid());
        assert!(board.is_filled());
        assert!(every_house_is_a_permutation(&board));
        lines.push(board.to_str_line());
    }
    lines.sort();
    lines.dedup();
    assert!(lines.len() > 100);
}

#[test]
fn generate_filled_ignores_the_clue_count() {
    let board = LatinSquares.generate_filled(SudokuConfig { cells: 0 }).unwrap();
    assert!(board.is_filled());
    assert!(board.is_valid());
    let other = Sudoku::new_filled_with_generator(LatinSquares, SudokuConfig { cells: 500 });
    assert!(other.unwrap().is_filled());
}

#[test]
fn a_hundred_puzzles_of_thirty_clues() {
    for _ in 0..100 {
        let puzzle = Sudoku::new_unique(SudokuConfig { cells: 30 }).unwrap();
        check_puzzle(&puzzle, 30);
        assert_eq!(puzzle.count_solutions(10), 1);
    }
}

#[test]
fn a_puzzle_comes_back_from_its_line() {
    for _ in 0..20 {
        let puzzle = Sudoku::new_unique(SudokuConfig { cells: 36 }).unwrap();
        assert_eq!(Sudoku::from_str_line(&puzzle.to_str_line()), puzzle);
    }
}

#[test]
fn puzzles_of_other_clue_counts() {
    for cells in [81usize, 64, 45, 40, 39, 35, 28, 26] {
        let puzzle = LatinSquares.generate(SudokuConfig { cells }).unwrap();
        check_puzzle(&puzzle, cells);
    }
}

#[test]
fn a_puzzle_can_be_solved_back() {
    let puzzle = Sudoku::new_with_generator(LatinSquares, SudokuConfig { cells: 32 }).unwrap();
    let mut board = puzzle;
    assert!(board.solve_with(BruteForceSolver::new()));
    assert!(board.is_filled());
    assert!(board.is_valid());
    for i in 0..81 {
        if puzzle.0[i].digit.is_some() {
            assert_eq!(board.0[i].digit, puzzle.0[i].digit);
        }
    }
}

#[test]
fn a_puzzle_is_carved_out_of_the_given_board() {
    let full = Sudoku::from_str_line(FULL);
    let puzzle = LatinSquares.generate_from(full, SudokuConfig { cells: 34 }).unwrap();
    check_puzzle(&puzzle, 34);
    for i in 0..81 {
        if puzzle.0[i].digit.is_some() {
            assert_eq!(puzzle.0[i].digit, full.0[i].digit);
        }
        assert_eq!(puzzle.0[i].coord, full.0[i].coord);
    }
}

#[test]
fn too_few_clues_are_refused() {
    assert_eq!(
        Sudoku::new_unique(SudokuConfig { cells: 16 }),
        Err(SudokuError::InvalidClueCount(16))
    );
    assert_eq!(
        LatinSquares.generate(SudokuConfig { cells: 0 }),
        Err(SudokuError::InvalidClueCount(0))
    );
    assert!(!SudokuConfig { cells: 16 }.is_valid());
    assert!(SudokuConfig { cells: 17 }.is_valid());
}

#[test]
fn too_many_clues_are_refused() {
    assert_eq!(
        Sudoku::new_unique(SudokuConfig { cells: 82 }),
        Err(SudokuError::InvalidClueCount(82))
    );
    assert_eq!(
        LatinSquares.generate_from(Sudoku::from_str_line(FULL), SudokuConfig { cells: 100 }),
        Err(SudokuError::InvalidClueCount(100))
    );
    assert!(SudokuConfig { cells: 81 }.is_valid());
    assert!(!SudokuConfig { cells: 82 }.is_valid());
}

#[test]
fn generation_from_an_empty_board_fails() {
    assert_eq!(
        LatinSquares.generate_from(Sudoku::new_empty(), SudokuConfig { cells: 30 }),
        Err(SudokuError::GenerationFailed)
    );
}

#[test]
fn generation_from_a_board_with_too_few_clues_fails() {
    let puzzle = Sudoku::from_str_line(CLUED);
    assert_eq!(
        LatinSquares.generate_from(puzzle, SudokuConfig { cells: 31 }),
        Err(SudokuError::GenerationFailed)
    );
}

#[test]
fn generation_from_an_ambiguous_board_fails() {
    let ambiguous =
        "534008912672195348198342567859001423426853791713924856961537284287419635345286179";
    assert_eq!(
        LatinSquares.generate_from(Sudoku::from_str_line(ambiguous), SudokuConfig { cells: 40 }),
        Err(SudokuError::GenerationFailed)
    );
}

#[test]
fn generation_of_all_81_clues_gives_the_board_itself() {
    let full = Sudoku::from_str_line(FULL);
    let puzzle = LatinSquares.generate_from(full, SudokuConfig { cells: 81 }).unwrap();
    assert_eq!(puzzle.to_str_line(), FULL);
    check_puzzle(&puzzle, 81);
}

#[test]
fn generation_from_a_puzzle_of_the_asked_size_gives_it_back() {
    let mut start = Sudoku::from_str_line(CLUED);
    for cell in start.as_slice_mut() {
        cell.is_given = false;
    }
    let puzzle = LatinSquares.generate_from(start, SudokuConfig { cells: 30 }).unwrap();
    assert_eq!(puzzle.to_str_line(), CLUED);
    check_puzzle(&puzzle, 30);
    assert_eq!(puzzle, Sudoku::from_str_line(CLUED));
}

#[test]
fn generation_from_a_board_that_breaks_the_rules_fails() {
    let mut broken = Sudoku::from_str_line(FULL);
    broken.set_cell(0usize, Digit(3));
    assert_eq!(
        LatinSquares.generate_from(broken, SudokuConfig { cells: 81 }),
        Err(SudokuError::GenerationFailed)
    );
}

#[test]
fn random_cut_keeps_the_asked_number_of_clues() {
    let full = Sudoku::from_str_line(FULL);
    let mut rng = rand::thread_rng();
    for to_keep in [81usize, 60, 40, 17, 0] {
        let cut = LatinSquares::with_n_random_cells(full, &mut rng, to_keep).unwrap();
        assert_eq!(cut.count_filled_cells(), to_keep);
        for i in 0..81 {
            if cut.0[i].digit.is_some() {
                assert_eq!(cut.0[i], full.0[i]);
            }
        }
    }
}

#[test]
fn random_cut_of_a_sparse_board_changes_nothing() {
    let sparse = Sudoku::new_empty().with_cell(7usize, Digit(7));
    let mut rng = rand::thread_rng();
    assert_eq!(LatinSquares::with_n_random_cells(sparse, &mut rng, 40), Some(sparse));
    assert_eq!(LatinSquares::with_n_random_cells(sparse, &mut rng, 1), Some(sparse));
    let full = Sudoku::from_str_line(FULL);
    assert_eq!(LatinSquares::with_n_random_cells(full, &mut rng, 81), Some(full));
    assert_eq!(LatinSquares::with_n_random_cells(full, &mut rng, 100), Some(full));
}

#[test]
fn random_cuts_differ() {
    let full = Sudoku::from_str_line(FULL);
    let mut rng = rand::thread_rng();
    let first = LatinSquares::with_n_random_cells(full, &mut rng, 40);
    assert!(first.is_some());
    let differs = (0..50).any(|_| LatinSquares::with_n_random_cells(full, &mut rng, 40) != first);
    assert!(differs);
}

#[test]
fn carve_in_order_stops_at_the_target() {
    let full = Sudoku::from_str_line(FULL);
    let order = vec![Coord(0, 0), Coord(4, 4), Coord(8, 8)];
    let puzzle = LatinSquares::carve_in_order(full, &order, 79).unwrap();
    check_puzzle(&puzzle, 79);
    assert_eq!(puzzle.0[0].digit, None);
    assert_eq!(puzzle.0[40].digit, None);
    assert_eq!(puzzle.0[80].digit, Some(Digit(9)));
    assert!(puzzle.0[80].is_given);
    assert!(!puzzle.0[0].is_given);
}

#[test]
fn carve_in_order_passes_over_what_it_cannot_empty() {
    let full = Sudoku::from_str_line(FULL);
    // off the board, then twice the same cell, then a cell that can go
    let order = vec![Coord(9, 0), Coord(0, 9), Coord(1, 1), Coord(1, 1), Coord(2, 2)];
    let puzzle = LatinSquares::carve_in_order(full, &order, 79).unwrap();
    check_puzzle(&puzzle, 79);
    assert_eq!(puzzle.0[10].digit, None);
    assert_eq!(puzzle.0[20].digit, None);
}

#[test]
fn carve_in_order_keeps_a_clue_that_uniqueness_needs() {
    // emptying (0, 3), (0, 4), (3, 3) leaves one completion; (3, 4) as well leaves two
    let full = Sudoku::from_str_line(FULL);
    let order = vec![Coord(0, 3), Coord(0, 4), Coord(3, 3), Coord(3, 4), Coord(8, 8)];
    let puzzle = LatinSquares::carve_in_order(full, &order, 77).unwrap();
    check_puzzle(&puzzle, 77);
    assert_eq!(puzzle.0[3 * 9 + 4].digit, Some(Digit(6)));
    assert_eq!(puzzle.0[80].digit, None);
}

#[test]
fn carve_in_order_gives_up_when_the_order_runs_out() {
    let full = Sudoku::from_str_line(FULL);
    assert_eq!(LatinSquares::carve_in_order(full, &vec![Coord(0, 0)], 79), None);
    assert_eq!(LatinSquares::carve_in_order(full, &vec![], 81), None);
    // the first clue always goes, so a full board is never the outcome
    assert_eq!(LatinSquares::carve_in_order(full, &vec![Coord(0, 0)], 81), None);
}

#[test]
fn carve_tries_every_clue_in_some_order() {
    let full = Sudoku::from_str_line(FULL);
    let mut rng = rand::thread_rng();
    let mut emptied = [false; 81];
    for _ in 0..400 {
        let puzzle = LatinSquares::carve(full, &mut rng, 80).unwrap();
        check_puzzle(&puzzle, 80);
        let hole = (0..81).find(|&i| puzzle.0[i].digit.is_none()).unwrap();
        emptied[hole] = true;
    }
    assert!(emptied.iter().filter(|&&e| e).count() > 40);
}
