use soku::candidates::Candidates;
use soku::coord::Coord;
use soku::digit::Digit;
use soku::solve::{BacktrackingSolver, BruteForceSolver, Solution, Solve};
use soku::sudoku::Sudoku;

const GIVEN: &str =
    "530070000600195000098000060800060003400803001700020006060000280000419005000080079";
const ANSWER: &str =
    "534678912672195348198342567859761423426853791713924856961537284287419635345286179";
const TWO_WAYS: &str =
    "534008912672195348198342567859001423426853791713924856961537284287419635345286179";

fn digits_of(board: &Sudoku) -> String {
    board.to_str_line()
}

fn is_completion_of(solved: &Sudoku, puzzle: &Sudoku) -> bool {
    solved.is_filled()
        && solved.is_valid()
        && (0..81).all(|i| puzzle.0[i].digit.is_none() || puzzle.0[i].digit == solved.0[i].digit)
}

#[test]
fn solve_finds_the_one_completion() {
    let mut board = Sudoku::from_str_line(GIVEN);
    assert!(board.solve_with(BruteForceSolver::new()));
    assert_eq!(digits_of(&board), ANSWER);
}

#[test]
fn solve_keeps_the_marks_of_the_cells() {
    let puzzle = Sudoku::from_str_line(GIVEN);
    let mut board = puzzle;
    assert!(BruteForceSolver::new().solve(&mut board));
    for i in 0..81 {
        assert_eq!(board.0[i].is_given, puzzle.0[i].is_given);
        assert_eq!(board.0[i].coord, puzzle.0[i].coord);
        assert_eq!(board.0[i].candidates, puzzle.0[i].candidates);
    }
}

#[test]
fn solve_of_a_solved_board_changes_nothing() {
    let mut board = Sudoku::from_str_line(ANSWER);
    assert!(board.solve_with(BruteForceSolver::new()));
    assert_eq!(board, Sudoku::from_str_line(ANSWER));
}

#[test]
fn solve_of_the_empty_board_finds_some_completion() {
    let mut board = Sudoku::new_empty();
    assert!(board.solve_with(BruteForceSolver::new()));
    assert!(is_completion_of(&board, &Sudoku::new_empty()));
}

#[test]
fn solve_rejects_a_board_with_a_repeated_digit() {
    let start = Sudoku::from_str_line(GIVEN).with_cell(Coord(0, 2), Digit(5));
    let mut board = start;
    assert!(!board.is_valid());
    assert!(!board.solve_with(BruteForceSolver::new()));
    assert_eq!(board, start);
    assert_eq!(board.count_solutions(2), 0);
    assert_eq!(BruteForceSolver::new().count(&board, 2), Solution::Impossible);
}

#[test]
fn solve_leaves_a_consistent_dead_end_as_it_was() {
    // the last cell of row 0 needs a 9, and column 8 holds one already
    let mut line = String::from("123456780");
    line.push_str("000000009");
    line.push_str(&"0".repeat(63));
    let start = Sudoku::from_str_line(&line);
    assert!(start.is_valid());
    let mut board = start;
    assert!(!board.solve_with(BruteForceSolver::new()));
    assert_eq!(board, start);
    assert_eq!(board.count_solutions(5), 0);
    assert!(!board.is_unique());
}

#[test]
fn solve_fills_a_single_hole_with_its_only_candidate() {
    // cell (0, 4) of the answer holds 7
    let mut board = Sudoku::from_str_line(ANSWER);
    board.clear_cell(Coord(0, 4));
    let only: Vec<u8> = board.cell_candidates(Coord(0, 4)).digits().iter().map(|d| d.0).collect();
    assert_eq!(only, vec![7]);
    assert_eq!(BruteForceSolver::new().count(&board, 2), Solution::Unique);
    assert!(board.solve_with(BruteForceSolver::new()));
    assert_eq!(board.0[4].digit, Some(Digit(7)));
    assert_eq!(digits_of(&board), ANSWER);
}

#[test]
fn count_tells_none_one_and_many_apart() {
    let solver = BruteForceSolver::new();
    assert_eq!(solver.count(&Sudoku::from_str_line(GIVEN), 2), Solution::Unique);
    assert_eq!(solver.count(&Sudoku::from_str_line(ANSWER), 2), Solution::Unique);
    assert_eq!(solver.count(&Sudoku::from_str_line(TWO_WAYS), 2), Solution::Ambiguous(2));
    assert_eq!(solver.count(&Sudoku::from_str_line(TWO_WAYS), 10), Solution::Ambiguous(2));
    assert_eq!(solver.count(&Sudoku::new_empty(), 7), Solution::Ambiguous(7));
    assert_eq!(solver.count(&Sudoku::new_empty(), 1), Solution::Unique);
    assert_eq!(solver.count(&Sudoku::new_empty(), 0), Solution::Impossible);
}

#[test]
fn count_solutions_stops_at_the_limit() {
    assert_eq!(Sudoku::from_str_line(GIVEN).count_solutions(2), 1);
    assert_eq!(Sudoku::from_str_line(GIVEN).count_solutions(100), 1);
    assert_eq!(Sudoku::from_str_line(GIVEN).count_solutions(0), 0);
    assert_eq!(Sudoku::from_str_line(ANSWER).count_solutions(2), 1);
    assert_eq!(Sudoku::from_str_line(TWO_WAYS).count_solutions(1), 1);
    assert_eq!(Sudoku::from_str_line(TWO_WAYS).count_solutions(2), 2);
    assert_eq!(Sudoku::from_str_line(TWO_WAYS).count_solutions(3), 2);
    assert_eq!(Sudoku::new_empty().count_solutions(2), 2);
    assert_eq!(Sudoku::new_empty().count_solutions(25), 25);
}

#[test]
fn count_solutions_leaves_the_board_alone() {
    let board = Sudoku::from_str_line(TWO_WAYS);
    let copy = board;
    board.count_solutions(5);
    assert_eq!(board, copy);
}

#[test]
fn is_unique_means_exactly_one_completion() {
    assert!(Sudoku::from_str_line(GIVEN).is_unique());
    assert!(Sudoku::from_str_line(ANSWER).is_unique());
    assert!(!Sudoku::from_str_line(TWO_WAYS).is_unique());
    assert!(!Sudoku::new_empty().is_unique());
}

#[test]
fn a_full_board_that_breaks_the_rules_has_no_completion() {
    let mut board = Sudoku::from_str_line(ANSWER);
    board.set_cell(0usize, Digit(3));
    assert!(board.is_filled());
    assert_eq!(board.count_solutions(2), 0);
    assert!(!board.is_unique());
}

#[test]
fn least_candidates_picks_the_first_of_the_smallest() {
    let board = Sudoku::from_str_line(GIVEN);
    let all = board.all_candidates();
    let (index, candidates) = BruteForceSolver::cell_with_least_candidates(&board, &all).unwrap();
    let smallest = (0..81)
        .filter(|&i| board.0[i].digit.is_none())
        .map(|i| all[i].count())
        .min()
        .unwrap();
    let first = (0..81)
        .find(|&i| board.0[i].digit.is_none() && all[i].count() == smallest)
        .unwrap();
    assert_eq!(smallest, 1);
    assert_eq!(index, first);
    assert_eq!(candidates, all[first]);
}

#[test]
fn least_candidates_picks_a_cell_without_candidates_at_once() {
    let mut line = String::from("123456780");
    line.push_str("000000009");
    line.push_str(&"0".repeat(63));
    let board = Sudoku::from_str_line(&line);
    let all = board.all_candidates();
    let (index, candidates) = BruteForceSolver::cell_with_least_candidates(&board, &all).unwrap();
    assert_eq!(index, 8);
    assert_eq!(candidates, Candidates::empty());
}

#[test]
fn least_candidates_is_none_on_a_full_board() {
    let board = Sudoku::from_str_line(ANSWER);
    let all = board.all_candidates();
    assert_eq!(BruteForceSolver::cell_with_least_candidates(&board, &all), None);
}

#[test]
fn least_candidates_takes_the_first_cell_of_the_empty_board() {
    let board = Sudoku::new_empty();
    let all = board.all_candidates();
    let (index, candidates) = BruteForceSolver::cell_with_least_candidates(&board, &all).unwrap();
    assert_eq!(index, 0);
    assert_eq!(candidates, Candidates::all());
}

#[test]
fn recalculating_equals_computing_afresh() {
    let mut board = Sudoku::from_str_line(GIVEN);
    let mut all = board.all_candidates();
    let before = all.clone();
    // 4 is a candidate of cell (0, 2)
    BruteForceSolver::recalculate_all_candidates(&mut all, 2, Digit(4));
    board.set_cell(2usize, Digit(4));
    let fresh = board.all_candidates();
    for i in 0..81usize {
        if i == 2 {
            assert_eq!(all[i], before[i]);
        } else if board.0[i].digit.is_none() {
            assert_eq!(all[i], fresh[i]);
        }
    }
}

#[test]
fn recalculating_touches_only_the_three_houses() {
    let mut all = vec![Candidates::all(); 81];
    BruteForceSolver::recalculate_all_candidates(&mut all, 40, Digit(5));
    for i in 0..81usize {
        let Coord(r, c) = Coord::from_index(i);
        let shares = r == 4 || c == 4 || (r / 3 == 1 && c / 3 == 1);
        if i != 40 && shares {
            assert!(!all[i].contains(Digit(5)));
            assert_eq!(all[i].count(), 8);
        } else {
            assert_eq!(all[i], Candidates::all());
        }
    }
}

#[test]
fn solve_inner_searches_from_given_candidates() {
    let mut board = Sudoku::from_str_line(GIVEN);
    let all = board.all_candidates();
    assert!(BruteForceSolver::solve_inner(&mut board, all));
    assert_eq!(digits_of(&board), ANSWER);
}

#[test]
fn count_inner_restores_the_board() {
    let start = Sudoku::from_str_line(TWO_WAYS);
    let mut board = start;
    let all = board.all_candidates();
    assert_eq!(BruteForceSolver::count_inner(&mut board, all, 9), Solution::Ambiguous(2));
    assert_eq!(board, start);
}

#[test]
fn backtracking_finds_the_one_completion() {
    let mut board = Sudoku::from_str_line(GIVEN);
    assert!(board.solve_with(BacktrackingSolver::new()));
    assert_eq!(digits_of(&board), ANSWER);
}

#[test]
fn backtracking_leaves_a_dead_end_as_it_was() {
    let mut line = String::from("123456780");
    line.push_str("000000009");
    line.push_str(&"0".repeat(63));
    let start = Sudoku::from_str_line(&line);
    let mut board = start;
    assert!(!BacktrackingSolver::new().solve(&mut board));
    assert_eq!(board, start);
    let broken = Sudoku::from_str_line(GIVEN).with_cell(Coord(0, 2), Digit(5));
    let mut board = broken;
    assert!(!board.solve_with(BacktrackingSolver::new()));
    assert_eq!(board, broken);
}

#[test]
fn both_solvers_agree() {
    for line in [GIVEN, ANSWER, TWO_WAYS] {
        let mut a = Sudoku::from_str_line(line);
        let mut b = a;
        assert!(a.solve_with(BruteForceSolver::new()));
        assert!(b.solve_with(BacktrackingSolver::new()));
        assert_eq!(a, b);
        assert!(is_completion_of(&a, &Sudoku::from_str_line(line)));
    }
    let mut a = Sudoku::new_empty();
    let mut b = a;
    assert!(BacktrackingSolver::search(&mut a));
    assert!(b.solve_with(BruteForceSolver::new()));
    assert_eq!(a, b);
}

#[test]
fn search_takes_the_first_cell_and_the_smallest_digit_first() {
    let mut board = Sudoku::new_empty();
    assert!(board.solve_with(BruteForceSolver::new()));
    assert_eq!(
        digits_of(&board),
        "123456789456789123789123456231674895875912364694538217317265948542897631968341572"
    );
    let mut board = Sudoku::new_empty().with_cell(0usize, Digit(1)).with_cell(80usize, Digit(9));
    assert!(board.solve_with(BacktrackingSolver::new()));
    assert_eq!(
        digits_of(&board),
        "134567892256489137789123456873946521491258763562371984917832645625794318348615279"
    );
}

#[test]
fn search_on_a_board_with_two_completions_finds_the_one_with_the_smaller_digit_first() {
    let mut board = Sudoku::from_str_line(TWO_WAYS);
    assert!(board.solve_with(BruteForceSolver::new()));
    assert_eq!(digits_of(&board), ANSWER);
}
