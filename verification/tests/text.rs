use soku::coord::Coord;
use soku::digit::Digit;
use soku::error::ParseError;
use soku::sudoku::Sudoku;

const CLUES: &str =
    "530070000600195000098000060800060003400803001700020006060000280000419005000080079";
const FILLED: &str =
    "534678912672195348198342567859761423426853791713924856961537284287419635345286179";

#[test]
fn line_holds_the_digits_in_row_major_order() {
    let board = Sudoku::new_empty()
        .with_cell(Coord(0, 0), Digit(5))
        .with_cell(Coord(0, 8), Digit(1))
        .with_cell(Coord(8, 8), Digit(9));
    let line = board.to_str_line();
    assert_eq!(line.len(), 81);
    let mut expected = String::from("500000001");
    expected.push_str(&"0".repeat(71));
    expected.push('9');
    assert_eq!(line, expected);
}

#[test]
fn parsing_marks_the_clues_as_given() {
    let board = Sudoku::from_str_line(CLUES);
    for (i, c) in CLUES.chars().enumerate() {
        let cell = board.0[i];
        assert_eq!(cell.coord, Coord(i / 9, i % 9));
        assert_eq!(cell.is_given, c != '0');
        assert_eq!(cell.digit.map_or(0, |d| d.0), c.to_digit(10).unwrap() as u8);
    }
}

#[test]
fn line_round_trips_a_partly_filled_board() {
    let board = Sudoku::from_str_line(CLUES);
    assert_eq!(board.to_str_line(), CLUES);
    assert_eq!(Sudoku::from_str_line(&board.to_str_line()), board);
}

#[test]
fn line_round_trips_a_full_and_an_empty_board() {
    let full = Sudoku::from_str_line(FILLED);
    assert_eq!(full.to_str_line(), FILLED);
    assert_eq!(Sudoku::from_str_line(&full.to_str_line()), full);
    let empty = Sudoku::new_empty();
    assert_eq!(empty.to_str_line(), "0".repeat(81));
    assert_eq!(Sudoku::from_str_line(&empty.to_str_line()), empty);
}

#[test]
fn digits_round_trip_whatever_the_marks() {
    // a board filled by hand: its cells are not marked as given
    let board = Sudoku::new_empty().with_cell(3usize, Digit(7)).with_cell(44usize, Digit(2));
    let back = Sudoku::from_str_line(&board.to_str_line());
    assert_eq!(back.to_str_line(), board.to_str_line());
    for i in 0..81 {
        assert_eq!(back.0[i].digit, board.0[i].digit);
    }
    assert_ne!(back, board);
}

#[test]
fn try_from_str_line_accepts_a_line() {
    assert_eq!(Sudoku::try_from_str_line(CLUES), Ok(Sudoku::from_str_line(CLUES)));
}

#[test]
fn try_from_str_line_reports_the_length() {
    assert_eq!(Sudoku::try_from_str_line(""), Err(ParseError::InvalidLength { len: 0 }));
    assert_eq!(
        Sudoku::try_from_str_line(&CLUES[..80]),
        Err(ParseError::InvalidLength { len: 80 })
    );
    let long = format!("{}0", CLUES);
    assert_eq!(Sudoku::try_from_str_line(&long), Err(ParseError::InvalidLength { len: 82 }));
}

#[test]
fn try_from_str_line_reports_the_first_bad_character() {
    let mut line = String::from(CLUES);
    line.replace_range(10..11, "x");
    line.replace_range(50..51, ".");
    assert_eq!(
        Sudoku::try_from_str_line(&line),
        Err(ParseError::InvalidChar { char: 'x', index: 10 })
    );
    let mut dotted = String::from(CLUES);
    dotted.replace_range(80..81, ".");
    assert_eq!(
        Sudoku::try_from_str_line(&dotted),
        Err(ParseError::InvalidChar { char: '.', index: 80 })
    );
}

#[test]
fn try_from_str_line_counts_characters_not_bytes() {
    let mut line = String::from("\u{e9}");
    line.push_str(&"0".repeat(80));
    assert_eq!(
        Sudoku::try_from_str_line(&line),
        Err(ParseError::InvalidChar { char: '\u{e9}', index: 0 })
    );
}

#[test]
fn render_draws_the_grid() {
    let board = Sudoku::from_str_line(CLUES);
    let expected = ".-----.-----.-----.\n\
                    |5 3 .|. 7 .|. . .|\n\
                    |6 . .|1 9 5|. . .|\n\
                    |. 9 8|. . .|. 6 .|\n\
                    :----- ----- -----:\n\
                    |8 . .|. 6 .|. . 3|\n\
                    |4 . .|8 . 3|. . 1|\n\
                    |7 . .|. 2 .|. . 6|\n\
                    :----- ----- -----:\n\
                    |. 6 .|. . .|2 8 .|\n\
                    |. . .|4 1 9|. . 5|\n\
                    |. . .|. 8 .|. 7 9|\n\
                    '-----'-----'-----'";
    assert_eq!(board.render(), expected);
}

#[test]
fn render_of_the_empty_board_shows_dots() {
    let text = Sudoku::new_empty().render();
    let lines: Vec<&str> = text.split('\n').collect();
    assert_eq!(lines.len(), 13);
    assert_eq!(lines[0], ".-----.-----.-----.");
    assert_eq!(lines[1], "|. . .|. . .|. . .|");
    assert_eq!(lines[4], ":----- ----- -----:");
    assert_eq!(lines[8], ":----- ----- -----:");
    assert_eq!(lines[11], "|. . .|. . .|. . .|");
    assert_eq!(lines[12], "'-----'-----'-----'");
    assert!(!text.ends_with('\n'));
}
