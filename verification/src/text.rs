//! Boards as text: the line of 81 digits, and the grid for reading.

use vstd::prelude::*;
use vstd::string::StringExecFns;
use vstd::string::StrSliceExecFns;

use crate::candidates::Candidates;
use crate::consts::{GRID_SIZE, HOUSE_SIZE, SQUARE_SIZE};
use crate::coord::Coord;
use crate::digit::Digit;
use crate::error::ParseError;
use crate::rules::is_grid;
use crate::sudoku::Sudoku;

verus! {

/// The character that stands for `value` in a line: `'0'` for an empty
/// cell, else the digit.
pub open spec fn digit_char(value: u8) -> char {
    if value == 0 {
        '0'
    } else if value == 1 {
        '1'
    } else if value == 2 {
        '2'
    } else if value == 3 {
        '3'
    } else if value == 4 {
        '4'
    } else if value == 5 {
        '5'
    } else if value == 6 {
        '6'
    } else if value == 7 {
        '7'
    } else if value == 8 {
        '8'
    } else {
        '9'
    }
}

/// The value that `c` stands for in a line, if it stands for one.
pub open spec fn char_value(c: char) -> Option<u8> {
    if c == '0' {
        Some(0u8)
    } else if c == '1' {
        Some(1u8)
    } else if c == '2' {
        Some(2u8)
    } else if c == '3' {
        Some(3u8)
    } else if c == '4' {
        Some(4u8)
    } else if c == '5' {
        Some(5u8)
    } else if c == '6' {
        Some(6u8)
    } else if c == '7' {
        Some(7u8)
    } else if c == '8' {
        Some(8u8)
    } else if c == '9' {
        Some(9u8)
    } else {
        None
    }
}

/// The character that stands for `value` in the grid for reading: `'.'`
/// for an empty cell, else the digit.
pub open spec fn cell_char(value: u8) -> char {
    if value == 0 {
        '.'
    } else {
        digit_char(value)
    }
}

/// 81 characters, each one of `'0'..='9'`.
pub open spec fn is_line(line: Seq<char>) -> bool {
    &&& line.len() == 81
    &&& forall|i: int| 0 <= i < 81 ==> char_value(#[trigger] line[i]) is Some
}

/// The line that stands for grid `g`.
pub open spec fn line_of(g: Seq<u8>) -> Seq<char> {
    Seq::new(81, |i: int| digit_char(g[i]))
}

/// The grid that `line` stands for.
pub open spec fn grid_of(line: Seq<char>) -> Seq<u8> {
    Seq::new(81, |i: int| char_value(line[i]).unwrap())
}

/// `board` is what `line` parses to: it holds the digits of `line`, and
/// its cells know their places, are given exactly where they hold a
/// digit, and cache no candidates.
pub open spec fn is_parsed_from(board: Sudoku, line: Seq<char>) -> bool {
    &&& board.wf()
    &&& board.is_plain()
    &&& board@ == grid_of(line)
}

/// One row of the grid for reading: twenty characters.
pub open spec fn rendered_row(g: Seq<u8>, row: int) -> Seq<char> {
    Seq::new(
        20,
        |k: int|
            if k == 0 {
                '|'
            } else if k == 19 {
                '\n'
            } else if k % 2 == 1 {
                cell_char(g[row * 9 + (k - 1) / 2])
            } else if k % 6 == 0 {
                '|'
            } else {
                ' '
            },
    )
}

/// The first `rows` rows of the grid for reading, with the line that
/// parts the boxes after every third row but the last.
pub open spec fn rendered_rows(g: Seq<u8>, rows: int) -> Seq<char>
    decreases rows,
{
    if rows <= 0 {
        Seq::empty()
    } else {
        rendered_rows(g, rows - 1) + rendered_row(g, rows - 1) + if rows % 3 == 0 && rows < 9 {
            ":----- ----- -----:\n"@
        } else {
            Seq::empty()
        }
    }
}

/// The grid for reading.
pub open spec fn rendered(g: Seq<u8>) -> Seq<char> {
    ".-----.-----.-----.\n"@ + rendered_rows(g, 9) + "'-----'-----'-----'"@
}

/// A grid comes back from its line.
pub proof fn lemma_grid_round_trip(g: Seq<u8>)
    requires
        is_grid(g),
    ensures
        is_line(line_of(g)),
        grid_of(line_of(g)) == g,
{
    assert forall|i: int| 0 <= i < 81 implies char_value(#[trigger] line_of(g)[i]) == Some(
        g[i],
    ) by {
        assert(g[i] <= 9);
    }
    assert(grid_of(line_of(g)) =~= g);
}

/// A line comes back from its grid.
pub proof fn lemma_line_round_trip(line: Seq<char>)
    requires
        is_line(line),
    ensures
        is_grid(grid_of(line)),
        line_of(grid_of(line)) == line,
{
    assert forall|i: int| 0 <= i < 81 implies grid_of(line)[i] <= 9 && digit_char(
        grid_of(line)[i],
    ) == #[trigger] line[i] by {
        assert(char_value(line[i]) is Some);
    }
    assert(line_of(grid_of(line)) =~= line);
}

/// A board whose cells know their places, are given exactly where they
/// hold a digit, and cache no candidates, is what its own line parses to.
pub proof fn lemma_round_trip(board: Sudoku, parsed: Sudoku)
    requires
        board.wf(),
        board.is_plain(),
        is_parsed_from(parsed, line_of(board@)),
    ensures
        parsed == board,
{
    board.lemma_view();
    lemma_grid_round_trip(board@);
    assert forall|i: int| 0 <= i < 81 implies #[trigger] parsed.0[i] == board.0[i] by {
        assert(parsed@[i] == board@[i]);
        assert(parsed.0[i].wf());
        assert(board.0[i].wf());
    }
    assert(parsed.0 =~= board.0);
}

fn value_str(value: u8) -> (r: &'static str)
    requires
        value <= 9,
    ensures
        r@ == seq![digit_char(value)],
{
    proof {
        reveal_strlit("0");
        reveal_strlit("1");
        reveal_strlit("2");
        reveal_strlit("3");
        reveal_strlit("4");
        reveal_strlit("5");
        reveal_strlit("6");
        reveal_strlit("7");
        reveal_strlit("8");
        reveal_strlit("9");
    }
    let r = if value == 0 {
        "0"
    } else if value == 1 {
        "1"
    } else if value == 2 {
        "2"
    } else if value == 3 {
        "3"
    } else if value == 4 {
        "4"
    } else if value == 5 {
        "5"
    } else if value == 6 {
        "6"
    } else if value == 7 {
        "7"
    } else if value == 8 {
        "8"
    } else {
        "9"
    };
    assert(r@ =~= seq![digit_char(value)]);
    r
}

fn value_of_char(c: char) -> (r: Option<u8>)
    ensures
        r == char_value(c),
{
    if c == '0' {
        Some(0u8)
    } else if c == '1' {
        Some(1u8)
    } else if c == '2' {
        Some(2u8)
    } else if c == '3' {
        Some(3u8)
    } else if c == '4' {
        Some(4u8)
    } else if c == '5' {
        Some(5u8)
    } else if c == '6' {
        Some(6u8)
    } else if c == '7' {
        Some(7u8)
    } else if c == '8' {
        Some(8u8)
    } else if c == '9' {
        Some(9u8)
    } else {
        None
    }
}

impl Sudoku {
    /// The board as a line of 81 characters in row-major order, `'0'` for
    /// an empty cell.
    pub fn to_str_line(&self) -> (r: String)
        requires
            self.wf(),
        ensures
            r@ == line_of(self@),
    {
        let mut out = String::new();
        let mut index: usize = 0;
        while index < GRID_SIZE
            invariant
                index <= 81,
                self.wf(),
                out@ == line_of(self@).subrange(0, index as int),
            decreases 81 - index,
        {
            assert(self.0[index as int].wf());
            let value = match self.0[index].digit {
                Some(d) => d.0,
                None => 0,
            };
            out.append(value_str(value));
            index += 1;
            assert(out@ =~= line_of(self@).subrange(0, index as int));
        }
        assert(line_of(self@).subrange(0, 81) =~= line_of(self@));
        out
    }

    /// The board that a line of 81 digit characters stands for, or why
    /// the string is no such line: its length, if that is not 81, else
    /// its first character that is no digit.
    pub fn try_from_str_line(s: &str) -> (r: Result<Sudoku, ParseError>)
        ensures
            match r {
                Ok(board) => is_line(s@) && is_parsed_from(board, s@),
                Err(ParseError::InvalidLength { len }) => s@.len() != 81 && len == s@.len(),
                Err(ParseError::InvalidChar { char, index }) => s@.len() == 81 && index < 81
                    && char == s@[index as int] && char_value(char) is None && forall|j: int|
                    0 <= j < index ==> char_value(#[trigger] s@[j]) is Some,
            },
    {
        let len = s.unicode_len();
        if len != GRID_SIZE {
            return Err(ParseError::InvalidLength { len });
        }
        let mut board = Sudoku::new_empty();
        let mut index: usize = 0;
        while index < GRID_SIZE
            invariant
                index <= 81,
                s@.len() == 81,
                forall|j: int| 0 <= j < index ==> char_value(#[trigger] s@[j]) is Some,
                forall|j: int|
                    index <= j < 81 ==> #[trigger] board.0[j] == Sudoku::blank_cell(j),
                forall|j: int|
                    0 <= j < index ==> (#[trigger] board.0[j]).wf() && board.0[j].value()
                        == char_value(s@[j]).unwrap() && board.0[j].coord == Coord(
                        (j / 9) as usize,
                        (j % 9) as usize,
                    ) && board.0[j].is_given == (board.0[j].digit is Some)
                        && board.0[j].candidates == Candidates::empty(),
            decreases 81 - index,
        {
            let c = s.get_char(index);
            match value_of_char(c) {
                Some(value) => {
                    if value != 0 {
                        board.0[index].digit = Some(Digit::new_unchecked(value));
                        board.0[index].is_given = true;
                    }
                },
                None => {
                    return Err(ParseError::InvalidChar { char: c, index });
                },
            }
            index += 1;
        }
        proof {
            assert(board@ =~= grid_of(s@));
        }
        Ok(board)
    }

    /// The board that a line of 81 digit characters stands for.
    pub fn from_str_line(s: &str) -> (r: Sudoku)
        requires
            is_line(s@),
        ensures
            is_parsed_from(r, s@),
    {
        match Self::try_from_str_line(s) {
            Ok(board) => board,
            Err(_) => unreached(),
        }
    }

    /// The board as a grid for reading: a frame, a line between the
    /// bands of boxes, and `.` for an empty cell.
    pub fn render(&self) -> (r: String)
        requires
            self.wf(),
        ensures
            r@ == rendered(self@),
    {
        let mut out = String::from_str(".-----.-----.-----.\n");
        let mut row: usize = 0;
        while row < HOUSE_SIZE
            invariant
                row <= 9,
                self.wf(),
                out@ == ".-----.-----.-----.\n"@ + rendered_rows(self@, row as int),
            decreases 9 - row,
        {
            let ghost before = out@;
            out.append("|");
            proof {
                reveal_strlit("|");
                assert(out@ =~= before + rendered_row(self@, row as int).subrange(0, 1));
            }
            let mut col: usize = 0;
            while col < HOUSE_SIZE
                invariant
                    col <= 9,
                    row < 9,
                    self.wf(),
                    out@ == before + rendered_row(self@, row as int).subrange(0, 1 + 2 * col),
                decreases 9 - col,
            {
                proof {
                    reveal_strlit(".");
                    reveal_strlit("|");
                    reveal_strlit(" ");
                }
                assert(self.0[row * 9 + col].wf());
                match self.0[row * HOUSE_SIZE + col].digit {
                    Some(digit) => out.append(value_str(digit.0)),
                    None => out.append("."),
                }
                if (col + 1) % SQUARE_SIZE == 0 {
                    out.append("|");
                } else {
                    out.append(" ");
                }
                col += 1;
                assert(out@ =~= before + rendered_row(self@, row as int).subrange(0, 1 + 2 * col));
            }
            out.append("\n");
            proof {
                reveal_strlit("\n");
                assert(out@ =~= before + rendered_row(self@, row as int));
            }
            if row < HOUSE_SIZE - 1 && (row + 1) % SQUARE_SIZE == 0 {
                out.append(":----- ----- -----:\n");
            }
            row += 1;
            proof {
                assert(out@ =~= ".-----.-----.-----.\n"@ + rendered_rows(self@, row as int));
            }
        }
        out.append("'-----'-----'-----'");
        out
    }
}

} // verus!
