use vstd::prelude::*;
use crate::board::color::Color;
use vstd::string::*;

verus! {

/// Which part of an algebraic square name was malformed.
#[derive(Clone, Copy, PartialEq, Eq, Structural, Debug)]
pub enum MalformedReason {
    WrongLength,
    BadFileLetter,
    BadRankDigit,
}

/// Errors from the validated square factories.
#[derive(Clone, Copy, PartialEq, Eq, Structural, Debug)]
pub enum CoordinateError {
    RowOutOfRange,
    ColumnOutOfRange,
    MalformedAlgebraic(MalformedReason),
}

/// A board coordinate: row and column both in [0, 8). Values exist only
/// through the validated factories, so every reachable `Square` is well
/// formed.
#[derive(Clone, Copy, PartialEq, Eq, Structural, Debug)]
pub struct Square {
    row: u8,
    col: u8,
}

/// The column selected by an algebraic file letter, `a` through `h`.
pub open spec fn col_of_letter(c: char) -> Option<u8> {
    match c {
        'a' => Some(0u8),
        'b' => Some(1u8),
        'c' => Some(2u8),
        'd' => Some(3u8),
        'e' => Some(4u8),
        'f' => Some(5u8),
        'g' => Some(6u8),
        'h' => Some(7u8),
        _ => None,
    }
}

/// The row selected by an algebraic rank digit, `1` through `8`.
pub open spec fn row_of_digit(c: char) -> Option<u8> {
    match c {
        '1' => Some(0u8),
        '2' => Some(1u8),
        '3' => Some(2u8),
        '4' => Some(3u8),
        '5' => Some(4u8),
        '6' => Some(5u8),
        '7' => Some(6u8),
        '8' => Some(7u8),
        _ => None,
    }
}

/// The file letter of a column, `a` for column 0 up to `h` for column 7.
pub open spec fn file_char(col: u8) -> char {
    if col == 0 {
        'a'
    } else if col == 1 {
        'b'
    } else if col == 2 {
        'c'
    } else if col == 3 {
        'd'
    } else if col == 4 {
        'e'
    } else if col == 5 {
        'f'
    } else if col == 6 {
        'g'
    } else {
        'h'
    }
}

/// The rank digit of a row, `1` for row 0 up to `8` for row 7.
pub open spec fn rank_char(row: u8) -> char {
    if row == 0 {
        '1'
    } else if row == 1 {
        '2'
    } else if row == 2 {
        '3'
    } else if row == 3 {
        '4'
    } else if row == 4 {
        '5'
    } else if row == 5 {
        '6'
    } else if row == 6 {
        '7'
    } else {
        '8'
    }
}

/// The algebraic name of the square at (row, col): file letter then rank
/// digit.
pub open spec fn alg_chars(row: u8, col: u8) -> Seq<char> {
    seq![file_char(col), rank_char(row)]
}

/// The (row, col) pair named by an algebraic square string, or the exact
/// reason it is rejected: a string of a length other than two, a first
/// character outside `a`..`h`, or a second character outside `1`..`8`.
pub open spec fn alg_parse(s: Seq<char>) -> Result<(u8, u8), CoordinateError> {
    if s.len() != 2 {
        Err(CoordinateError::MalformedAlgebraic(MalformedReason::WrongLength))
    } else {
        match col_of_letter(s[0]) {
            None => Err(CoordinateError::MalformedAlgebraic(MalformedReason::BadFileLetter)),
            Some(col) => match row_of_digit(s[1]) {
                None => Err(CoordinateError::MalformedAlgebraic(MalformedReason::BadRankDigit)),
                Some(row) => Ok((row, col)),
            },
        }
    }
}

impl Square {
    /// The row, in [0, 8) for any square built by the factories.
    pub closed spec fn spec_row(self) -> u8 {
        self.row
    }

    /// The column, in [0, 8) for any square built by the factories.
    pub closed spec fn spec_col(self) -> u8 {
        self.col
    }

    pub open spec fn wf(self) -> bool {
        self.spec_row() < 8 && self.spec_col() < 8
    }

    /// The linear board index, row * 8 + col, a bijection onto [0, 64).
    pub open spec fn index_spec(self) -> int {
        self.spec_row() as int * 8 + self.spec_col() as int
    }

    /// The square at (row, col); rejects a row or a column outside [0, 8),
    /// the row checked first.
    pub fn from_coord(row: u8, col: u8) -> (r: Result<Square, CoordinateError>)
        ensures
            match r {
                Ok(sq) => row < 8 && col < 8 && sq.spec_row() == row && sq.spec_col() == col,
                Err(e) => (row >= 8 && e == CoordinateError::RowOutOfRange) || (row < 8 && col
                    >= 8 && e == CoordinateError::ColumnOutOfRange),
            },
    {
        if row >= 8 {
            Err(CoordinateError::RowOutOfRange)
        } else if col >= 8 {
            Err(CoordinateError::ColumnOutOfRange)
        } else {
            Ok(Square { row, col })
        }
    }

    /// The square named by a two-character algebraic string such as "e4":
    /// a file letter `a`..`h` then a rank digit `1`..`8`.
    pub fn from_algebraic(s: &str) -> (r: Result<Square, CoordinateError>)
        ensures
            match r {
                Ok(sq) => alg_parse(s@) == Ok::<(u8, u8), CoordinateError>(
                    (sq.spec_row(), sq.spec_col()),
                ) && sq.wf(),
                Err(e) => alg_parse(s@) == Err::<(u8, u8), CoordinateError>(e),
            },
    {
        let n = s.unicode_len();
        if n != 2 {
            return Err(CoordinateError::MalformedAlgebraic(MalformedReason::WrongLength));
        }
        let letter = s.get_char(0);
        let digit = s.get_char(1);
        match letter_to_col(letter) {
            None => Err(CoordinateError::MalformedAlgebraic(MalformedReason::BadFileLetter)),
            Some(col) => match digit_to_row(digit) {
                None => Err(CoordinateError::MalformedAlgebraic(MalformedReason::BadRankDigit)),
                Some(row) => Ok(Square { row, col }),
            },
        }
    }

    /// The linear index of the square, unique to each square.
    pub fn to_index(self) -> (i: usize)
        requires
            self.wf(),
        ensures
            i == self.index_spec(),
            i < 64,
    {
        (self.row as usize) * 8 + (self.col as usize)
    }

    /// The color of the square itself on the standard alternating board:
    /// black when row + col is even (a1 is dark), white otherwise.
    pub open spec fn color_spec(self) -> Color {
        if (self.spec_row() + self.spec_col()) % 2 == 0 {
            Color::Black
        } else {
            Color::White
        }
    }

    pub fn color(self) -> (c: Color)
        requires
            self.wf(),
        ensures
            c == self.color_spec(),
    {
        let n = self.row + self.col;
        if n % 2 == 0 {
            Color::Black
        } else {
            Color::White
        }
    }

    /// The algebraic name of the square, the inverse of `from_algebraic`.
    pub fn to_algebraic(self) -> (r: String)
        requires
            self.wf(),
        ensures
            r@ == alg_chars(self.spec_row(), self.spec_col()),
    {
        let mut out = String::new();
        append_file_char(&mut out, self.col);
        append_rank_char(&mut out, self.row);
        proof {
            assert(out@ =~= alg_chars(self.spec_row(), self.spec_col()));
        }
        out
    }
}

/// The column of a file letter, or `None` outside `a`..`h`.
fn letter_to_col(c: char) -> (r: Option<u8>)
    ensures
        r == col_of_letter(c),
{
    match c {
        'a' => Some(0),
        'b' => Some(1),
        'c' => Some(2),
        'd' => Some(3),
        'e' => Some(4),
        'f' => Some(5),
        'g' => Some(6),
        'h' => Some(7),
        _ => None,
    }
}

/// The row of a rank digit, or `None` outside `1`..`8`.
fn digit_to_row(c: char) -> (r: Option<u8>)
    ensures
        r == row_of_digit(c),
{
    match c {
        '1' => Some(0),
        '2' => Some(1),
        '3' => Some(2),
        '4' => Some(3),
        '5' => Some(4),
        '6' => Some(5),
        '7' => Some(6),
        '8' => Some(7),
        _ => None,
    }
}

/// Appends the file letter of a column.
fn append_file_char(out: &mut String, col: u8)
    requires
        col < 8,
    ensures
        final(out)@ == old(out)@ + seq![file_char(col)],
{
    if col == 0 {
        out.append("a");
        proof {
            reveal_strlit("a");
            assert("a"@ =~= seq![file_char(col)]);
        }
    } else if col == 1 {
        out.append("b");
        proof {
            reveal_strlit("b");
            assert("b"@ =~= seq![file_char(col)]);
        }
    } else if col == 2 {
        out.append("c");
        proof {
            reveal_strlit("c");
            assert("c"@ =~= seq![file_char(col)]);
        }
    } else if col == 3 {
        out.append("d");
        proof {
            reveal_strlit("d");
            assert("d"@ =~= seq![file_char(col)]);
        }
    } else if col == 4 {
        out.append("e");
        proof {
            reveal_strlit("e");
            assert("e"@ =~= seq![file_char(col)]);
        }
    } else if col == 5 {
        out.append("f");
        proof {
            reveal_strlit("f");
            assert("f"@ =~= seq![file_char(col)]);
        }
    } else if col == 6 {
        out.append("g");
        proof {
            reveal_strlit("g");
            assert("g"@ =~= seq![file_char(col)]);
        }
    } else {
        out.append("h");
        proof {
            reveal_strlit("h");
            assert("h"@ =~= seq![file_char(col)]);
        }
    }
}

/// Appends the rank digit of a row.
fn append_rank_char(out: &mut String, row: u8)
    requires
        row < 8,
    ensures
        final(out)@ == old(out)@ + seq![rank_char(row)],
{
    if row == 0 {
        out.append("1");
        proof {
            reveal_strlit("1");
            assert("1"@ =~= seq![rank_char(row)]);
        }
    } else if row == 1 {
        out.append("2");
        proof {
            reveal_strlit("2");
            assert("2"@ =~= seq![rank_char(row)]);
        }
    } else if row == 2 {
        out.append("3");
        proof {
            reveal_strlit("3");
            assert("3"@ =~= seq![rank_char(row)]);
        }
    } else if row == 3 {
        out.append("4");
        proof {
            reveal_strlit("4");
            assert("4"@ =~= seq![rank_char(row)]);
        }
    } else if row == 4 {
        out.append("5");
        proof {
            reveal_strlit("5");
            assert("5"@ =~= seq![rank_char(row)]);
        }
    } else if row == 5 {
        out.append("6");
        proof {
            reveal_strlit("6");
            assert("6"@ =~= seq![rank_char(row)]);
        }
    } else if row == 6 {
        out.append("7");
        proof {
            reveal_strlit("7");
            assert("7"@ =~= seq![rank_char(row)]);
        }
    } else {
        out.append("8");
        proof {
            reveal_strlit("8");
            assert("8"@ =~= seq![rank_char(row)]);
        }
    }
}

/// Index bijection, injectivity: two well-formed squares with the same
/// linear index are the same square.
pub proof fn lemma_index_injective(a: Square, b: Square)
    requires
        a.wf(),
        b.wf(),
        a.index_spec() == b.index_spec(),
    ensures
        a == b,
{
    assert(a.spec_row() == b.spec_row() && a.spec_col() == b.spec_col());
}

/// Index bijection, range: a well-formed square's linear index lies in
/// [0, 64).
pub proof fn lemma_index_bounds(a: Square)
    requires
        a.wf(),
    ensures
        0 <= a.index_spec() < 64,
{
}

/// Index bijection, surjectivity: every value in [0, 64) is the linear
/// index of some well-formed square.
pub proof fn lemma_index_surjective(i: int)
    requires
        0 <= i < 64,
    ensures
        exists|sq: Square| sq.wf() && #[trigger] sq.index_spec() == i,
{
    let sq = Square { row: (i / 8) as u8, col: (i % 8) as u8 };
    assert(sq.wf() && sq.index_spec() == i);
}

/// Algebraic round trip: writing a valid square's algebraic name and
/// parsing it back returns the same coordinates.
pub proof fn lemma_algebraic_round_trip(row: u8, col: u8)
    requires
        row < 8,
        col < 8,
    ensures
        alg_parse(alg_chars(row, col)) == Ok::<(u8, u8), CoordinateError>((row, col)),
{
}

} // verus!
