use vstd::prelude::*;
use vstd::string::*;
use crate::board::Board;
use crate::board::color::Color;
use crate::board::piece::{ColoredPiece, Piece};
use crate::board::square::{
    alg_chars, alg_parse, lemma_algebraic_round_trip, CoordinateError, Square,
};

verus! {

/// Why a FEN string was rejected: which field or rank failed, and how.
/// `WrongFieldCount` and `WrongRowCount` carry the count found;
/// `IncorrectRowLength` carries the zero-based row (rank minus one);
/// `UnknownPieceLetter` the offending character; `InvalidEnPassantField`
/// the underlying coordinate error as its cause.
#[derive(Clone, Copy, PartialEq, Eq, Structural, Debug)]
pub enum FenParseError {
    WrongFieldCount(usize),
    WrongRowCount(usize),
    IncorrectRowLength(u8),
    UnknownPieceLetter(char),
    InvalidTurnField,
    InvalidCastlingField,
    InvalidEnPassantField(CoordinateError),
    InvalidHalfmoveField,
    InvalidFullmoveField,
}

// ---------------------------------------------------------------------------
// Splitting a string at a separator character.
// ---------------------------------------------------------------------------

/// True when no character of `s` is `c`.
pub open spec fn no_char(s: Seq<char>, c: char) -> bool {
    forall|i: int| 0 <= i < s.len() ==> s[i] != c
}

/// The pieces of `s` between occurrences of `sep`: one piece more than there
/// are separators, in order, each piece free of `sep`.
pub open spec fn split_on(s: Seq<char>, sep: char) -> Seq<Seq<char>>
    decreases s.len(),
{
    if s.len() == 0 {
        seq![Seq::<char>::empty()]
    } else if s[0] == sep {
        seq![Seq::<char>::empty()] + split_on(s.skip(1), sep)
    } else {
        let rest = split_on(s.skip(1), sep);
        seq![seq![s[0]] + rest[0]] + rest.skip(1)
    }
}

/// The pieces joined back together with `sep` between them.
pub open spec fn join_with(parts: Seq<Seq<char>>, sep: char) -> Seq<char>
    decreases parts.len(),
{
    if parts.len() <= 1 {
        if parts.len() == 0 {
            Seq::empty()
        } else {
            parts[0]
        }
    } else {
        parts[0] + seq![sep] + join_with(parts.skip(1), sep)
    }
}

pub proof fn lemma_split_on_len(s: Seq<char>, sep: char)
    ensures
        split_on(s, sep).len() >= 1,
    decreases s.len(),
{
    if s.len() != 0 {
        lemma_split_on_len(s.skip(1), sep);
    }
}

/// Splitting after a separator-free prefix: the prefix lands entirely in the
/// first piece.
proof fn lemma_split_on_prefix(a: Seq<char>, t: Seq<char>, sep: char)
    requires
        no_char(a, sep),
    ensures
        split_on(a + t, sep) == seq![a + split_on(t, sep)[0]] + split_on(t, sep).skip(1),
    decreases a.len(),
{
    lemma_split_on_len(t, sep);
    if a.len() == 0 {
        assert(a + t =~= t);
        assert(a + split_on(t, sep)[0] =~= split_on(t, sep)[0]);
        assert(seq![split_on(t, sep)[0]] + split_on(t, sep).skip(1) =~= split_on(t, sep));
    } else {
        let s = a + t;
        assert(s[0] == a[0]);
        assert(s.skip(1) =~= a.skip(1) + t);
        lemma_split_on_prefix(a.skip(1), t, sep);
        let rest = split_on(a.skip(1) + t, sep);
        assert(rest[0] == a.skip(1) + split_on(t, sep)[0]);
        assert(seq![s[0]] + rest[0] =~= a + split_on(t, sep)[0]);
        assert(rest.skip(1) =~= split_on(t, sep).skip(1));
        assert(split_on(s, sep) =~= seq![a + split_on(t, sep)[0]] + split_on(t, sep).skip(1));
    }
}

/// Split is the inverse of join: joining separator-free pieces with `sep`
/// and splitting again returns exactly those pieces.
pub proof fn lemma_split_join(parts: Seq<Seq<char>>, sep: char)
    requires
        parts.len() >= 1,
        forall|i: int| 0 <= i < parts.len() ==> no_char(#[trigger] parts[i], sep),
    ensures
        split_on(join_with(parts, sep), sep) == parts,
    decreases parts.len(),
{
    if parts.len() == 1 {
        let a = parts[0];
        lemma_split_on_prefix(a, Seq::empty(), sep);
        assert(a + Seq::<char>::empty() =~= a);
        assert(join_with(parts, sep) == a);
        assert(split_on(Seq::empty(), sep) == seq![Seq::<char>::empty()]);
        assert(a + split_on(Seq::empty(), sep)[0] =~= a);
        assert(split_on(a, sep) =~= seq![a]);
        assert(seq![a] =~= parts);
    } else {
        let a = parts[0];
        let t = seq![sep] + join_with(parts.skip(1), sep);
        assert(join_with(parts, sep) =~= a + t);
        lemma_split_join(parts.skip(1), sep);
        assert(t[0] == sep);
        assert(t.skip(1) =~= join_with(parts.skip(1), sep));
        assert(split_on(t, sep) == seq![Seq::<char>::empty()] + split_on(
            join_with(parts.skip(1), sep),
            sep,
        ));
        lemma_split_on_prefix(a, t, sep);
        assert(split_on(t, sep)[0] == Seq::<char>::empty());
        assert(a + split_on(t, sep)[0] =~= a);
        assert(split_on(t, sep).skip(1) =~= parts.skip(1));
        assert(split_on(a + t, sep) =~= seq![a] + parts.skip(1));
        assert(seq![a] + parts.skip(1) =~= parts);
    }
}

/// Joining pieces that avoid a character, with a separator other than that
/// character, yields text that avoids it too.
pub proof fn lemma_join_no_char(parts: Seq<Seq<char>>, sep: char, c: char)
    requires
        sep != c,
        forall|i: int| 0 <= i < parts.len() ==> no_char(#[trigger] parts[i], c),
    ensures
        no_char(join_with(parts, sep), c),
    decreases parts.len(),
{
    if parts.len() > 1 {
        lemma_join_no_char(parts.skip(1), sep, c);
        let j = join_with(parts, sep);
        assert forall|i: int| 0 <= i < j.len() implies j[i] != c by {
            if i < parts[0].len() {
                assert(parts[0][i] != c);
            } else if i == parts[0].len() {
                assert(j[i] == sep);
            } else {
                let r = join_with(parts.skip(1), sep);
                assert(j[i] == r[i - parts[0].len() - 1]);
            }
        }
    }
}

spec fn prepend_first(c: Seq<char>, l: Seq<Seq<char>>) -> Seq<Seq<char>>
    recommends
        l.len() >= 1,
{
    seq![c + l[0]] + l.skip(1)
}

spec fn str_views(parts: Seq<&str>) -> Seq<Seq<char>> {
    parts.map_values(|p: &str| p@)
}

/// Splits a string at every occurrence of `sep`, as `split_on` describes.
fn split_str<'a>(s: &'a str, sep: char) -> (parts: Vec<&'a str>)
    ensures
        parts@.len() == split_on(s@, sep).len(),
        forall|i: int| 0 <= i < parts@.len() ==> parts@[i]@ == split_on(s@, sep)[i],
{
    let n = s.unicode_len();
    let mut parts: Vec<&'a str> = Vec::new();
    let mut start: usize = 0;
    let mut i: usize = 0;
    proof {
        lemma_split_on_len(s@, sep);
        assert(s@.skip(0) =~= s@);
        assert(s@.subrange(0, 0) =~= Seq::<char>::empty());
        assert(str_views(parts@) + prepend_first(
            s@.subrange(0, 0),
            split_on(s@.skip(0), sep),
        ) =~~= split_on(s@, sep));
    }
    while i < n
        invariant
            s@.len() == n,
            0 <= start <= i <= n,
            no_char(s@.subrange(start as int, i as int), sep),
            split_on(s@.skip(i as int), sep).len() >= 1,
            split_on(s@, sep) == str_views(parts@) + prepend_first(
                s@.subrange(start as int, i as int),
                split_on(s@.skip(i as int), sep),
            ),
        decreases n - i,
    {
        let c = s.get_char(i);
        let ghost pre = s@.subrange(start as int, i as int);
        let ghost tail = s@.skip(i as int);
        let ghost tail2 = s@.skip(i as int + 1);
        proof {
            lemma_split_on_len(tail2, sep);
            assert(tail[0] == s@[i as int]);
            assert(tail.skip(1) =~= tail2);
        }
        if c == sep {
            let piece = s.substring_char(start, i);
            parts.push(piece);
            proof {
                assert(split_on(tail, sep) == seq![Seq::<char>::empty()] + split_on(tail2, sep));
                assert(prepend_first(pre, split_on(tail, sep)) =~= seq![pre] + split_on(
                    tail2,
                    sep,
                ));
                assert(str_views(parts@) =~= str_views(parts@.drop_last()) + seq![pre]);
                assert(prepend_first(
                    s@.subrange(i as int + 1, i as int + 1),
                    split_on(tail2, sep),
                ) =~= split_on(tail2, sep));
                assert(split_on(s@, sep) =~= str_views(parts@) + prepend_first(
                    s@.subrange(i as int + 1, i as int + 1),
                    split_on(tail2, sep),
                ));
            }
            start = i + 1;
        } else {
            proof {
                let rest = split_on(tail2, sep);
                assert(split_on(tail, sep) == seq![seq![tail[0]] + rest[0]] + rest.skip(1));
                assert(pre + (seq![tail[0]] + rest[0]) =~= s@.subrange(start as int, i as int + 1)
                    + rest[0]);
                assert(prepend_first(pre, split_on(tail, sep)) =~= prepend_first(
                    s@.subrange(start as int, i as int + 1),
                    rest,
                ));
                assert(no_char(s@.subrange(start as int, i as int + 1), sep));
            }
        }
        i = i + 1;
    }
    let piece = s.substring_char(start, n);
    parts.push(piece);
    proof {
        let ghost pre = s@.subrange(start as int, n as int);
        assert(s@.skip(n as int) =~= Seq::<char>::empty());
        assert(split_on(s@.skip(n as int), sep) == seq![Seq::<char>::empty()]);
        assert(prepend_first(pre, seq![Seq::<char>::empty()]) =~= seq![pre]);
        assert(str_views(parts@) =~= str_views(parts@.drop_last()) + seq![pre]);
        assert(split_on(s@, sep) =~= str_views(parts@));
        assert(forall|j: int|
            0 <= j < parts@.len() ==> parts@[j]@ == str_views(parts@)[j]);
    }
    parts
}

// ---------------------------------------------------------------------------
// Decimal counters.
// ---------------------------------------------------------------------------

/// The value of a decimal digit character, if it is one.
pub open spec fn digit_val(c: char) -> Option<int> {
    match c {
        '0' => Some(0 as int),
        '1' => Some(1 as int),
        '2' => Some(2 as int),
        '3' => Some(3 as int),
        '4' => Some(4 as int),
        '5' => Some(5 as int),
        '6' => Some(6 as int),
        '7' => Some(7 as int),
        '8' => Some(8 as int),
        '9' => Some(9 as int),
        _ => None,
    }
}

pub open spec fn is_dec_digit(c: char) -> bool {
    digit_val(c) is Some
}

/// The decimal digit character for a value in [0, 10).
pub open spec fn dec_digit_char(d: int) -> char {
    if d == 0 {
        '0'
    } else if d == 1 {
        '1'
    } else if d == 2 {
        '2'
    } else if d == 3 {
        '3'
    } else if d == 4 {
        '4'
    } else if d == 5 {
        '5'
    } else if d == 6 {
        '6'
    } else if d == 7 {
        '7'
    } else if d == 8 {
        '8'
    } else {
        '9'
    }
}

/// The shortest decimal text of a non-negative number: no leading zero
/// except for the single digit of zero itself.
pub open spec fn dec_print(n: int) -> Seq<char>
    recommends
        n >= 0,
    decreases n,
{
    if n < 10 {
        seq![dec_digit_char(n)]
    } else {
        dec_print(n / 10) + seq![dec_digit_char(n % 10)]
    }
}

/// The number a string of decimal digits denotes, or `None` if the string
/// is empty or holds a non-digit.
pub open spec fn dec_parse(s: Seq<char>) -> Option<int>
    decreases s.len(),
{
    if s.len() == 0 {
        None
    } else if s.len() == 1 {
        digit_val(s[0])
    } else {
        match dec_parse(s.drop_last()) {
            Some(v) => match digit_val(s.last()) {
                Some(d) => Some(v * 10 + d),
                None => None,
            },
            None => None,
        }
    }
}

pub proof fn lemma_dec_parse_nonneg(s: Seq<char>)
    ensures
        dec_parse(s) matches Some(v) ==> v >= 0,
    decreases s.len(),
{
    if s.len() > 1 {
        lemma_dec_parse_nonneg(s.drop_last());
    }
}

/// A longer string of digits never denotes a smaller number: the value of a
/// non-empty prefix is at most the value of the whole.
pub proof fn lemma_dec_parse_prefix(s: Seq<char>, k: int)
    requires
        1 <= k <= s.len(),
        dec_parse(s) is Some,
    ensures
        dec_parse(s) matches Some(v) && dec_parse(s.take(k)) matches Some(p) && p <= v,
    decreases s.len() - k,
{
    if k == s.len() {
        assert(s.take(k) =~= s);
    } else {
        let t = s.drop_last();
        assert(s.take(k) =~= t.take(k));
        lemma_dec_parse_nonneg(t);
        lemma_dec_parse_prefix(t, k);
    }
}

/// A non-digit anywhere makes the string denote nothing.
pub proof fn lemma_dec_parse_bad_char(s: Seq<char>, k: int)
    requires
        0 <= k < s.len(),
        !is_dec_digit(s[k]),
    ensures
        dec_parse(s) is None,
    decreases s.len(),
{
    if s.len() > 1 && k < s.len() - 1 {
        lemma_dec_parse_bad_char(s.drop_last(), k);
    }
}

/// Printing a number and reading the digits back returns the same number.
pub proof fn lemma_dec_round_trip(n: int)
    requires
        n >= 0,
    ensures
        dec_print(n).len() >= 1,
        dec_parse(dec_print(n)) == Some(n),
    decreases n,
{
    if n >= 10 {
        lemma_dec_round_trip(n / 10);
        assert(dec_print(n).drop_last() =~= dec_print(n / 10));
        assert(dec_print(n).last() == dec_digit_char(n % 10));
    }
}

/// Printed numbers hold decimal digits only.
pub proof fn lemma_dec_print_digits(n: int)
    requires
        n >= 0,
    ensures
        forall|i: int| 0 <= i < dec_print(n).len() ==> is_dec_digit(#[trigger] dec_print(n)[i]),
    decreases n,
{
    if n >= 10 {
        lemma_dec_print_digits(n / 10);
        assert forall|i: int| 0 <= i < dec_print(n).len() implies is_dec_digit(
            #[trigger] dec_print(n)[i],
        ) by {
            if i < dec_print(n / 10).len() {
                assert(dec_print(n)[i] == dec_print(n / 10)[i]);
            } else {
                assert(dec_print(n)[i] == dec_digit_char(n % 10));
            }
        }
    }
}

/// The value of a decimal digit character, executable form.
fn digit_of(c: char) -> (r: Option<u8>)
    ensures
        match r {
            Some(d) => digit_val(c) == Some(d as int),
            None => digit_val(c) is None,
        },
{
    match c {
        '0' => Some(0),
        '1' => Some(1),
        '2' => Some(2),
        '3' => Some(3),
        '4' => Some(4),
        '5' => Some(5),
        '6' => Some(6),
        '7' => Some(7),
        '8' => Some(8),
        '9' => Some(9),
        _ => None,
    }
}

/// Reads a non-negative decimal number, or reports that the text is not a
/// number that fits: empty, a non-digit present, or a value above `u32::MAX`.
fn word_into_u32(w: &str) -> (r: Option<u32>)
    ensures
        match r {
            Some(v) => dec_parse(w@) == Some(v as int),
            None => !(dec_parse(w@) matches Some(v) && v <= u32::MAX),
        },
{
    let n = w.unicode_len();
    if n == 0 {
        return None;
    }
    let mut val: u32 = 0;
    let mut i: usize = 0;
    while i < n
        invariant
            w@.len() == n,
            0 < n,
            i <= n,
            i == 0 ==> val == 0,
            i > 0 ==> dec_parse(w@.take(i as int)) == Some(val as int),
        decreases n - i,
    {
        let c = w.get_char(i);
        let ghost pre = w@.take(i as int);
        let ghost pre2 = w@.take(i as int + 1);
        proof {
            assert(pre2.len() == i + 1);
            assert(pre2.last() == c);
            assert(pre2.drop_last() =~= pre);
        }
        match digit_of(c) {
            None => {
                proof {
                    lemma_dec_parse_bad_char(w@, i as int);
                }
                return None;
            },
            Some(d) => {
                if val > 429496729 || (val == 429496729 && d > 5) {
                    proof {
                        assert(dec_parse(pre2) == Some(val as int * 10 + d as int));
                        if dec_parse(w@) is Some {
                            lemma_dec_parse_prefix(w@, i as int + 1);
                            assert(dec_parse(w@)->Some_0 > u32::MAX);
                        }
                    }
                    return None;
                }
                val = val * 10 + d as u32;
            },
        }
        i = i + 1;
    }
    proof {
        assert(w@.take(n as int) =~= w@);
    }
    Some(val)
}

// ---------------------------------------------------------------------------
// Piece letters and rank groups.
// ---------------------------------------------------------------------------

/// The occupant a placement letter stands for: uppercase is White,
/// lowercase is Black.
pub open spec fn char_piece(c: char) -> Option<ColoredPiece> {
    match c {
        'P' => Some(ColoredPiece(Color::White, Piece::Pawn)),
        'N' => Some(ColoredPiece(Color::White, Piece::Knight)),
        'B' => Some(ColoredPiece(Color::White, Piece::Bishop)),
        'R' => Some(ColoredPiece(Color::White, Piece::Rook)),
        'Q' => Some(ColoredPiece(Color::White, Piece::Queen)),
        'K' => Some(ColoredPiece(Color::White, Piece::King)),
        'p' => Some(ColoredPiece(Color::Black, Piece::Pawn)),
        'n' => Some(ColoredPiece(Color::Black, Piece::Knight)),
        'b' => Some(ColoredPiece(Color::Black, Piece::Bishop)),
        'r' => Some(ColoredPiece(Color::Black, Piece::Rook)),
        'q' => Some(ColoredPiece(Color::Black, Piece::Queen)),
        'k' => Some(ColoredPiece(Color::Black, Piece::King)),
        _ => None,
    }
}

/// The placement letter of an occupant.
pub open spec fn piece_char(cp: ColoredPiece) -> char {
    match cp {
        ColoredPiece(Color::White, Piece::Pawn) => 'P',
        ColoredPiece(Color::White, Piece::Knight) => 'N',
        ColoredPiece(Color::White, Piece::Bishop) => 'B',
        ColoredPiece(Color::White, Piece::Rook) => 'R',
        ColoredPiece(Color::White, Piece::Queen) => 'Q',
        ColoredPiece(Color::White, Piece::King) => 'K',
        ColoredPiece(Color::Black, Piece::Pawn) => 'p',
        ColoredPiece(Color::Black, Piece::Knight) => 'n',
        ColoredPiece(Color::Black, Piece::Bishop) => 'b',
        ColoredPiece(Color::Black, Piece::Rook) => 'r',
        ColoredPiece(Color::Black, Piece::Queen) => 'q',
        ColoredPiece(Color::Black, Piece::King) => 'k',
    }
}

/// Placement letters read back as the occupant they were written for, and
/// are neither separators nor empty-square counts.
pub proof fn lemma_piece_char_round_trip(cp: ColoredPiece)
    ensures
        char_piece(piece_char(cp)) == Some(cp),
        piece_char(cp) != '/',
        piece_char(cp) != ' ',
        count_val(piece_char(cp)) is None,
{
}

/// The occupant a placement letter stands for, executable form; any other
/// character is rejected.
pub fn letter_to_piece(c: char) -> (r: Result<ColoredPiece, FenParseError>)
    ensures
        match r {
            Ok(cp) => char_piece(c) == Some(cp),
            Err(e) => char_piece(c) is None && e == FenParseError::UnknownPieceLetter(c),
        },
{
    match c {
        'P' => Ok(ColoredPiece(Color::White, Piece::Pawn)),
        'N' => Ok(ColoredPiece(Color::White, Piece::Knight)),
        'B' => Ok(ColoredPiece(Color::White, Piece::Bishop)),
        'R' => Ok(ColoredPiece(Color::White, Piece::Rook)),
        'Q' => Ok(ColoredPiece(Color::White, Piece::Queen)),
        'K' => Ok(ColoredPiece(Color::White, Piece::King)),
        'p' => Ok(ColoredPiece(Color::Black, Piece::Pawn)),
        'n' => Ok(ColoredPiece(Color::Black, Piece::Knight)),
        'b' => Ok(ColoredPiece(Color::Black, Piece::Bishop)),
        'r' => Ok(ColoredPiece(Color::Black, Piece::Rook)),
        'q' => Ok(ColoredPiece(Color::Black, Piece::Queen)),
        'k' => Ok(ColoredPiece(Color::Black, Piece::King)),
        _ => Err(FenParseError::UnknownPieceLetter(c)),
    }
}

/// The number of empty squares a count digit skips: `1` through `8`.
pub open spec fn count_val(c: char) -> Option<int> {
    match c {
        '1' => Some(1 as int),
        '2' => Some(2 as int),
        '3' => Some(3 as int),
        '4' => Some(4 as int),
        '5' => Some(5 as int),
        '6' => Some(6 as int),
        '7' => Some(7 as int),
        '8' => Some(8 as int),
        _ => None,
    }
}

/// The count digit for a run of 1 to 8 empty squares.
pub open spec fn count_char(n: int) -> char {
    if n == 1 {
        '1'
    } else if n == 2 {
        '2'
    } else if n == 3 {
        '3'
    } else if n == 4 {
        '4'
    } else if n == 5 {
        '5'
    } else if n == 6 {
        '6'
    } else if n == 7 {
        '7'
    } else {
        '8'
    }
}

/// The number of empty squares a count digit skips, executable form.
fn count_of(c: char) -> (r: Option<u8>)
    ensures
        match r {
            Some(d) => count_val(c) == Some(d as int) && 1 <= d <= 8,
            None => count_val(c) is None,
        },
{
    match c {
        '1' => Some(1),
        '2' => Some(2),
        '3' => Some(3),
        '4' => Some(4),
        '5' => Some(5),
        '6' => Some(6),
        '7' => Some(7),
        '8' => Some(8),
        _ => None,
    }
}

/// A run of `n` empty slots.
pub open spec fn empty_run(n: int) -> Seq<Option<ColoredPiece>> {
    Seq::new(n as nat, |i: int| None)
}

/// How many empty slots open the sequence.
pub open spec fn leading_nones(r: Seq<Option<ColoredPiece>>) -> int
    decreases r.len(),
{
    if r.len() == 0 || r[0] is Some {
        0
    } else {
        1 + leading_nones(r.skip(1))
    }
}

pub proof fn lemma_leading_nones(r: Seq<Option<ColoredPiece>>)
    ensures
        0 <= leading_nones(r) <= r.len(),
        forall|i: int| 0 <= i < leading_nones(r) ==> #[trigger] r[i] is None,
        leading_nones(r) < r.len() ==> r[leading_nones(r)] is Some,
    decreases r.len(),
{
    if r.len() > 0 && r[0] is None {
        lemma_leading_nones(r.skip(1));
        assert(forall|i: int|
            1 <= i < leading_nones(r) ==> #[trigger] r[i] == r.skip(1)[i - 1]);
        if leading_nones(r) < r.len() {
            assert(r[leading_nones(r)] == r.skip(1)[leading_nones(r) - 1]);
        }
    }
}

/// The run length is determined by what it describes.
pub proof fn lemma_leading_nones_eq(r: Seq<Option<ColoredPiece>>, k: int)
    requires
        0 <= k <= r.len(),
        forall|i: int| 0 <= i < k ==> #[trigger] r[i] is None,
        k < r.len() ==> r[k] is Some,
    ensures
        leading_nones(r) == k,
    decreases r.len(),
{
    if r.len() > 0 && r[0] is None {
        assert(k >= 1);
        assert(forall|i: int| 0 <= i < k - 1 ==> #[trigger] r.skip(1)[i] == r[i + 1]);
        lemma_leading_nones_eq(r.skip(1), k - 1);
    }
}

/// The placement text of one rank: occupants as letters, runs of empty
/// squares as their count digit.
pub open spec fn rank_print(r: Seq<Option<ColoredPiece>>) -> Seq<char>
    decreases r.len(),
    via rank_print_dec
{
    if r.len() == 0 {
        Seq::empty()
    } else {
        match r[0] {
            Some(cp) => seq![piece_char(cp)] + rank_print(r.skip(1)),
            None => seq![count_char(leading_nones(r))] + rank_print(r.skip(leading_nones(r))),
        }
    }
}

#[via_fn]
proof fn rank_print_dec(r: Seq<Option<ColoredPiece>>) {
    if r.len() > 0 && r[0] is None {
        lemma_leading_nones(r);
    }
}

/// One rank group read left to right: a count digit skips that many empty
/// squares, a placement letter fills one square; the first overrun or
/// shortfall of the eight columns is `IncorrectRowLength`, any other
/// character `UnknownPieceLetter`.
pub open spec fn parse_rank_rec(
    g: Seq<char>,
    row: u8,
    acc: Seq<Option<ColoredPiece>>,
) -> Result<Seq<Option<ColoredPiece>>, FenParseError>
    decreases g.len(),
{
    if g.len() == 0 {
        if acc.len() == 8 {
            Ok(acc)
        } else {
            Err(FenParseError::IncorrectRowLength(row))
        }
    } else {
        match count_val(g[0]) {
            Some(d) => if acc.len() + d > 8 {
                Err(FenParseError::IncorrectRowLength(row))
            } else {
                parse_rank_rec(g.skip(1), row, acc + empty_run(d))
            },
            None => match char_piece(g[0]) {
                Some(cp) => if acc.len() + 1 > 8 {
                    Err(FenParseError::IncorrectRowLength(row))
                } else {
                    parse_rank_rec(g.skip(1), row, acc.push(Some(cp)))
                },
                None => Err(FenParseError::UnknownPieceLetter(g[0])),
            },
        }
    }
}

/// The eight slots described by one rank group, or the first error.
pub open spec fn parse_rank(g: Seq<char>, row: u8) -> Result<
    Seq<Option<ColoredPiece>>,
    FenParseError,
> {
    parse_rank_rec(g, row, Seq::empty())
}

/// Rank text never holds a separator.
pub proof fn lemma_rank_print_chars(r: Seq<Option<ColoredPiece>>)
    ensures
        no_char(rank_print(r), '/'),
        no_char(rank_print(r), ' '),
    decreases r.len(),
{
    if r.len() > 0 {
        let g = rank_print(r);
        match r[0] {
            Some(cp) => {
                lemma_piece_char_round_trip(cp);
                lemma_rank_print_chars(r.skip(1));
                assert forall|i: int| 0 <= i < g.len() implies g[i] != '/' && g[i] != ' ' by {
                    if i > 0 {
                        assert(g[i] == rank_print(r.skip(1))[i - 1]);
                    }
                }
            },
            None => {
                lemma_leading_nones(r);
                let k = leading_nones(r);
                lemma_rank_print_chars(r.skip(k));
                assert forall|i: int| 0 <= i < g.len() implies g[i] != '/' && g[i] != ' ' by {
                    if i > 0 {
                        assert(g[i] == rank_print(r.skip(k))[i - 1]);
                    }
                }
            },
        }
    }
}

/// Writing a rank and reading it back yields the same eight slots.
pub proof fn lemma_rank_round_trip(r: Seq<Option<ColoredPiece>>, row: u8, acc: Seq<
    Option<ColoredPiece>,
>)
    requires
        acc.len() + r.len() == 8,
    ensures
        parse_rank_rec(rank_print(r), row, acc) == Ok::<_, FenParseError>(acc + r),
    decreases r.len(),
{
    if r.len() == 0 {
        assert(acc + r =~= acc);
    } else {
        let g = rank_print(r);
        match r[0] {
            Some(cp) => {
                lemma_piece_char_round_trip(cp);
                assert(g[0] == piece_char(cp));
                assert(g.skip(1) =~= rank_print(r.skip(1)));
                lemma_rank_round_trip(r.skip(1), row, acc.push(Some(cp)));
                assert(acc.push(Some(cp)) + r.skip(1) =~= acc + r);
            },
            None => {
                lemma_leading_nones(r);
                let k = leading_nones(r);
                assert(g[0] == count_char(k));
                assert(count_val(count_char(k)) == Some(k));
                assert(g.skip(1) =~= rank_print(r.skip(k)));
                lemma_rank_round_trip(r.skip(k), row, acc + empty_run(k));
                assert(acc + empty_run(k) + r.skip(k) =~= acc + r);
            },
        }
    }
}

/// Reads one rank group into its eight slots, as `parse_rank` describes.
fn chars_into_rank(w: &str, row: u8) -> (r: Result<Vec<Option<ColoredPiece>>, FenParseError>)
    ensures
        match r {
            Ok(v) => parse_rank(w@, row) == Ok::<_, FenParseError>(v@) && v@.len() == 8,
            Err(e) => parse_rank(w@, row) == Err::<Seq<Option<ColoredPiece>>, _>(e),
        },
{
    let n = w.unicode_len();
    let mut acc: Vec<Option<ColoredPiece>> = Vec::new();
    let mut k: usize = 0;
    proof {
        assert(w@.skip(0) =~= w@);
    }
    while k < n
        invariant
            w@.len() == n,
            k <= n,
            acc@.len() <= 8,
            parse_rank(w@, row) == parse_rank_rec(w@.skip(k as int), row, acc@),
        decreases n - k,
    {
        let c = w.get_char(k);
        let ghost tail = w@.skip(k as int);
        proof {
            assert(tail[0] == c);
            assert(tail.skip(1) =~= w@.skip(k as int + 1));
        }
        match count_of(c) {
            Some(d) => {
                if acc.len() + (d as usize) > 8 {
                    return Err(FenParseError::IncorrectRowLength(row));
                }
                let ghost acc0 = acc@;
                let mut j: u8 = 0;
                proof {
                    assert(acc0 + empty_run(0) =~= acc0);
                }
                while j < d
                    invariant
                        j <= d,
                        acc@ == acc0 + empty_run(j as int),
                        acc0.len() + d <= 8,
                    decreases d - j,
                {
                    acc.push(None);
                    proof {
                        assert(acc@ =~= acc0 + empty_run(j as int + 1));
                    }
                    j = j + 1;
                }
            },
            None => {
                match letter_to_piece(c) {
                    Ok(cp) => {
                        if acc.len() + 1 > 8 {
                            return Err(FenParseError::IncorrectRowLength(row));
                        }
                        acc.push(Some(cp));
                    },
                    Err(e) => {
                        return Err(e);
                    },
                }
            },
        }
        k = k + 1;
    }
    proof {
        assert(w@.skip(n as int) =~= Seq::<char>::empty());
    }
    if acc.len() == 8 {
        Ok(acc)
    } else {
        Err(FenParseError::IncorrectRowLength(row))
    }
}

// ---------------------------------------------------------------------------
// The placement field: eight rank groups, rank 8 down to rank 1.
// ---------------------------------------------------------------------------

/// The eight slots of one row of a 64-slot board.
pub open spec fn rank_slice(b: Seq<Option<ColoredPiece>>, row: int) -> Seq<Option<ColoredPiece>> {
    b.subrange(8 * row, 8 * row + 8)
}

/// The boards slots described by the rank groups from `i` on, assembled
/// bottom row first; group `i` describes row `7 - i`. Groups are checked in
/// input order, so the first bad group's error is reported.
pub open spec fn parse_groups(groups: Seq<Seq<char>>, i: int) -> Result<
    Seq<Option<ColoredPiece>>,
    FenParseError,
>
    decreases 8 - i,
{
    if i >= 8 {
        Ok(Seq::empty())
    } else {
        match parse_rank(groups[i], (7 - i) as u8) {
            Err(e) => Err(e),
            Ok(rank) => match parse_groups(groups, i + 1) {
                Err(e) => Err(e),
                Ok(rest) => Ok(rest + rank),
            },
        }
    }
}

/// The 64 slots described by a placement field: eight `/`-separated rank
/// groups, rank 8 first, or the first error found.
pub open spec fn parse_placement(s: Seq<char>) -> Result<Seq<Option<ColoredPiece>>, FenParseError> {
    let groups = split_on(s, '/');
    if groups.len() != 8 {
        Err(FenParseError::WrongRowCount(groups.len() as usize))
    } else {
        parse_groups(groups, 0)
    }
}

/// The rank groups of a board, rank 8 (row 7) first.
pub open spec fn placement_groups(b: Seq<Option<ColoredPiece>>) -> Seq<Seq<char>> {
    Seq::new(8, |i: int| rank_print(rank_slice(b, 7 - i)))
}

/// The placement field of a board: its rank groups joined with `/`.
pub open spec fn placement_print(b: Seq<Option<ColoredPiece>>) -> Seq<char> {
    join_with(placement_groups(b), '/')
}

/// A rank group accepted by the parser always describes exactly eight slots.
pub proof fn lemma_parse_rank_len(g: Seq<char>, row: u8, acc: Seq<Option<ColoredPiece>>)
    ensures
        parse_rank_rec(g, row, acc) matches Ok(v) ==> v.len() == 8,
    decreases g.len(),
{
    if g.len() > 0 {
        match count_val(g[0]) {
            Some(d) => {
                if acc.len() + d <= 8 {
                    lemma_parse_rank_len(g.skip(1), row, acc + empty_run(d));
                }
            },
            None => {
                match char_piece(g[0]) {
                    Some(cp) => {
                        if acc.len() + 1 <= 8 {
                            lemma_parse_rank_len(g.skip(1), row, acc.push(Some(cp)));
                        }
                    },
                    None => {},
                }
            },
        }
    }
}

/// The first bad group decides the placement error.
proof fn lemma_parse_groups_err(groups: Seq<Seq<char>>, i: int, j: int, e: FenParseError)
    requires
        0 <= i <= j < 8,
        forall|t: int| i <= t < j ==> (#[trigger] parse_rank(groups[t], (7 - t) as u8)) is Ok,
        parse_rank(groups[j], (7 - j) as u8) == Err::<Seq<Option<ColoredPiece>>, _>(e),
    ensures
        parse_groups(groups, i) == Err::<Seq<Option<ColoredPiece>>, _>(e),
    decreases j - i,
{
    if i < j {
        lemma_parse_groups_err(groups, i + 1, j, e);
    }
}

/// When every group reads back, the assembly holds each rank at its row's
/// offset.
proof fn lemma_parse_groups_ok(groups: Seq<Seq<char>>, i: int)
    requires
        0 <= i <= 8,
        forall|t: int| i <= t < 8 ==> (#[trigger] parse_rank(groups[t], (7 - t) as u8)) is Ok,
    ensures
        parse_groups(groups, i) is Ok,
        parse_groups(groups, i)->Ok_0.len() == 8 * (8 - i),
        forall|t: int|
            i <= t < 8 ==> parse_groups(groups, i)->Ok_0.subrange(8 * (7 - t), 8 * (7 - t) + 8)
                == parse_rank(groups[t], (7 - t) as u8)->Ok_0,
    decreases 8 - i,
{
    if i < 8 {
        lemma_parse_groups_ok(groups, i + 1);
        lemma_parse_rank_len(groups[i], (7 - i) as u8, Seq::empty());
        let rest = parse_groups(groups, i + 1)->Ok_0;
        let rank = parse_rank(groups[i], (7 - i) as u8)->Ok_0;
        let whole = rest + rank;
        assert(whole.subrange(8 * (7 - i), 8 * (7 - i) + 8) =~= rank);
        assert forall|t: int| i + 1 <= t < 8 implies whole.subrange(8 * (7 - t), 8 * (7 - t) + 8)
            == parse_rank(groups[t], (7 - t) as u8)->Ok_0 by {
            assert(whole.subrange(8 * (7 - t), 8 * (7 - t) + 8) =~= rest.subrange(
                8 * (7 - t),
                8 * (7 - t) + 8,
            ));
        }
    }
}

/// Two 64-slot boards that agree on every row agree everywhere.
proof fn lemma_board_from_ranks(a: Seq<Option<ColoredPiece>>, b: Seq<Option<ColoredPiece>>)
    requires
        a.len() == 64,
        b.len() == 64,
        forall|row: int|
            0 <= row < 8 ==> #[trigger] rank_slice(a, row) == rank_slice(b, row),
    ensures
        a == b,
{
    assert forall|idx: int| 0 <= idx < 64 implies a[idx] == b[idx] by {
        let row = idx / 8;
        assert(0 <= row < 8);
        assert(8 * row <= idx < 8 * row + 8);
        assert(rank_slice(a, row)[idx - 8 * row] == a[idx]);
        assert(rank_slice(b, row)[idx - 8 * row] == b[idx]);
    }
    assert(a =~= b);
}

/// Writing a board's placement field and reading it back yields the same
/// 64 slots.
pub proof fn lemma_placement_round_trip(b: Seq<Option<ColoredPiece>>)
    requires
        b.len() == 64,
    ensures
        parse_placement(placement_print(b)) == Ok::<_, FenParseError>(b),
{
    let groups = placement_groups(b);
    assert forall|i: int| 0 <= i < 8 implies no_char(#[trigger] groups[i], '/') by {
        lemma_rank_print_chars(rank_slice(b, 7 - i));
    }
    lemma_split_join(groups, '/');
    assert forall|t: int| 0 <= t < 8 implies parse_rank(#[trigger] groups[t], (7 - t) as u8)
        == Ok::<_, FenParseError>(rank_slice(b, 7 - t)) by {
        lemma_rank_round_trip(rank_slice(b, 7 - t), (7 - t) as u8, Seq::empty());
        assert(Seq::empty() + rank_slice(b, 7 - t) =~= rank_slice(b, 7 - t));
    }
    lemma_parse_groups_ok(groups, 0);
    let bb = parse_groups(groups, 0)->Ok_0;
    assert forall|row: int| 0 <= row < 8 implies #[trigger] rank_slice(bb, row) == rank_slice(
        b,
        row,
    ) by {
        let t = 7 - row;
        assert(bb.subrange(8 * (7 - t), 8 * (7 - t) + 8) == parse_rank(
            groups[t],
            (7 - t) as u8,
        )->Ok_0);
    }
    lemma_board_from_ranks(bb, b);
}

/// The occupant at (row, col), read through the validated factories.
fn board_at(board: &Board, row: u8, col: u8) -> (r: Option<ColoredPiece>)
    requires
        board.wf(),
        row < 8,
        col < 8,
    ensures
        r == board@[row as int * 8 + col as int],
{
    let sq = Square::from_coord(row, col).unwrap();
    *board.get(&sq)
}

/// Appends the placement letter of an occupant.
fn append_piece_letter(out: &mut String, cp: ColoredPiece)
    ensures
        final(out)@ == old(out)@ + seq![piece_char(cp)],
{
    match cp {
        ColoredPiece(Color::White, Piece::Pawn) => {
            out.append("P");
            proof {
                reveal_strlit("P");
                assert("P"@ =~= seq![piece_char(cp)]);
            }
        },
        ColoredPiece(Color::White, Piece::Knight) => {
            out.append("N");
            proof {
                reveal_strlit("N");
                assert("N"@ =~= seq![piece_char(cp)]);
            }
        },
        ColoredPiece(Color::White, Piece::Bishop) => {
            out.append("B");
            proof {
                reveal_strlit("B");
                assert("B"@ =~= seq![piece_char(cp)]);
            }
        },
        ColoredPiece(Color::White, Piece::Rook) => {
            out.append("R");
            proof {
                reveal_strlit("R");
                assert("R"@ =~= seq![piece_char(cp)]);
            }
        },
        ColoredPiece(Color::White, Piece::Queen) => {
            out.append("Q");
            proof {
                reveal_strlit("Q");
                assert("Q"@ =~= seq![piece_char(cp)]);
            }
        },
        ColoredPiece(Color::White, Piece::King) => {
            out.append("K");
            proof {
                reveal_strlit("K");
                assert("K"@ =~= seq![piece_char(cp)]);
            }
        },
        ColoredPiece(Color::Black, Piece::Pawn) => {
            out.append("p");
            proof {
                reveal_strlit("p");
                assert("p"@ =~= seq![piece_char(cp)]);
            }
        },
        ColoredPiece(Color::Black, Piece::Knight) => {
            out.append("n");
            proof {
                reveal_strlit("n");
                assert("n"@ =~= seq![piece_char(cp)]);
            }
        },
        ColoredPiece(Color::Black, Piece::Bishop) => {
            out.append("b");
            proof {
                reveal_strlit("b");
                assert("b"@ =~= seq![piece_char(cp)]);
            }
        },
        ColoredPiece(Color::Black, Piece::Rook) => {
            out.append("r");
            proof {
                reveal_strlit("r");
                assert("r"@ =~= seq![piece_char(cp)]);
            }
        },
        ColoredPiece(Color::Black, Piece::Queen) => {
            out.append("q");
            proof {
                reveal_strlit("q");
                assert("q"@ =~= seq![piece_char(cp)]);
            }
        },
        ColoredPiece(Color::Black, Piece::King) => {
            out.append("k");
            proof {
                reveal_strlit("k");
                assert("k"@ =~= seq![piece_char(cp)]);
            }
        },
    }
}

/// Appends the count digit of a run of empty squares.
fn append_count(out: &mut String, d: u8)
    requires
        1 <= d <= 8,
    ensures
        final(out)@ == old(out)@ + seq![count_char(d as int)],
{
    if d == 1 {
        out.append("1");
        proof {
            reveal_strlit("1");
            assert("1"@ =~= seq![count_char(d as int)]);
        }
    } else if d == 2 {
        out.append("2");
        proof {
            reveal_strlit("2");
            assert("2"@ =~= seq![count_char(d as int)]);
        }
    } else if d == 3 {
        out.append("3");
        proof {
            reveal_strlit("3");
            assert("3"@ =~= seq![count_char(d as int)]);
        }
    } else if d == 4 {
        out.append("4");
        proof {
            reveal_strlit("4");
            assert("4"@ =~= seq![count_char(d as int)]);
        }
    } else if d == 5 {
        out.append("5");
        proof {
            reveal_strlit("5");
            assert("5"@ =~= seq![count_char(d as int)]);
        }
    } else if d == 6 {
        out.append("6");
        proof {
            reveal_strlit("6");
            assert("6"@ =~= seq![count_char(d as int)]);
        }
    } else if d == 7 {
        out.append("7");
        proof {
            reveal_strlit("7");
            assert("7"@ =~= seq![count_char(d as int)]);
        }
    } else {
        out.append("8");
        proof {
            reveal_strlit("8");
            assert("8"@ =~= seq![count_char(d as int)]);
        }
    }
}

/// Appends one rank of the board as its placement group.
fn append_rank(out: &mut String, board: &Board, row: u8)
    requires
        board.wf(),
        row < 8,
    ensures
        final(out)@ == old(out)@ + rank_print(rank_slice(board@, row as int)),
{
    let ghost r_full = rank_slice(board@, row as int);
    let mut col: u8 = 0;
    proof {
        assert(r_full.skip(0) =~= r_full);
        assert(out@ + rank_print(r_full.skip(0)) =~= old(out)@ + rank_print(r_full));
    }
    while col < 8
        invariant
            board.wf(),
            row < 8,
            col <= 8,
            r_full == rank_slice(board@, row as int),
            out@ + rank_print(r_full.skip(col as int)) == old(out)@ + rank_print(r_full),
        decreases 8 - col,
    {
        let ghost rr = r_full.skip(col as int);
        proof {
            assert(rr[0] == board@[row as int * 8 + col as int]);
        }
        match board_at(board, row, col) {
            Some(cp) => {
                append_piece_letter(out, cp);
                proof {
                    assert(rank_print(rr) == seq![piece_char(cp)] + rank_print(rr.skip(1)));
                    assert(rr.skip(1) =~= r_full.skip(col as int + 1));
                    assert(out@ + rank_print(r_full.skip(col as int + 1)) =~= old(out)@
                        + rank_print(r_full));
                }
                col = col + 1;
            },
            None => {
                let mut end: u8 = col + 1;
                while end < 8 && board_at(board, row, end).is_none()
                    invariant
                        board.wf(),
                        row < 8,
                        col < end <= 8,
                        forall|i: int|
                            row as int * 8 + col <= i < row as int * 8 + end
                                ==> #[trigger] board@[i] is None,
                    decreases 8 - end,
                {
                    end = end + 1;
                }
                let run = end - col;
                append_count(out, run);
                proof {
                    assert forall|t: int| 0 <= t < run as int implies #[trigger] rr[t] is None by {
                        assert(rr[t] == board@[row as int * 8 + col as int + t]);
                    }
                    if (run as int) < rr.len() {
                        assert(rr[run as int] == board@[row as int * 8 + end as int]);
                        assert(end < 8);
                        assert(rr[run as int] is Some);
                    }
                    lemma_leading_nones_eq(rr, run as int);
                    assert(rank_print(rr) == seq![count_char(run as int)] + rank_print(
                        rr.skip(run as int),
                    ));
                    assert(rr.skip(run as int) =~= r_full.skip(end as int));
                    assert(out@ + rank_print(r_full.skip(end as int)) =~= old(out)@ + rank_print(
                        r_full,
                    ));
                }
                col = end;
            },
        }
    }
    proof {
        assert(r_full.skip(8) =~= Seq::<Option<ColoredPiece>>::empty());
        assert(rank_print(Seq::<Option<ColoredPiece>>::empty()) =~= Seq::<char>::empty());
        assert(out@ + Seq::<char>::empty() =~= out@);
    }
}

/// Appends the whole placement field: rank 8 down to rank 1, `/` between.
fn append_placement(out: &mut String, board: &Board)
    requires
        board.wf(),
    ensures
        final(out)@ == old(out)@ + placement_print(board@),
{
    let ghost groups = placement_groups(board@);
    append_rank(out, board, 7);
    proof {
        assert(groups.take(1) =~= seq![groups[0]]);
        assert(join_with(groups.take(1), '/') == groups[0]);
        assert(groups[0] == rank_print(rank_slice(board@, 7)));
    }
    let mut gi: u8 = 1;
    while gi < 8
        invariant
            board.wf(),
            1 <= gi <= 8,
            groups == placement_groups(board@),
            out@ == old(out)@ + join_with(groups.take(gi as int), '/'),
        decreases 8 - gi,
    {
        out.append("/");
        proof {
            reveal_strlit("/");
            assert("/"@ =~= seq!['/']);
        }
        let row: u8 = 7 - gi;
        append_rank(out, board, row);
        proof {
            assert(groups[gi as int] == rank_print(rank_slice(board@, 7 - gi as int)));
            assert(groups.take(gi as int + 1) =~= groups.take(gi as int).push(groups[gi as int]));
            lemma_join_push(groups.take(gi as int), groups[gi as int], '/');
            assert(out@ =~= old(out)@ + join_with(groups.take(gi as int + 1), '/'));
        }
        gi = gi + 1;
    }
    proof {
        assert(groups.take(8) =~= groups);
    }
}

/// Joining one more piece appends one separator and the piece.
pub proof fn lemma_join_push(parts: Seq<Seq<char>>, x: Seq<char>, sep: char)
    requires
        parts.len() >= 1,
    ensures
        join_with(parts.push(x), sep) == join_with(parts, sep) + seq![sep] + x,
    decreases parts.len(),
{
    if parts.len() == 1 {
        assert(parts.push(x)[0] == parts[0]);
        assert(parts.push(x).skip(1) =~= seq![x]);
        assert(join_with(seq![x], sep) == x);
        assert(join_with(parts.push(x), sep) =~= join_with(parts, sep) + seq![sep] + x);
    } else {
        lemma_join_push(parts.skip(1), x, sep);
        assert(parts.push(x).skip(1) =~= parts.skip(1).push(x));
        assert(parts.push(x)[0] == parts[0]);
        assert(join_with(parts.push(x), sep) == parts[0] + seq![sep] + join_with(
            parts.skip(1).push(x),
            sep,
        ));
        assert(parts[0] + seq![sep] + (join_with(parts.skip(1), sep) + seq![sep] + x) =~= (parts[0]
            + seq![sep] + join_with(parts.skip(1), sep)) + seq![sep] + x);
    }
}

/// Fills one empty row of the board with the slots of a parsed rank.
fn place_rank(board: &mut Board, row: u8, rank: &Vec<Option<ColoredPiece>>)
    requires
        old(board).wf(),
        row < 8,
        rank@.len() == 8,
        forall|i: int|
            8 * (row as int) <= i < 8 * (row as int) + 8 ==> #[trigger] old(board)@[i] is None,
    ensures
        final(board).wf(),
        forall|i: int|
            0 <= i < 64 && !(8 * (row as int) <= i < 8 * (row as int) + 8)
                ==> #[trigger] final(board)@[i] == old(board)@[i],
        rank_slice(final(board)@, row as int) == rank@,
{
    let mut c: usize = 0;
    while c < 8
        invariant
            board.wf(),
            row < 8,
            rank@.len() == 8,
            c <= 8,
            forall|i: int|
                0 <= i < 64 && !(8 * (row as int) <= i < 8 * (row as int) + 8)
                    ==> #[trigger] board@[i] == old(board)@[i],
            forall|i: int|
                8 * (row as int) <= i < 8 * (row as int) + c ==> #[trigger] board@[i] == rank@[i
                    - 8 * (row as int)],
            forall|i: int|
                8 * (row as int) + c <= i < 8 * (row as int) + 8 ==> #[trigger] board@[i] is None,
        decreases 8 - c,
    {
        match rank[c] {
            None => {},
            Some(p) => {
                let sq = Square::from_coord(row, c as u8).unwrap();
                let res = board.set(&sq, p);
                match res {
                    Ok(_) => {},
                    Err(_) => {
                        proof {
                            assert(false);
                        }
                    },
                }
            },
        }
        c = c + 1;
    }
    proof {
        assert(rank_slice(board@, row as int) =~= rank@);
    }
}

/// Reads a placement field into a board, as `parse_placement` describes.
pub fn string_into_board(s: &str) -> (r: Result<Board, FenParseError>)
    ensures
        match r {
            Ok(b) => parse_placement(s@) == Ok::<_, FenParseError>(b@) && b.wf(),
            Err(e) => parse_placement(s@) == Err::<Seq<Option<ColoredPiece>>, _>(e),
        },
{
    let rows: Vec<&str> = split_str(s, '/');
    let ghost groups = split_on(s@, '/');
    if rows.len() != 8 {
        return Err(FenParseError::WrongRowCount(rows.len()));
    }
    let mut board = Board::new();
    let mut gi: usize = 0;
    while gi < 8
        invariant
            rows@.len() == 8,
            groups == split_on(s@, '/'),
            groups.len() == 8,
            forall|t: int| 0 <= t < 8 ==> rows@[t]@ == groups[t],
            gi <= 8,
            board.wf(),
            forall|t: int|
                0 <= t < gi ==> (#[trigger] parse_rank(groups[t], (7 - t) as u8)) is Ok,
            forall|t: int|
                0 <= t < gi ==> rank_slice(board@, 7 - t) == parse_rank(
                    groups[t],
                    (7 - t) as u8,
                )->Ok_0,
            forall|i: int| 0 <= i < 8 * (8 - gi) ==> board@[i] is None,
        decreases 8 - gi,
    {
        let row: u8 = 7 - (gi as u8);
        let ghost board0 = board@;
        match chars_into_rank(rows[gi], row) {
            Err(e) => {
                proof {
                    lemma_parse_groups_err(groups, 0, gi as int, e);
                }
                return Err(e);
            },
            Ok(rankvec) => {
                place_rank(&mut board, row, &rankvec);
                proof {
                    assert forall|t: int| 0 <= t < gi implies rank_slice(board@, 7 - t)
                        == parse_rank(groups[t], (7 - t) as u8)->Ok_0 by {
                        assert(rank_slice(board@, 7 - t) =~= rank_slice(board0, 7 - t));
                    }
                    assert(rank_slice(board@, row as int) == rankvec@);
                }
            },
        }
        gi = gi + 1;
    }
    proof {
        lemma_parse_groups_ok(groups, 0);
        let bb = parse_groups(groups, 0)->Ok_0;
        assert forall|row: int| 0 <= row < 8 implies #[trigger] rank_slice(bb, row) == rank_slice(
            board@,
            row,
        ) by {
            let t = 7 - row;
            assert(bb.subrange(8 * (7 - t), 8 * (7 - t) + 8) == parse_rank(
                groups[t],
                (7 - t) as u8,
            )->Ok_0);
        }
        lemma_board_from_ranks(bb, board@);
    }
    Ok(board)
}

// ---------------------------------------------------------------------------
// The five metadata fields.
// ---------------------------------------------------------------------------

/// The side to move: exactly `w` or `b`.
pub open spec fn parse_turn(s: Seq<char>) -> Result<Color, FenParseError> {
    if s.len() == 1 && s[0] == 'w' {
        Ok(Color::White)
    } else if s.len() == 1 && s[0] == 'b' {
        Ok(Color::Black)
    } else {
        Err(FenParseError::InvalidTurnField)
    }
}

pub open spec fn turn_print(c: Color) -> Seq<char> {
    match c {
        Color::White => seq!['w'],
        Color::Black => seq!['b'],
    }
}

/// Reads the side-to-move field, as `parse_turn` describes.
pub fn word_into_turn(w: &str) -> (r: Result<Color, FenParseError>)
    ensures
        r == parse_turn(w@),
{
    let n = w.unicode_len();
    if n != 1 {
        return Err(FenParseError::InvalidTurnField);
    }
    let c = w.get_char(0);
    if c == 'w' {
        Ok(Color::White)
    } else if c == 'b' {
        Ok(Color::Black)
    } else {
        Err(FenParseError::InvalidTurnField)
    }
}

/// The castling rights set by a scan of the field's characters, left to
/// right: each of `K`, `Q`, `k`, `q` sets its right; any other character,
/// `-` included, makes the scan fail.
pub open spec fn castles_scan(s: Seq<char>) -> Option<(bool, bool, bool, bool)>
    decreases s.len(),
{
    if s.len() == 0 {
        Some((false, false, false, false))
    } else {
        match castles_scan(s.drop_last()) {
            None => None,
            Some(f) => match s.last() {
                'K' => Some((true, f.1, f.2, f.3)),
                'Q' => Some((f.0, true, f.2, f.3)),
                'k' => Some((f.0, f.1, true, f.3)),
                'q' => Some((f.0, f.1, f.2, true)),
                _ => None,
            },
        }
    }
}

/// The castling field: `-` alone means no rights; otherwise 1 to 4
/// characters drawn from K, Q, k, q, each setting its right.
pub open spec fn parse_castles(s: Seq<char>) -> Result<(bool, bool, bool, bool), FenParseError> {
    if s.len() == 1 && s[0] == '-' {
        Ok((false, false, false, false))
    } else if 1 <= s.len() <= 4 {
        match castles_scan(s) {
            Some(f) => Ok(f),
            None => Err(FenParseError::InvalidCastlingField),
        }
    } else {
        Err(FenParseError::InvalidCastlingField)
    }
}

/// The castling field of a position: present letters in the order K, Q,
/// k, q, or `-` when none is set.
pub open spec fn castles_print(wk: bool, wq: bool, bk: bool, bq: bool) -> Seq<char> {
    if !wk && !wq && !bk && !bq {
        seq!['-']
    } else {
        (if wk {
            seq!['K']
        } else {
            Seq::empty()
        }) + (if wq {
            seq!['Q']
        } else {
            Seq::empty()
        }) + (if bk {
            seq!['k']
        } else {
            Seq::empty()
        }) + (if bq {
            seq!['q']
        } else {
            Seq::empty()
        })
    }
}

/// A character outside K, Q, k, q anywhere makes the scan fail.
proof fn lemma_castles_bad_char(s: Seq<char>, k: int)
    requires
        0 <= k < s.len(),
        s[k] != 'K',
        s[k] != 'Q',
        s[k] != 'k',
        s[k] != 'q',
    ensures
        castles_scan(s) is None,
    decreases s.len(),
{
    if s.len() > 1 && k < s.len() - 1 {
        lemma_castles_bad_char(s.drop_last(), k);
    }
}

/// Scanning one more character from a known state.
proof fn lemma_castles_scan_push(s: Seq<char>, c: char)
    ensures
        castles_scan(s.push(c)) == (match castles_scan(s) {
            None => None::<(bool, bool, bool, bool)>,
            Some(f) => match c {
                'K' => Some((true, f.1, f.2, f.3)),
                'Q' => Some((f.0, true, f.2, f.3)),
                'k' => Some((f.0, f.1, true, f.3)),
                'q' => Some((f.0, f.1, f.2, true)),
                _ => None,
            },
        }),
{
    assert(s.push(c).drop_last() =~= s);
    assert(s.push(c).last() == c);
}

/// Reads the castling field, as `parse_castles` describes.
pub fn word_into_castles(w: &str) -> (r: Result<(bool, bool, bool, bool), FenParseError>)
    ensures
        r == parse_castles(w@),
{
    let n = w.unicode_len();
    if n == 1 && w.get_char(0) == '-' {
        return Ok((false, false, false, false));
    }
    if n == 0 || n > 4 {
        return Err(FenParseError::InvalidCastlingField);
    }
    let mut wk = false;
    let mut wq = false;
    let mut bk = false;
    let mut bq = false;
    let mut i: usize = 0;
    proof {
        assert(w@.take(0) =~= Seq::<char>::empty());
    }
    while i < n
        invariant
            w@.len() == n,
            1 <= n <= 4,
            i <= n,
            n == 1 ==> w@[0] != '-',
            castles_scan(w@.take(i as int)) == Some((wk, wq, bk, bq)),
        decreases n - i,
    {
        let c = w.get_char(i);
        proof {
            assert(w@.take(i as int + 1).drop_last() =~= w@.take(i as int));
            assert(w@.take(i as int + 1).last() == c);
        }
        if c == 'K' {
            wk = true;
        } else if c == 'Q' {
            wq = true;
        } else if c == 'k' {
            bk = true;
        } else if c == 'q' {
            bq = true;
        } else {
            proof {
                lemma_castles_bad_char(w@, i as int);
            }
            return Err(FenParseError::InvalidCastlingField);
        }
        i = i + 1;
    }
    proof {
        assert(w@.take(n as int) =~= w@);
    }
    Ok((wk, wq, bk, bq))
}

/// Printing castling rights and scanning them back returns the same rights.
pub proof fn lemma_castles_round_trip(wk: bool, wq: bool, bk: bool, bq: bool)
    ensures
        parse_castles(castles_print(wk, wq, bk, bq)) == Ok::<_, FenParseError>((wk, wq, bk, bq)),
{
    if !wk && !wq && !bk && !bq {
    } else {
        let s0 = Seq::<char>::empty();
        let p1 = if wk {
            s0.push('K')
        } else {
            s0
        };
        let p2 = if wq {
            p1.push('Q')
        } else {
            p1
        };
        let p3 = if bk {
            p2.push('k')
        } else {
            p2
        };
        let p4 = if bq {
            p3.push('q')
        } else {
            p3
        };
        if wk {
            lemma_castles_scan_push(s0, 'K');
        }
        assert(castles_scan(p1) == Some((wk, false, false, false)));
        if wq {
            lemma_castles_scan_push(p1, 'Q');
        }
        assert(castles_scan(p2) == Some((wk, wq, false, false)));
        if bk {
            lemma_castles_scan_push(p2, 'k');
        }
        assert(castles_scan(p3) == Some((wk, wq, bk, false)));
        if bq {
            lemma_castles_scan_push(p3, 'q');
        }
        assert(castles_scan(p4) == Some((wk, wq, bk, bq)));
        assert(castles_print(wk, wq, bk, bq) =~= p4);
        assert(1 <= p4.len() <= 4);
        if p4.len() == 1 {
            assert(p4[0] != '-');
        }
    }
}

/// Castling text never holds a space.
proof fn lemma_castles_print_chars(wk: bool, wq: bool, bk: bool, bq: bool)
    ensures
        no_char(castles_print(wk, wq, bk, bq), ' '),
{
}

/// The en-passant field: `-` for no target, else an algebraic square; a
/// coordinate error is propagated as the cause.
pub open spec fn parse_ep(s: Seq<char>) -> Result<Option<(u8, u8)>, FenParseError> {
    if s.len() == 1 && s[0] == '-' {
        Ok(None)
    } else {
        match alg_parse(s) {
            Ok(rc) => Ok(Some(rc)),
            Err(ce) => Err(FenParseError::InvalidEnPassantField(ce)),
        }
    }
}

pub open spec fn ep_print(ep: Option<(u8, u8)>) -> Seq<char> {
    match ep {
        None => seq!['-'],
        Some(rc) => alg_chars(rc.0, rc.1),
    }
}

/// Reads the en-passant field, as `parse_ep` describes.
pub fn word_into_en_passant(w: &str) -> (r: Result<Option<Square>, FenParseError>)
    ensures
        match r {
            Ok(None) => parse_ep(w@) == Ok::<Option<(u8, u8)>, FenParseError>(None),
            Ok(Some(sq)) => parse_ep(w@) == Ok::<Option<(u8, u8)>, FenParseError>(
                Some((sq.spec_row(), sq.spec_col())),
            ) && sq.wf(),
            Err(e) => parse_ep(w@) == Err::<Option<(u8, u8)>, FenParseError>(e),
        },
{
    let n = w.unicode_len();
    if n == 1 && w.get_char(0) == '-' {
        return Ok(None);
    }
    match Square::from_algebraic(w) {
        Ok(sq) => Ok(Some(sq)),
        Err(ce) => Err(FenParseError::InvalidEnPassantField(ce)),
    }
}

/// Printing an en-passant target and reading it back returns the same
/// target.
pub proof fn lemma_ep_round_trip(ep: Option<(u8, u8)>)
    requires
        ep matches Some(rc) ==> rc.0 < 8 && rc.1 < 8,
    ensures
        parse_ep(ep_print(ep)) == Ok::<_, FenParseError>(ep),
{
    match ep {
        None => {},
        Some(rc) => {
            lemma_algebraic_round_trip(rc.0, rc.1);
        },
    }
}

/// The halfmove clock: a non-negative decimal that fits the counter.
pub open spec fn parse_halfmove(s: Seq<char>) -> Result<u32, FenParseError> {
    match dec_parse(s) {
        Some(v) => if v <= u32::MAX {
            Ok(v as u32)
        } else {
            Err(FenParseError::InvalidHalfmoveField)
        },
        None => Err(FenParseError::InvalidHalfmoveField),
    }
}

/// The fullmove number: a positive decimal that fits the counter.
pub open spec fn parse_fullmove(s: Seq<char>) -> Result<u32, FenParseError> {
    match dec_parse(s) {
        Some(v) => if 1 <= v <= u32::MAX {
            Ok(v as u32)
        } else {
            Err(FenParseError::InvalidFullmoveField)
        },
        None => Err(FenParseError::InvalidFullmoveField),
    }
}

/// Reads the halfmove clock, as `parse_halfmove` describes.
pub fn word_into_halfmove(w: &str) -> (r: Result<u32, FenParseError>)
    ensures
        r == parse_halfmove(w@),
{
    match word_into_u32(w) {
        Some(v) => Ok(v),
        None => Err(FenParseError::InvalidHalfmoveField),
    }
}

/// Reads the fullmove number, as `parse_fullmove` describes.
pub fn word_into_fullmove(w: &str) -> (r: Result<u32, FenParseError>)
    ensures
        r == parse_fullmove(w@),
{
    match word_into_u32(w) {
        Some(v) => {
            if v == 0 {
                Err(FenParseError::InvalidFullmoveField)
            } else {
                Ok(v)
            }
        },
        None => Err(FenParseError::InvalidFullmoveField),
    }
}

// ---------------------------------------------------------------------------
// The whole position.
// ---------------------------------------------------------------------------

/// The mathematical content of a position: the 64 board slots, the side to
/// move, the four castling rights, the en-passant target as a (row, col)
/// pair, and the two counters.
#[verifier::ext_equal]
pub struct FenView {
    pub board: Seq<Option<ColoredPiece>>,
    pub turn: Color,
    pub white_short_castle: bool,
    pub white_long_castle: bool,
    pub black_short_castle: bool,
    pub black_long_castle: bool,
    pub en_passant: Option<(u8, u8)>,
    pub half_moves: u32,
    pub moves: u32,
}

impl FenView {
    pub open spec fn wf(self) -> bool {
        &&& self.board.len() == 64
        &&& self.en_passant matches Some(rc) ==> rc.0 < 8 && rc.1 < 8
        &&& self.moves >= 1
    }
}

/// The position a FEN string describes: six space-separated fields, each
/// read by its field parser, combined only when all succeed; the field
/// count is checked first, then the fields in order.
pub open spec fn fen_parse_spec(s: Seq<char>) -> Result<FenView, FenParseError> {
    let ws = split_on(s, ' ');
    if ws.len() != 6 {
        Err(FenParseError::WrongFieldCount(ws.len() as usize))
    } else {
        match parse_placement(ws[0]) {
            Err(e) => Err(e),
            Ok(board) => match parse_turn(ws[1]) {
                Err(e) => Err(e),
                Ok(turn) => match parse_castles(ws[2]) {
                    Err(e) => Err(e),
                    Ok(cs) => match parse_ep(ws[3]) {
                        Err(e) => Err(e),
                        Ok(ep) => match parse_halfmove(ws[4]) {
                            Err(e) => Err(e),
                            Ok(half) => match parse_fullmove(ws[5]) {
                                Err(e) => Err(e),
                                Ok(full) => Ok(FenView {
                                    board,
                                    turn,
                                    white_short_castle: cs.0,
                                    white_long_castle: cs.1,
                                    black_short_castle: cs.2,
                                    black_long_castle: cs.3,
                                    en_passant: ep,
                                    half_moves: half,
                                    moves: full,
                                }),
                            },
                        },
                    },
                },
            },
        }
    }
}

/// The FEN text of a position: the six fields, each printed by its field
/// printer, joined by single spaces.
pub open spec fn fen_print_spec(v: FenView) -> Seq<char> {
    placement_print(v.board) + seq![' '] + turn_print(v.turn) + seq![' '] + castles_print(
        v.white_short_castle,
        v.white_long_castle,
        v.black_short_castle,
        v.black_long_castle,
    ) + seq![' '] + ep_print(v.en_passant) + seq![' '] + dec_print(v.half_moves as int) + seq![' ']
        + dec_print(v.moves as int)
}

/// A full chess position: board, side to move, castling rights, en-passant
/// target, halfmove clock and fullmove number. Built only by a successful
/// parse or by explicit construction; immutable once built.
pub struct Fen {
    board: Board,
    turn: Color,
    white_short_castle: bool,
    white_long_castle: bool,
    black_short_castle: bool,
    black_long_castle: bool,
    en_passant: Option<Square>,
    half_moves: u32,
    moves: u32,
}

impl View for Fen {
    type V = FenView;

    closed spec fn view(&self) -> FenView {
        FenView {
            board: self.board@,
            turn: self.turn,
            white_short_castle: self.white_short_castle,
            white_long_castle: self.white_long_castle,
            black_short_castle: self.black_short_castle,
            black_long_castle: self.black_long_castle,
            en_passant: match self.en_passant {
                None => None,
                Some(sq) => Some((sq.spec_row(), sq.spec_col())),
            },
            half_moves: self.half_moves,
            moves: self.moves,
        }
    }
}

impl Fen {
    pub open spec fn wf(self) -> bool {
        self@.wf()
    }

    /// Builds a position field by field.
    pub fn new(
        board: Board,
        turn: Color,
        white_short_castle: bool,
        white_long_castle: bool,
        black_short_castle: bool,
        black_long_castle: bool,
        en_passant: Option<Square>,
        half_moves: u32,
        moves: u32,
    ) -> (fen: Fen)
        requires
            board.wf(),
            en_passant matches Some(sq) ==> sq.wf(),
            moves >= 1,
        ensures
            fen.wf(),
            fen@ == (FenView {
                board: board@,
                turn,
                white_short_castle,
                white_long_castle,
                black_short_castle,
                black_long_castle,
                en_passant: match en_passant {
                    None => None,
                    Some(sq) => Some((sq.spec_row(), sq.spec_col())),
                },
                half_moves,
                moves,
            }),
    {
        Fen {
            board,
            turn,
            white_short_castle,
            white_long_castle,
            black_short_castle,
            black_long_castle,
            en_passant,
            half_moves,
            moves,
        }
    }

    /// The board of the position.
    pub fn board(&self) -> (b: &Board)
        ensures
            b@ == self@.board,
    {
        &self.board
    }

    /// The side to move.
    pub fn turn(&self) -> (c: Color)
        ensures
            c == self@.turn,
    {
        self.turn
    }

    /// The four castling rights, in the order white-kingside,
    /// white-queenside, black-kingside, black-queenside.
    pub fn castles(&self) -> (c: (bool, bool, bool, bool))
        ensures
            c == (self@.white_short_castle, self@.white_long_castle, self@.black_short_castle,
            self@.black_long_castle),
    {
        (self.white_short_castle, self.white_long_castle, self.black_short_castle,
        self.black_long_castle)
    }

    /// The en-passant target square, if any.
    pub fn en_passant(&self) -> (ep: Option<Square>)
        ensures
            (ep is None) == (self@.en_passant is None),
            ep matches Some(sq) ==> self@.en_passant == Some((sq.spec_row(), sq.spec_col())),
    {
        self.en_passant
    }

    /// The halfmove clock: plies since the last capture or pawn move.
    pub fn half_moves(&self) -> (n: u32)
        ensures
            n == self@.half_moves,
    {
        self.half_moves
    }

    /// The fullmove number, 1 at the start of a game.
    pub fn moves(&self) -> (n: u32)
        ensures
            n == self@.moves,
    {
        self.moves
    }

    /// Reads a position from FEN text, as `fen_parse_spec` describes:
    /// either a fully-populated, well-formed position or the first error,
    /// never a partial result.
    pub fn parse(s: &str) -> (r: Result<Fen, FenParseError>)
        ensures
            match r {
                Ok(fen) => fen_parse_spec(s@) == Ok::<FenView, FenParseError>(fen@) && fen.wf(),
                Err(e) => fen_parse_spec(s@) == Err::<FenView, FenParseError>(e),
            },
    {
        let words: Vec<&str> = split_str(s, ' ');
        if words.len() != 6 {
            return Err(FenParseError::WrongFieldCount(words.len()));
        }
        let board = match string_into_board(words[0]) {
            Ok(b) => b,
            Err(e) => {
                return Err(e);
            },
        };
        let turn = match word_into_turn(words[1]) {
            Ok(t) => t,
            Err(e) => {
                return Err(e);
            },
        };
        let cs = match word_into_castles(words[2]) {
            Ok(c) => c,
            Err(e) => {
                return Err(e);
            },
        };
        let en_passant = match word_into_en_passant(words[3]) {
            Ok(ep) => ep,
            Err(e) => {
                return Err(e);
            },
        };
        let half_moves = match word_into_halfmove(words[4]) {
            Ok(h) => h,
            Err(e) => {
                return Err(e);
            },
        };
        let moves = match word_into_fullmove(words[5]) {
            Ok(m) => m,
            Err(e) => {
                return Err(e);
            },
        };
        let fen = Fen {
            board,
            turn,
            white_short_castle: cs.0,
            white_long_castle: cs.1,
            black_short_castle: cs.2,
            black_long_castle: cs.3,
            en_passant,
            half_moves,
            moves,
        };
        Ok(fen)
    }

    /// Writes the position as FEN text, the exact syntactic inverse of
    /// parsing, as `fen_print_spec` describes.
    pub fn to_fen(&self) -> (r: String)
        requires
            self.wf(),
        ensures
            r@ == fen_print_spec(self@),
    {
        let mut out = String::new();
        append_placement(&mut out, &self.board);
        append_space(&mut out);
        append_turn(&mut out, self.turn);
        append_space(&mut out);
        append_castles(
            &mut out,
            self.white_short_castle,
            self.white_long_castle,
            self.black_short_castle,
            self.black_long_castle,
        );
        append_space(&mut out);
        match &self.en_passant {
            None => {
                append_dash(&mut out);
            },
            Some(sq) => {
                let alg = sq.to_algebraic();
                out.append(alg.as_str());
            },
        }
        append_space(&mut out);
        append_dec(&mut out, self.half_moves);
        append_space(&mut out);
        append_dec(&mut out, self.moves);
        proof {
            assert(out@ =~= fen_print_spec(self@));
        }
        out
    }
}

/// Appends the single field separator.
fn append_space(out: &mut String)
    ensures
        final(out)@ == old(out)@ + seq![' '],
{
    out.append(" ");
    proof {
        reveal_strlit(" ");
        assert(" "@ =~= seq![' ']);
    }
}

/// Appends the placeholder for an absent value.
fn append_dash(out: &mut String)
    ensures
        final(out)@ == old(out)@ + seq!['-'],
{
    out.append("-");
    proof {
        reveal_strlit("-");
        assert("-"@ =~= seq!['-']);
    }
}

/// Appends the side-to-move letter.
fn append_turn(out: &mut String, c: Color)
    ensures
        final(out)@ == old(out)@ + turn_print(c),
{
    match c {
        Color::White => {
            out.append("w");
            proof {
                reveal_strlit("w");
                assert("w"@ =~= turn_print(c));
            }
        },
        Color::Black => {
            out.append("b");
            proof {
                reveal_strlit("b");
                assert("b"@ =~= turn_print(c));
            }
        },
    }
}

/// Appends the castling field: present letters in the order K, Q, k, q, or
/// `-` when none is set.
fn append_castles(out: &mut String, wk: bool, wq: bool, bk: bool, bq: bool)
    ensures
        final(out)@ == old(out)@ + castles_print(wk, wq, bk, bq),
{
    if !wk && !wq && !bk && !bq {
        append_dash(out);
    } else {
        let ghost start = out@;
        if wk {
            out.append("K");
            proof {
                reveal_strlit("K");
                assert("K"@ =~= seq!['K']);
            }
        }
        let ghost o1 = out@;
        proof {
            assert(o1 =~= start + (if wk {
                seq!['K']
            } else {
                Seq::<char>::empty()
            }));
        }
        if wq {
            out.append("Q");
            proof {
                reveal_strlit("Q");
                assert("Q"@ =~= seq!['Q']);
            }
        }
        let ghost o2 = out@;
        proof {
            assert(o2 =~= start + ((if wk {
                seq!['K']
            } else {
                Seq::<char>::empty()
            }) + (if wq {
                seq!['Q']
            } else {
                Seq::<char>::empty()
            })));
        }
        if bk {
            out.append("k");
            proof {
                reveal_strlit("k");
                assert("k"@ =~= seq!['k']);
            }
        }
        let ghost o3 = out@;
        proof {
            assert(o3 =~= start + ((if wk {
                seq!['K']
            } else {
                Seq::<char>::empty()
            }) + (if wq {
                seq!['Q']
            } else {
                Seq::<char>::empty()
            }) + (if bk {
                seq!['k']
            } else {
                Seq::<char>::empty()
            })));
        }
        if bq {
            out.append("q");
            proof {
                reveal_strlit("q");
                assert("q"@ =~= seq!['q']);
            }
        }
        proof {
            assert(out@ =~= start + castles_print(wk, wq, bk, bq));
        }
    }
}

/// Appends a decimal digit.
fn append_digit10(out: &mut String, d: u32)
    requires
        d < 10,
    ensures
        final(out)@ == old(out)@ + seq![dec_digit_char(d as int)],
{
    if d == 0 {
        out.append("0");
        proof {
            reveal_strlit("0");
            assert("0"@ =~= seq![dec_digit_char(d as int)]);
        }
    } else if d == 1 {
        out.append("1");
        proof {
            reveal_strlit("1");
            assert("1"@ =~= seq![dec_digit_char(d as int)]);
        }
    } else if d == 2 {
        out.append("2");
        proof {
            reveal_strlit("2");
            assert("2"@ =~= seq![dec_digit_char(d as int)]);
        }
    } else if d == 3 {
        out.append("3");
        proof {
            reveal_strlit("3");
            assert("3"@ =~= seq![dec_digit_char(d as int)]);
        }
    } else if d == 4 {
        out.append("4");
        proof {
            reveal_strlit("4");
            assert("4"@ =~= seq![dec_digit_char(d as int)]);
        }
    } else if d == 5 {
        out.append("5");
        proof {
            reveal_strlit("5");
            assert("5"@ =~= seq![dec_digit_char(d as int)]);
        }
    } else if d == 6 {
        out.append("6");
        proof {
            reveal_strlit("6");
            assert("6"@ =~= seq![dec_digit_char(d as int)]);
        }
    } else if d == 7 {
        out.append("7");
        proof {
            reveal_strlit("7");
            assert("7"@ =~= seq![dec_digit_char(d as int)]);
        }
    } else if d == 8 {
        out.append("8");
        proof {
            reveal_strlit("8");
            assert("8"@ =~= seq![dec_digit_char(d as int)]);
        }
    } else {
        out.append("9");
        proof {
            reveal_strlit("9");
            assert("9"@ =~= seq![dec_digit_char(d as int)]);
        }
    }
}

/// Appends a counter in shortest decimal form.
fn append_dec(out: &mut String, n: u32)
    ensures
        final(out)@ == old(out)@ + dec_print(n as int),
    decreases n,
{
    if n < 10 {
        append_digit10(out, n);
    } else {
        proof {
            assert(n / 10 < n);
        }
        append_dec(out, n / 10);
        append_digit10(out, n % 10);
        proof {
            assert(old(out)@ + dec_print(n as int / 10) + seq![dec_digit_char(n as int % 10)]
                =~= old(out)@ + dec_print(n as int));
        }
    }
}

// ---------------------------------------------------------------------------
// The round trip: encode then decode is the identity.
// ---------------------------------------------------------------------------

/// En-passant text never holds a space.
proof fn lemma_ep_print_chars(ep: Option<(u8, u8)>)
    ensures
        no_char(ep_print(ep), ' '),
{
}

/// Counter text never holds a space.
proof fn lemma_dec_print_no_space(n: int)
    requires
        n >= 0,
    ensures
        no_char(dec_print(n), ' '),
{
    lemma_dec_print_digits(n);
    assert forall|i: int| 0 <= i < dec_print(n).len() implies dec_print(n)[i] != ' ' by {
        assert(is_dec_digit(dec_print(n)[i]));
    }
}

/// Splitting a field off the front: a space-free field followed by a space
/// becomes the first piece.
proof fn lemma_split_field(a: Seq<char>, rest: Seq<char>)
    requires
        no_char(a, ' '),
    ensures
        split_on(a + seq![' '] + rest, ' ') == seq![a] + split_on(rest, ' '),
{
    let t = seq![' '] + rest;
    assert(a + seq![' '] + rest =~= a + t);
    lemma_split_on_prefix(a, t, ' ');
    lemma_split_on_len(rest, ' ');
    assert(t[0] == ' ');
    assert(t.skip(1) =~= rest);
    assert(split_on(t, ' ') == seq![Seq::<char>::empty()] + split_on(rest, ' '));
    assert(split_on(t, ' ')[0] == Seq::<char>::empty());
    assert(a + split_on(t, ' ')[0] =~= a);
    assert(split_on(t, ' ').skip(1) =~= split_on(rest, ' '));
    assert(split_on(a + t, ' ') =~= seq![a] + split_on(rest, ' '));
}

/// A space-free string splits into itself alone.
proof fn lemma_split_single(a: Seq<char>)
    requires
        no_char(a, ' '),
    ensures
        split_on(a, ' ') == seq![a],
{
    lemma_split_on_prefix(a, Seq::empty(), ' ');
    assert(a + Seq::<char>::empty() =~= a);
    assert(split_on(Seq::<char>::empty(), ' ') == seq![Seq::<char>::empty()]);
    assert(a + split_on(Seq::<char>::empty(), ' ')[0] =~= a);
    assert(split_on(Seq::<char>::empty(), ' ').skip(1) =~= Seq::<Seq<char>>::empty());
    assert(split_on(a, ' ') =~= seq![a]);
}

/// FEN round trip: a well-formed position, written as FEN text and parsed
/// back, is recovered exactly, board slots, rights, target and counters
/// alike.
#[verifier::rlimit(50)]
pub proof fn lemma_fen_round_trip(v: FenView)
    requires
        v.wf(),
    ensures
        fen_parse_spec(fen_print_spec(v)) == Ok::<FenView, FenParseError>(v),
{
    let f0 = placement_print(v.board);
    let f1 = turn_print(v.turn);
    let f2 = castles_print(
        v.white_short_castle,
        v.white_long_castle,
        v.black_short_castle,
        v.black_long_castle,
    );
    let f3 = ep_print(v.en_passant);
    let f4 = dec_print(v.half_moves as int);
    let f5 = dec_print(v.moves as int);
    assert forall|i: int| 0 <= i < 8 implies no_char(
        #[trigger] placement_groups(v.board)[i],
        ' ',
    ) by {
        lemma_rank_print_chars(rank_slice(v.board, 7 - i));
    }
    lemma_join_no_char(placement_groups(v.board), '/', ' ');
    assert(no_char(f0, ' '));
    assert(no_char(f1, ' '));
    lemma_castles_print_chars(
        v.white_short_castle,
        v.white_long_castle,
        v.black_short_castle,
        v.black_long_castle,
    );
    lemma_ep_print_chars(v.en_passant);
    lemma_dec_print_no_space(v.half_moves as int);
    lemma_dec_print_no_space(v.moves as int);
    let r5 = f5;
    let r4 = f4 + seq![' '] + r5;
    let r3 = f3 + seq![' '] + r4;
    let r2 = f2 + seq![' '] + r3;
    let r1 = f1 + seq![' '] + r2;
    let r0 = f0 + seq![' '] + r1;
    assert(fen_print_spec(v) =~= r0);
    lemma_split_single(f5);
    lemma_split_field(f4, r5);
    lemma_split_field(f3, r4);
    lemma_split_field(f2, r3);
    lemma_split_field(f1, r2);
    lemma_split_field(f0, r1);
    let ws = split_on(fen_print_spec(v), ' ');
    assert(ws =~= seq![f0] + (seq![f1] + (seq![f2] + (seq![f3] + (seq![f4] + seq![f5])))));
    assert(ws.len() == 6);
    assert(ws[0] == f0);
    assert(ws[1] == f1);
    assert(ws[2] == f2);
    assert(ws[3] == f3);
    assert(ws[4] == f4);
    assert(ws[5] == f5);
    lemma_placement_round_trip(v.board);
    assert(parse_turn(f1) == Ok::<Color, FenParseError>(v.turn));
    lemma_castles_round_trip(
        v.white_short_castle,
        v.white_long_castle,
        v.black_short_castle,
        v.black_long_castle,
    );
    lemma_ep_round_trip(v.en_passant);
    lemma_dec_round_trip(v.half_moves as int);
    lemma_dec_round_trip(v.moves as int);
    assert(parse_halfmove(f4) == Ok::<u32, FenParseError>(v.half_moves));
    assert(parse_fullmove(f5) == Ok::<u32, FenParseError>(v.moves));
    let w = fen_parse_spec(fen_print_spec(v))->Ok_0;
    assert(w =~= v);
}

/// Encode then decode is the identity on canonical FEN text: any string
/// that some well-formed position prints to parses back to a position that
/// prints to the same string.
pub proof fn lemma_fen_canonical_round_trip(s: Seq<char>, v: FenView)
    requires
        v.wf(),
        s == fen_print_spec(v),
    ensures
        fen_parse_spec(s) matches Ok(w) && fen_print_spec(w) == s,
{
    lemma_fen_round_trip(v);
}

/// Field-count rejection: a string that does not split into exactly six
/// space-separated fields is rejected with `WrongFieldCount` carrying the
/// count found, before any per-field error.
pub proof fn lemma_wrong_field_count(s: Seq<char>)
    requires
        split_on(s, ' ').len() != 6,
    ensures
        fen_parse_spec(s) == Err::<FenView, FenParseError>(
            FenParseError::WrongFieldCount(split_on(s, ' ').len() as usize),
        ),
{
}

/// How many columns a rank group claims: a count digit its count, a
/// placement letter one.
pub open spec fn rank_width(g: Seq<char>) -> int
    decreases g.len(),
{
    if g.len() == 0 {
        0
    } else {
        (match count_val(g[0]) {
            Some(d) => d,
            None => 1,
        }) + rank_width(g.skip(1))
    }
}

/// Every character of the group is a count digit or a placement letter.
pub open spec fn rank_chars_valid(g: Seq<char>) -> bool {
    forall|i: int|
        0 <= i < g.len() ==> count_val(#[trigger] g[i]) is Some || char_piece(g[i]) is Some
}

proof fn lemma_rank_wrong_length_rec(g: Seq<char>, row: u8, acc: Seq<Option<ColoredPiece>>)
    requires
        rank_chars_valid(g),
        acc.len() + rank_width(g) != 8,
    ensures
        parse_rank_rec(g, row, acc) == Err::<Seq<Option<ColoredPiece>>, FenParseError>(
            FenParseError::IncorrectRowLength(row),
        ),
    decreases g.len(),
{
    if g.len() > 0 {
        assert(count_val(g[0]) is Some || char_piece(g[0]) is Some);
        assert(forall|i: int| 0 <= i < g.skip(1).len() ==> #[trigger] g.skip(1)[i] == g[i + 1]);
        match count_val(g[0]) {
            Some(d) => {
                if acc.len() + d <= 8 {
                    lemma_rank_wrong_length_rec(g.skip(1), row, acc + empty_run(d));
                }
            },
            None => {
                if acc.len() + 1 <= 8 {
                    lemma_rank_wrong_length_rec(g.skip(1), row, acc.push(Some(char_piece(g[0])->Some_0)));
                }
            },
        }
    }
}

/// Row-length rejection: a rank group of valid characters whose columns sum
/// to anything other than exactly eight is rejected with
/// `IncorrectRowLength` carrying the row.
pub proof fn lemma_rank_wrong_length(g: Seq<char>, row: u8)
    requires
        rank_chars_valid(g),
        rank_width(g) != 8,
    ensures
        parse_rank(g, row) == Err::<Seq<Option<ColoredPiece>>, FenParseError>(
            FenParseError::IncorrectRowLength(row),
        ),
{
    lemma_rank_wrong_length_rec(g, row, Seq::empty());
}

} // verus!
