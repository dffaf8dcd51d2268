use fenreader::board::color::Color;
use fenreader::board::piece::{ColoredPiece, Piece};
use fenreader::board::square::{MalformedReason, CoordinateError, Square};
use fenreader::board::Board;
use fenreader::fen::{Fen, FenParseError};

const START: &str = "rnbqkbnr/pppppppp/8/8/8/8/PPPPPPPP/RNBQKBNR w KQkq - 0 1";

#[test]
fn parse_start_position_fields() {
    let fen = Fen::parse(START).unwrap();
    assert!(fen.turn().is_white());
    assert_eq!(fen.castles(), (true, true, true, true));
    assert!(fen.en_passant().is_none());
    assert_eq!(fen.half_moves(), 0);
    assert_eq!(fen.moves(), 1);
    let e1 = Square::from_algebraic("e1").unwrap();
    let d8 = Square::from_algebraic("d8").unwrap();
    let e4 = Square::from_algebraic("e4").unwrap();
    let a2 = Square::from_algebraic("a2").unwrap();
    assert_eq!(
        *fen.board().get(&e1),
        Some(ColoredPiece(Color::White, Piece::King))
    );
    assert_eq!(
        *fen.board().get(&d8),
        Some(ColoredPiece(Color::Black, Piece::Queen))
    );
    assert!(fen.board().get(&e4).is_none());
    assert_eq!(
        *fen.board().get(&a2),
        Some(ColoredPiece(Color::White, Piece::Pawn))
    );
}

#[test]
fn fen_round_trip_start_position() {
    let fen = Fen::parse(START).unwrap();
    assert_eq!(fen.to_fen(), START);
}

#[test]
fn fen_round_trip_en_passant_position() {
    let s = "rnbqkbnr/pppppppp/8/8/4P3/8/PPPP1PPP/RNBQKBNR b KQkq e3 0 1";
    let fen = Fen::parse(s).unwrap();
    assert!(fen.turn().is_black());
    let e3 = Square::from_algebraic("e3").unwrap();
    assert_eq!(fen.en_passant(), Some(e3));
    assert_eq!(fen.to_fen(), s);
}

#[test]
fn fen_round_trip_endgame_counters() {
    let s = "8/8/8/8/8/8/8/4K2k w - - 12 42";
    let fen = Fen::parse(s).unwrap();
    assert_eq!(fen.half_moves(), 12);
    assert_eq!(fen.moves(), 42);
    assert_eq!(fen.castles(), (false, false, false, false));
    assert_eq!(fen.to_fen(), s);
}

#[test]
fn wrong_field_count_rejected() {
    assert!(matches!(
        Fen::parse("a b c"),
        Err(FenParseError::WrongFieldCount(3))
    ));
    assert!(matches!(
        Fen::parse("a b c d e f g"),
        Err(FenParseError::WrongFieldCount(7))
    ));
    assert!(matches!(
        Fen::parse(""),
        Err(FenParseError::WrongFieldCount(1))
    ));
}

#[test]
fn wrong_row_count_rejected() {
    assert!(matches!(
        Fen::parse("8/8/8/8/8/8/8 w - - 0 1"),
        Err(FenParseError::WrongRowCount(7))
    ));
    assert!(matches!(
        Fen::parse("8/8/8/8/8/8/8/8/8 w - - 0 1"),
        Err(FenParseError::WrongRowCount(9))
    ));
}

#[test]
fn short_row_rejected() {
    assert!(matches!(
        Fen::parse("rnbqkbnr/ppppppp/8/8/8/8/PPPPPPPP/RNBQKBNR w KQkq - 0 1"),
        Err(FenParseError::IncorrectRowLength(6))
    ));
}

#[test]
fn long_row_rejected() {
    assert!(matches!(
        Fen::parse("rnbqkbnr/ppppppppp/8/8/8/8/PPPPPPPP/RNBQKBNR w KQkq - 0 1"),
        Err(FenParseError::IncorrectRowLength(6))
    ));
    assert!(matches!(
        Fen::parse("8p/8/8/8/8/8/8/8 w - - 0 1"),
        Err(FenParseError::IncorrectRowLength(7))
    ));
}

#[test]
fn unknown_piece_letter_rejected() {
    assert!(matches!(
        Fen::parse("xnbqkbnr/pppppppp/8/8/8/8/PPPPPPPP/RNBQKBNR w KQkq - 0 1"),
        Err(FenParseError::UnknownPieceLetter('x'))
    ));
    assert!(matches!(
        Fen::parse("9/8/8/8/8/8/8/8 w - - 0 1"),
        Err(FenParseError::UnknownPieceLetter('9'))
    ));
    assert!(matches!(
        Fen::parse("0/8/8/8/8/8/8/8 w - - 0 1"),
        Err(FenParseError::UnknownPieceLetter('0'))
    ));
}

#[test]
fn invalid_turn_rejected() {
    assert!(matches!(
        Fen::parse("8/8/8/8/8/8/8/8 x - - 0 1"),
        Err(FenParseError::InvalidTurnField)
    ));
    assert!(matches!(
        Fen::parse("8/8/8/8/8/8/8/8 ww - - 0 1"),
        Err(FenParseError::InvalidTurnField)
    ));
}

#[test]
fn castling_accepted_forms() {
    let all = Fen::parse("8/8/8/8/8/8/8/8 w KQkq - 0 1").unwrap();
    assert_eq!(all.castles(), (true, true, true, true));
    let none = Fen::parse("8/8/8/8/8/8/8/8 w - - 0 1").unwrap();
    assert_eq!(none.castles(), (false, false, false, false));
    let some = Fen::parse("8/8/8/8/8/8/8/8 w Kq - 0 1").unwrap();
    assert_eq!(some.castles(), (true, false, false, true));
}

#[test]
fn castling_rejected_forms() {
    assert!(matches!(
        Fen::parse("8/8/8/8/8/8/8/8 w X - 0 1"),
        Err(FenParseError::InvalidCastlingField)
    ));
    assert!(matches!(
        Fen::parse("8/8/8/8/8/8/8/8 w -K - 0 1"),
        Err(FenParseError::InvalidCastlingField)
    ));
    assert!(matches!(
        Fen::parse("8/8/8/8/8/8/8/8 w KQkqK - 0 1"),
        Err(FenParseError::InvalidCastlingField)
    ));
}

#[test]
fn en_passant_rejected_with_cause() {
    assert!(matches!(
        Fen::parse("8/8/8/8/8/8/8/8 w - e9 0 1"),
        Err(FenParseError::InvalidEnPassantField(
            CoordinateError::MalformedAlgebraic(MalformedReason::BadRankDigit)
        ))
    ));
    assert!(matches!(
        Fen::parse("8/8/8/8/8/8/8/8 w - x3 0 1"),
        Err(FenParseError::InvalidEnPassantField(
            CoordinateError::MalformedAlgebraic(MalformedReason::BadFileLetter)
        ))
    ));
    assert!(matches!(
        Fen::parse("8/8/8/8/8/8/8/8 w - abc 0 1"),
        Err(FenParseError::InvalidEnPassantField(
            CoordinateError::MalformedAlgebraic(MalformedReason::WrongLength)
        ))
    ));
}

#[test]
fn halfmove_rejected_forms() {
    assert!(matches!(
        Fen::parse("8/8/8/8/8/8/8/8 w - - x 1"),
        Err(FenParseError::InvalidHalfmoveField)
    ));
    assert!(matches!(
        Fen::parse("8/8/8/8/8/8/8/8 w - -  1"),
        Err(FenParseError::InvalidHalfmoveField)
    ));
    assert!(matches!(
        Fen::parse("8/8/8/8/8/8/8/8 w - - 99999999999 1"),
        Err(FenParseError::InvalidHalfmoveField)
    ));
}

#[test]
fn fullmove_rejected_forms() {
    assert!(matches!(
        Fen::parse("8/8/8/8/8/8/8/8 w - - 0 0"),
        Err(FenParseError::InvalidFullmoveField)
    ));
    assert!(matches!(
        Fen::parse("8/8/8/8/8/8/8/8 w - - 0 abc"),
        Err(FenParseError::InvalidFullmoveField)
    ));
    assert!(matches!(
        Fen::parse("8/8/8/8/8/8/8/8 w - - 0 4294967296"),
        Err(FenParseError::InvalidFullmoveField)
    ));
    let max = Fen::parse("8/8/8/8/8/8/8/8 w - - 0 4294967295").unwrap();
    assert_eq!(max.moves(), 4294967295);
}

#[test]
fn non_canonical_inputs_accepted_and_reprinted_canonically() {
    let f = Fen::parse("8/8/8/8/8/8/8/8 w KK - 007 1").unwrap();
    assert_eq!(f.castles(), (true, false, false, false));
    assert_eq!(f.half_moves(), 7);
    assert_eq!(f.to_fen(), "8/8/8/8/8/8/8/8 w K - 7 1");
}

#[test]
fn trailing_space_changes_field_count() {
    assert!(matches!(
        Fen::parse("8/8/8/8/8/8/8/8 w - - 0 1 "),
        Err(FenParseError::WrongFieldCount(7))
    ));
    assert!(matches!(
        Fen::parse(" 8/8/8/8/8/8/8/8 w - - 0 1"),
        Err(FenParseError::WrongFieldCount(7))
    ));
}

#[test]
fn empty_rank_group_rejected() {
    assert!(matches!(
        Fen::parse("8/8//8/8/8/8/8 w - - 0 1"),
        Err(FenParseError::IncorrectRowLength(5))
    ));
}

#[test]
fn constructed_position_prints_canonically() {
    let board = Board::new();
    let fen = Fen::new(board, Color::White, false, false, false, false, None, 0, 1);
    assert_eq!(fen.to_fen(), "8/8/8/8/8/8/8/8 w - - 0 1");
}

#[test]
fn constructed_position_with_pieces_round_trips() {
    let mut board = Board::new();
    let e4 = Square::from_algebraic("e4").unwrap();
    let c6 = Square::from_algebraic("c6").unwrap();
    board.set(&e4, ColoredPiece(Color::White, Piece::King)).unwrap();
    board.set(&c6, ColoredPiece(Color::Black, Piece::King)).unwrap();
    let d6 = Square::from_algebraic("d6").unwrap();
    let fen = Fen::new(board, Color::Black, true, false, false, true, Some(d6), 99, 120);
    let text = fen.to_fen();
    assert_eq!(text, "8/8/2k5/8/4K3/8/8/8 b Kq d6 99 120");
    let back = Fen::parse(&text).unwrap();
    assert_eq!(back.to_fen(), text);
    assert_eq!(back.castles(), (true, false, false, true));
    assert_eq!(back.en_passant(), Some(d6));
    assert_eq!(back.half_moves(), 99);
    assert_eq!(back.moves(), 120);
}
