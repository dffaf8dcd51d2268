use fenreader::board::color::Color;
use fenreader::board::piece::{ColoredPiece, Piece, PieceError};
use fenreader::board::row::Row;
use fenreader::board::square::{CoordinateError, Square};
use fenreader::board::{Board, BoardError};

#[test]
fn new_has_correct_size() {
    let board = Board::new();
    assert!(board.len() == 64);
}

#[test]
fn set_and_get() {
    let mut board = Board::new();
    let a5 = Square::from_algebraic("a5").unwrap();
    let g6 = Square::from_algebraic("g6").unwrap();
    board.set(&a5, ColoredPiece(Color::Black, Piece::Bishop)).unwrap();
    assert!(board.get(&g6).is_none());
    assert!(board.get(&a5).is_some());
    assert_eq!(
        *board.get(&a5),
        Some(ColoredPiece(Color::Black, Piece::Bishop))
    );
}

#[test]
fn set_occupied_square_fails() {
    let mut board = Board::new();
    let g1 = Square::from_algebraic("g1").unwrap();
    board.set(&g1, ColoredPiece(Color::White, Piece::Knight)).unwrap();
    let second = board.set(&g1, ColoredPiece(Color::White, Piece::Queen));
    assert_eq!(second, Err(BoardError::SquareOccupied(g1)));
    assert_eq!(
        *board.get(&g1),
        Some(ColoredPiece(Color::White, Piece::Knight))
    );
}

#[test]
fn clear_square_then_set_again() {
    let mut board = Board::new();
    let d4 = Square::from_algebraic("d4").unwrap();
    board.set(&d4, ColoredPiece(Color::White, Piece::Rook)).unwrap();
    board.clear_square(&d4);
    assert!(board.get(&d4).is_none());
    board.clear_square(&d4);
    board.set(&d4, ColoredPiece(Color::Black, Piece::Queen)).unwrap();
    assert_eq!(
        *board.get(&d4),
        Some(ColoredPiece(Color::Black, Piece::Queen))
    );
}

#[test]
fn white_is_white() {
    assert!(Color::White.is_white());
    assert!(!Color::White.is_black());
}

#[test]
fn black_is_black() {
    assert!(Color::Black.is_black());
    assert!(!Color::Black.is_white());
}

#[test]
fn piece_to_string() {
    assert_eq!("♙", Piece::Pawn.to_string());
    assert_eq!("♘", Piece::Knight.to_string());
    assert_eq!("♗", Piece::Bishop.to_string());
    assert_eq!("♖", Piece::Rook.to_string());
    assert_eq!("♕", Piece::Queen.to_string());
    assert_eq!("♔", Piece::King.to_string());
}

#[test]
fn colored_piece_to_string() {
    assert_eq!("♙", ColoredPiece(Color::White, Piece::Pawn).to_string());
    assert_eq!("♘", ColoredPiece(Color::White, Piece::Knight).to_string());
    assert_eq!("♗", ColoredPiece(Color::White, Piece::Bishop).to_string());
    assert_eq!("♖", ColoredPiece(Color::White, Piece::Rook).to_string());
    assert_eq!("♕", ColoredPiece(Color::White, Piece::Queen).to_string());
    assert_eq!("♔", ColoredPiece(Color::White, Piece::King).to_string());
    assert_eq!("♟", ColoredPiece(Color::Black, Piece::Pawn).to_string());
    assert_eq!("♞", ColoredPiece(Color::Black, Piece::Knight).to_string());
    assert_eq!("♝", ColoredPiece(Color::Black, Piece::Bishop).to_string());
    assert_eq!("♜", ColoredPiece(Color::Black, Piece::Rook).to_string());
    assert_eq!("♛", ColoredPiece(Color::Black, Piece::Queen).to_string());
    assert_eq!("♚", ColoredPiece(Color::Black, Piece::King).to_string());
}

#[test]
fn piece_from_algebraic_letters() {
    assert_eq!(Piece::from_algebraic('P'), Ok(Piece::Pawn));
    assert_eq!(Piece::from_algebraic('N'), Ok(Piece::Knight));
    assert_eq!(Piece::from_algebraic('B'), Ok(Piece::Bishop));
    assert_eq!(Piece::from_algebraic('R'), Ok(Piece::Rook));
    assert_eq!(Piece::from_algebraic('Q'), Ok(Piece::Queen));
    assert_eq!(Piece::from_algebraic('K'), Ok(Piece::King));
    assert_eq!(
        Piece::from_algebraic('x'),
        Err(PieceError::UnknownPieceLetter('x'))
    );
    assert_eq!(
        Piece::from_algebraic('p'),
        Err(PieceError::UnknownPieceLetter('p'))
    );
}

#[test]
fn row_iterates_its_eight_squares() {
    let row = Row::new(5).unwrap();
    let mut it = row.into_iter();
    let expected = ["a6", "b6", "c6", "d6", "e6", "f6", "g6", "h6"];
    for name in expected {
        let sq = it.next().unwrap();
        assert_eq!(sq.to_algebraic(), name);
    }
    assert!(it.next().is_none());
}

#[test]
fn row_out_of_range() {
    assert!(matches!(Row::new(8), Err(CoordinateError::RowOutOfRange)));
    assert!(matches!(Row::new(42), Err(CoordinateError::RowOutOfRange)));
}
