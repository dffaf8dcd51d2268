use vstd::prelude::*;
use crate::board::color::Color;

verus! {

/// The six chess piece kinds, without a color.
#[derive(Clone, Copy, PartialEq, Eq, Structural, Debug)]
pub enum Piece {
    Pawn,
    Knight,
    Bishop,
    Rook,
    Queen,
    King,
}

/// A piece kind together with the side it belongs to; equality is structural.
#[derive(Clone, Copy, PartialEq, Eq, Structural, Debug)]
pub struct ColoredPiece(pub Color, pub Piece);

/// Why a piece letter was rejected.
#[derive(Clone, Copy, PartialEq, Eq, Structural, Debug)]
pub enum PieceError {
    UnknownPieceLetter(char),
}

/// The piece kind named by an uppercase algebraic letter, if any.
/// Case denotes the piece kind only; color is carried separately by
/// `ColoredPiece`.
pub open spec fn piece_of_upper(c: char) -> Option<Piece> {
    match c {
        'P' => Some(Piece::Pawn),
        'N' => Some(Piece::Knight),
        'B' => Some(Piece::Bishop),
        'R' => Some(Piece::Rook),
        'Q' => Some(Piece::Queen),
        'K' => Some(Piece::King),
        _ => None,
    }
}

impl Piece {
    /// Reads a piece kind from its single uppercase algebraic letter
    /// (one of P, N, B, R, Q, K); any other character is rejected.
    pub fn from_algebraic(c: char) -> (r: Result<Piece, PieceError>)
        ensures
            match r {
                Ok(p) => piece_of_upper(c) == Some(p),
                Err(e) => piece_of_upper(c) is None && e == PieceError::UnknownPieceLetter(c),
            },
    {
        match c {
            'P' => Ok(Piece::Pawn),
            'N' => Ok(Piece::Knight),
            'B' => Ok(Piece::Bishop),
            'R' => Ok(Piece::Rook),
            'Q' => Ok(Piece::Queen),
            'K' => Ok(Piece::King),
            _ => Err(PieceError::UnknownPieceLetter(c)),
        }
    }

    /// The conventional glyph for the piece kind, from the white set.
    pub open spec fn glyph_spec(self) -> Seq<char> {
        match self {
            Piece::Pawn => "\u{2659}"@,
            Piece::Knight => "\u{2658}"@,
            Piece::Bishop => "\u{2657}"@,
            Piece::Rook => "\u{2656}"@,
            Piece::Queen => "\u{2655}"@,
            Piece::King => "\u{2654}"@,
        }
    }

    /// Renders the piece kind as its conventional Unicode chess glyph.
    /// Presentation only: nothing is parsed back from it.
    pub fn to_string(self) -> (r: &'static str)
        ensures
            r@ == self.glyph_spec(),
    {
        match self {
            Piece::Pawn => "\u{2659}",
            Piece::Knight => "\u{2658}",
            Piece::Bishop => "\u{2657}",
            Piece::Rook => "\u{2656}",
            Piece::Queen => "\u{2655}",
            Piece::King => "\u{2654}",
        }
    }
}

impl ColoredPiece {
    /// The conventional glyph: the white or the black set, by the color.
    pub open spec fn glyph_spec(self) -> Seq<char> {
        match self {
            ColoredPiece(Color::White, Piece::Pawn) => "\u{2659}"@,
            ColoredPiece(Color::White, Piece::Knight) => "\u{2658}"@,
            ColoredPiece(Color::White, Piece::Bishop) => "\u{2657}"@,
            ColoredPiece(Color::White, Piece::Rook) => "\u{2656}"@,
            ColoredPiece(Color::White, Piece::Queen) => "\u{2655}"@,
            ColoredPiece(Color::White, Piece::King) => "\u{2654}"@,
            ColoredPiece(Color::Black, Piece::Pawn) => "\u{265F}"@,
            ColoredPiece(Color::Black, Piece::Knight) => "\u{265E}"@,
            ColoredPiece(Color::Black, Piece::Bishop) => "\u{265D}"@,
            ColoredPiece(Color::Black, Piece::Rook) => "\u{265C}"@,
            ColoredPiece(Color::Black, Piece::Queen) => "\u{265B}"@,
            ColoredPiece(Color::Black, Piece::King) => "\u{265A}"@,
        }
    }

    /// Renders the colored piece as its conventional Unicode chess glyph;
    /// the white and black sets are visually distinct.
    pub fn to_string(self) -> (r: &'static str)
        ensures
            r@ == self.glyph_spec(),
    {
        match self {
            ColoredPiece(Color::White, Piece::Pawn) => "\u{2659}",
            ColoredPiece(Color::White, Piece::Knight) => "\u{2658}",
            ColoredPiece(Color::White, Piece::Bishop) => "\u{2657}",
            ColoredPiece(Color::White, Piece::Rook) => "\u{2656}",
            ColoredPiece(Color::White, Piece::Queen) => "\u{2655}",
            ColoredPiece(Color::White, Piece::King) => "\u{2654}",
            ColoredPiece(Color::Black, Piece::Pawn) => "\u{265F}",
            ColoredPiece(Color::Black, Piece::Knight) => "\u{265E}",
            ColoredPiece(Color::Black, Piece::Bishop) => "\u{265D}",
            ColoredPiece(Color::Black, Piece::Rook) => "\u{265C}",
            ColoredPiece(Color::Black, Piece::Queen) => "\u{265B}",
            ColoredPiece(Color::Black, Piece::King) => "\u{265A}",
        }
    }
}

} // verus!
