//! A chess position library: validated board coordinates, an 8x8 board of
//! optionally-occupied squares, and a codec for Forsyth-Edwards Notation
//! (FEN), the standard single-line text encoding of a chess position.

pub mod board;
pub mod fen;
