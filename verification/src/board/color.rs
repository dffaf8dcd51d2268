use vstd::prelude::*;

verus! {

/// The two sides of a chess game, also used for the coloring of squares.
#[derive(Clone, Copy, PartialEq, Eq, Structural, Debug)]
pub enum Color {
    White,
    Black,
}

impl Color {
    pub fn is_white(&self) -> (r: bool)
        ensures
            r == (*self == Color::White),
    {
        match self {
            Color::White => true,
            Color::Black => false,
        }
    }

    pub fn is_black(&self) -> (r: bool)
        ensures
            r == (*self == Color::Black),
    {
        match self {
            Color::White => false,
            Color::Black => true,
        }
    }
}

} // verus!
