use vstd::prelude::*;

pub mod color;
pub mod piece;
pub mod row;
pub mod square;

use piece::ColoredPiece;
use square::Square;

verus! {

/// A fixed 64-slot container mapping each square, by its linear index, to
/// an optional occupant. Its view is the sequence of the 64 slots.
pub struct Board {
    content: Vec<Option<ColoredPiece>>,
}

/// Errors from board mutation.
#[derive(Clone, Copy, PartialEq, Eq, Structural, Debug)]
pub enum BoardError {
    SquareOccupied(Square),
}

impl View for Board {
    type V = Seq<Option<ColoredPiece>>;

    closed spec fn view(&self) -> Seq<Option<ColoredPiece>> {
        self.content@
    }
}

impl Board {
    pub open spec fn wf(self) -> bool {
        self@.len() == 64
    }

    /// An empty board: all 64 slots unoccupied.
    pub fn new() -> (b: Board)
        ensures
            b.wf(),
            forall|i: int| 0 <= i < 64 ==> b@[i] is None,
    {
        let mut content: Vec<Option<ColoredPiece>> = Vec::new();
        let mut i: usize = 0;
        while i < 64
            invariant
                i <= 64,
                content@.len() == i,
                forall|j: int| 0 <= j < i ==> content@[j] is None,
            decreases 64 - i,
        {
            content.push(None);
            i += 1;
        }
        Board { content }
    }

    /// The number of slots, always 64.
    pub fn len(&self) -> (n: usize)
        ensures
            n == self@.len(),
    {
        self.content.len()
    }

    /// The occupant of a square, read-only; never fails.
    pub fn get(&self, square: &Square) -> (r: &Option<ColoredPiece>)
        requires
            self.wf(),
            square.wf(),
        ensures
            *r == self@[square.index_spec()],
    {
        &self.content[square.to_index()]
    }

    /// Places an occupant on an empty square. A slot cannot be overwritten:
    /// if the square already holds an occupant the board is unchanged and
    /// `SquareOccupied` is reported; callers must `clear_square` first to
    /// replace an occupant.
    pub fn set(&mut self, square: &Square, piece: ColoredPiece) -> (r: Result<(), BoardError>)
        requires
            old(self).wf(),
            square.wf(),
        ensures
            final(self).wf(),
            match r {
                Ok(_) => old(self)@[square.index_spec()] is None && final(self)@ == old(
                    self,
                )@.update(square.index_spec(), Some(piece)),
                Err(e) => old(self)@[square.index_spec()] is Some && e
                    == BoardError::SquareOccupied(*square) && final(self)@ == old(self)@,
            },
    {
        let i = square.to_index();
        if self.content[i].is_some() {
            Err(BoardError::SquareOccupied(*square))
        } else {
            self.content[i] = Some(piece);
            Ok(())
        }
    }

    /// Empties a square, whatever it held; idempotent.
    pub fn clear_square(&mut self, square: &Square)
        requires
            old(self).wf(),
            square.wf(),
        ensures
            final(self).wf(),
            final(self)@ == old(self)@.update(square.index_spec(), None),
    {
        let i = square.to_index();
        self.content[i] = None;
    }
}

impl Default for Board {
    fn default() -> (b: Board)
        ensures
            b.wf(),
            forall|i: int| 0 <= i < 64 ==> b@[i] is None,
    {
        Board::new()
    }
}

/// Occupancy law: a successful `set` leaves the target slot occupied, so a
/// second `set` on the same square, with no `clear_square` between, meets an
/// occupied slot and must report `SquareOccupied`.
pub proof fn lemma_set_then_set_fails(b: Seq<Option<ColoredPiece>>, sq: Square, p: ColoredPiece)
    requires
        sq.wf(),
        b.len() == 64,
        b[sq.index_spec()] is None,
    ensures
        b.update(sq.index_spec(), Some(p))[sq.index_spec()] is Some,
{
}

} // verus!
