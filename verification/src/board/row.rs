use vstd::prelude::*;
use crate::board::square::{CoordinateError, Square};

verus! {

/// A single board row, for iterating over its eight squares.
#[derive(Clone, Copy, Debug)]
pub struct Row {
    i: u8,
}

impl Row {
    pub closed spec fn spec_row(self) -> u8 {
        self.i
    }

    pub open spec fn wf(self) -> bool {
        self.spec_row() < 8
    }

    /// The row with the given index; rejects an index outside [0, 8).
    pub fn new(i: u8) -> (r: Result<Row, CoordinateError>)
        ensures
            match r {
                Ok(row) => i < 8 && row.spec_row() == i,
                Err(e) => i >= 8 && e == CoordinateError::RowOutOfRange,
            },
    {
        if i >= 8 {
            Err(CoordinateError::RowOutOfRange)
        } else {
            Ok(Row { i })
        }
    }

    /// An iterator over the squares of the row, column 0 first.
    pub fn into_iter(self) -> (it: RowIterator)
        requires
            self.wf(),
        ensures
            it.wf(),
            it.spec_row() == self.spec_row(),
            it.spec_col() == 0,
    {
        RowIterator { row: self.i, col: 0 }
    }
}

/// Yields the squares of one row, column 0 up to column 7.
pub struct RowIterator {
    row: u8,
    col: u8,
}

impl RowIterator {
    pub closed spec fn spec_row(self) -> u8 {
        self.row
    }

    pub closed spec fn spec_col(self) -> u8 {
        self.col
    }

    pub open spec fn wf(self) -> bool {
        self.spec_row() < 8 && self.spec_col() <= 8
    }

    /// The next square of the row, or `None` once all eight are spent.
    pub fn next(&mut self) -> (r: Option<Square>)
        requires
            old(self).wf(),
        ensures
            final(self).wf(),
            final(self).spec_row() == old(self).spec_row(),
            match r {
                Some(sq) => old(self).spec_col() < 8 && final(self).spec_col() == old(
                    self,
                ).spec_col() + 1 && sq.wf() && sq.spec_row() == old(self).spec_row()
                    && sq.spec_col() == old(self).spec_col(),
                None => old(self).spec_col() == 8 && final(self).spec_col() == 8,
            },
    {
        if self.col < 8 {
            let sq = Square::from_coord(self.row, self.col).unwrap();
            self.col = self.col + 1;
            Some(sq)
        } else {
            None
        }
    }
}

} // verus!
