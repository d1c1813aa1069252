use vstd::prelude::*;

use crate::end_row::DiagRow;

verus! {

/// Largest valid linear cell index on the 3x3 board.
pub const MAX_IDX: u8 = 8;

/// Largest valid column or row coordinate.
pub const MAX_POS: u8 = 2;

/// A position on the board: a (column, row) coordinate together with its
/// canonical linear index `col + 3 * row`.
///
/// The sentinel returned by [`BoardPosition::never`] carries the maximum
/// representable value in every field and is not a valid board coordinate.
#[derive(Eq, PartialEq, Structural, Debug, Copy, Clone, Default)]
pub struct BoardPosition {
    pub col: u8,
    pub row: u8,
    pub index: u8,
}

/// A coordinate pair that lies on the grid, with its linear index in step.
pub open spec fn pos_valid(p: BoardPosition) -> bool {
    p.col <= 2 && p.row <= 2 && p.index == p.col + 3 * p.row
}

/// Which diagonal(s) the cell at (col, row) lies on: the centre is on both,
/// the four corners are each on one, every other cell is on none.
pub open spec fn pos_diag(col: int, row: int) -> DiagRow {
    if col == 1 && row == 1 {
        DiagRow::Both
    } else if (col == 0 && row == 0) || (col == 2 && row == 2) {
        DiagRow::TopLeftBottomRight
    } else if (col == 0 && row == 2) || (col == 2 && row == 0) {
        DiagRow::BottomLeftTopRight
    } else {
        DiagRow::Neither
    }
}

impl BoardPosition {
    /// The sentinel "no such position" value; not a valid board coordinate.
    pub fn never() -> (r: Self)
        ensures
            r.col == u8::MAX,
            r.row == u8::MAX,
            r.index == u8::MAX,
    {
        Self { col: u8::MAX, row: u8::MAX, index: u8::MAX }
    }

    /// The position at the given column and row.
    pub fn new(col: u8, row: u8) -> (r: Self)
        requires
            col <= MAX_POS,
            row <= MAX_POS,
        ensures
            pos_valid(r),
            r.col == col,
            r.row == row,
    {
        Self { col, row, index: Self::pos_index(col, row) }
    }

    fn pos_index(col: u8, row: u8) -> (r: u8)
        requires
            col <= MAX_POS,
            row <= MAX_POS,
        ensures
            r == col + 3 * row,
    {
        col + (row * 3)
    }

    /// Which diagonal(s) this position lies on.
    pub fn diag_row(&self) -> (r: DiagRow)
        requires
            pos_valid(*self),
        ensures
            r == pos_diag(self.col as int, self.row as int),
    {
        if self.col == 1 && self.row == 1 {
            DiagRow::Both
        } else if (self.col == 0 && self.row == 0) || (self.col == 2 && self.row == 2) {
            DiagRow::TopLeftBottomRight
        } else if (self.col == 0 && self.row == 2) || (self.col == 2 && self.row == 0) {
            DiagRow::BottomLeftTopRight
        } else {
            DiagRow::Neither
        }
    }

    /// The position with the given linear index.
    pub fn from_index(index: u8) -> (r: Self)
        requires
            index <= MAX_IDX,
        ensures
            pos_valid(r),
            r.index == index,
    {
        let col: u8 = index % 3;

        Self { col, row: (index - col) / 3, index }
    }

    /// Whether this position is at the given column and row.
    pub fn eq(&self, col: u8, row: u8) -> (r: bool)
        ensures
            r == (col == self.col && row == self.row),
    {
        col == self.col && row == self.row
    }

    /// The column coordinate.
    pub fn col(&self) -> (r: u8)
        ensures
            r == self.col,
    {
        self.col
    }

    /// The row coordinate.
    pub fn row(&self) -> (r: u8)
        ensures
            r == self.row,
    {
        self.row
    }

    /// The canonical linear index.
    pub fn index(&self) -> (r: u8)
        ensures
            r == self.index,
    {
        self.index
    }
}

} // verus!
