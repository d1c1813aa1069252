use vstd::prelude::*;

use crate::board_position::{pos_valid, BoardPosition, MAX_POS};

verus! {

/// Largest digit that may be placed on the board.
pub const MAX_VALUE: u8 = 9;

/// A board position with the digit selected there; digit 0 means
/// "nothing placed here".
#[derive(Eq, PartialEq, Structural, Debug, Default, Copy, Clone)]
pub struct ValuedBoardPosition {
    pub position: BoardPosition,
    pub value: u8,
}

impl ValuedBoardPosition {
    /// The given digit at the given position.
    pub fn from_pos(value: u8, position: BoardPosition) -> (r: Self)
        requires
            value <= MAX_VALUE,
        ensures
            r.value == value,
            r.position == position,
    {
        Self { value, position }
    }

    /// The given digit at the (column, row) coordinate.
    pub fn from_u8(value: u8, col: u8, row: u8) -> (r: Self)
        requires
            value <= MAX_VALUE,
            col <= MAX_POS,
            row <= MAX_POS,
        ensures
            r.value == value,
            pos_valid(r.position),
            r.position.col == col,
            r.position.row == row,
    {
        Self::from_pos(value, BoardPosition::new(col, row))
    }

    /// Nothing selected at the given position.
    pub fn empty(position: BoardPosition) -> (r: Self)
        ensures
            r.value == 0,
            r.position == position,
    {
        Self::from_pos(0, position)
    }

    /// The position.
    pub fn position(&self) -> (r: BoardPosition)
        ensures
            r == self.position,
    {
        self.position
    }

    /// The digit, 0 when nothing is placed.
    pub fn value(&self) -> (r: u8)
        ensures
            r == self.value,
    {
        self.value
    }
}

} // verus!
