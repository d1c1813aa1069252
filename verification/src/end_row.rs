use vstd::prelude::*;

use crate::board_position::BoardPosition;
use crate::payouts::{payout_for_points, payout_spec};
use crate::valued_board_position::ValuedBoardPosition;

verus! {

/// Which diagonal(s) a cell or a line lies on.  `Both` is used only for the
/// single centre cell, which belongs to both diagonals; a full line is never
/// classified `Both`.
#[derive(Debug, Copy, Clone, Eq, PartialEq, Structural)]
pub enum DiagRow {
    BottomLeftTopRight,
    TopLeftBottomRight,
    Both,
    Neither,
}

/// Sum of the three digits of a line.
pub open spec fn sum_values(
    a: ValuedBoardPosition,
    b: ValuedBoardPosition,
    c: ValuedBoardPosition,
) -> int {
    a.value + b.value + c.value
}

/// Whether one of the three positions has the given column.
pub open spec fn some_has_col(
    a: BoardPosition,
    b: BoardPosition,
    c: BoardPosition,
    col: int,
) -> bool {
    a.col == col || b.col == col || c.col == col
}

/// Of three positions, the first one found in the given column.
pub open spec fn pick_by_col(
    a: BoardPosition,
    b: BoardPosition,
    c: BoardPosition,
    col: int,
) -> BoardPosition {
    if a.col == col {
        a
    } else if b.col == col {
        b
    } else {
        c
    }
}

/// Diagonal classification of a candidate line: taking the three positions
/// in column order, the line is a diagonal only when the columns are exactly
/// 0, 1, 2, the middle position sits on row 1, and the outer positions run
/// corner to corner; every other shape is `Neither`.
pub open spec fn diag_class(a: BoardPosition, b: BoardPosition, c: BoardPosition) -> DiagRow {
    if some_has_col(a, b, c, 0) && some_has_col(a, b, c, 1) && some_has_col(a, b, c, 2) {
        let p1 = pick_by_col(a, b, c, 0);
        let p2 = pick_by_col(a, b, c, 1);
        let p3 = pick_by_col(a, b, c, 2);
        if p2.row == 1 {
            if p1.row == 0 && p3.row == 2 {
                DiagRow::TopLeftBottomRight
            } else if p1.row == 2 && p3.row == 0 {
                DiagRow::BottomLeftTopRight
            } else {
                DiagRow::Neither
            }
        } else {
            DiagRow::Neither
        }
    } else {
        DiagRow::Neither
    }
}

/// Sum of the three digits of a line.
pub fn point_sum(
    a: ValuedBoardPosition,
    b: ValuedBoardPosition,
    c: ValuedBoardPosition,
) -> (r: u8)
    requires
        a.value <= 9,
        b.value <= 9,
        c.value <= 9,
    ensures
        r == sum_values(a, b, c),
{
    a.value() + b.value() + c.value()
}

/// Classify three cells as a diagonal line or not; see [`diag_class`].
pub fn get_diag_row(
    a: ValuedBoardPosition,
    b: ValuedBoardPosition,
    c: ValuedBoardPosition,
) -> (r: DiagRow)
    ensures
        r == diag_class(a.position, b.position, c.position),
{
    let pa = a.position();
    let pb = b.position();
    let pc = c.position();

    let has0 = pa.col() == 0 || pb.col() == 0 || pc.col() == 0;
    let has1 = pa.col() == 1 || pb.col() == 1 || pc.col() == 1;
    let has2 = pa.col() == 2 || pb.col() == 2 || pc.col() == 2;

    if !(has0 && has1 && has2) {
        return DiagRow::Neither;
    }

    let p1 = if pa.col() == 0 { pa } else if pb.col() == 0 { pb } else { pc };
    let p2 = if pa.col() == 1 { pa } else if pb.col() == 1 { pb } else { pc };
    let p3 = if pa.col() == 2 { pa } else if pb.col() == 2 { pb } else { pc };

    if p2.row() != 1 {
        return DiagRow::Neither;
    }

    if p1.row() == 0 && p3.row() == 2 {
        DiagRow::TopLeftBottomRight
    } else if p1.row() == 2 && p3.row() == 0 {
        DiagRow::BottomLeftTopRight
    } else {
        DiagRow::Neither
    }
}

/// One of the eight scoring lines: exactly three cells, with their derived
/// point-sum, payout and diagonal classification.
#[derive(Debug, Clone, Eq, PartialEq)]
pub struct EndRow {
    pub items: [ValuedBoardPosition; 3],
    pub payout_value: u16,
    pub point_sum: u8,
    pub diag_row: DiagRow,
}

impl EndRow {
    /// The derived fields agree with the three cells.
    pub open spec fn wf(&self) -> bool {
        &&& self.items@[0].value <= 9
        &&& self.items@[1].value <= 9
        &&& self.items@[2].value <= 9
        &&& self.point_sum == sum_values(self.items@[0], self.items@[1], self.items@[2])
        &&& self.payout_value == payout_spec(self.point_sum as int)
        &&& self.diag_row == diag_class(
            self.items@[0].position,
            self.items@[1].position,
            self.items@[2].position,
        )
    }

    /// The column shared by all three cells, when there is one.
    pub open spec fn spec_column(&self) -> Option<u8> {
        if self.items@[0].position.col == self.items@[2].position.col
            && self.items@[1].position.col == self.items@[2].position.col {
            Some(self.items@[0].position.col)
        } else {
            None
        }
    }

    /// The row shared by all three cells, when there is one.
    pub open spec fn spec_row(&self) -> Option<u8> {
        if self.items@[0].position.row == self.items@[2].position.row
            && self.items@[1].position.row == self.items@[2].position.row {
            Some(self.items@[0].position.row)
        } else {
            None
        }
    }

    /// A line over the three given cells, with its point-sum, payout and
    /// diagonal classification computed.
    pub fn new(
        a: ValuedBoardPosition,
        b: ValuedBoardPosition,
        c: ValuedBoardPosition,
    ) -> (r: Self)
        requires
            a.value <= 9,
            b.value <= 9,
            c.value <= 9,
        ensures
            r.items@ == seq![a, b, c],
            r.wf(),
    {
        let point_sum = point_sum(a, b, c);

        let r = Self {
            items: [a, b, c],
            diag_row: get_diag_row(a, b, c),
            point_sum,
            payout_value: payout_for_points(point_sum),
        };
        proof {
            assert(r.items@ =~= seq![a, b, c]);
        }
        r
    }

    fn compare_col_row(&self, use_col: bool) -> (r: Option<u8>)
        ensures
            use_col ==> r == self.spec_column(),
            !use_col ==> r == self.spec_row(),
    {
        let p1 = if use_col { self.items[0].position().col() } else { self.items[0].position().row() };
        let p2 = if use_col { self.items[1].position().col() } else { self.items[1].position().row() };
        let p3 = if use_col { self.items[2].position().col() } else { self.items[2].position().row() };

        match p3 == p1 && p3 == p2 {
            true => Some(p1),
            false => None,
        }
    }

    /// The column shared by all three cells, or `None` when they differ.
    pub fn get_column(&self) -> (r: Option<u8>)
        ensures
            r == self.spec_column(),
    {
        self.compare_col_row(true)
    }

    /// The row shared by all three cells, or `None` when they differ.
    pub fn get_row(&self) -> (r: Option<u8>)
        ensures
            r == self.spec_row(),
    {
        self.compare_col_row(false)
    }

    /// The payout of this line.
    pub fn payout_value(&self) -> (r: u16)
        ensures
            r == self.payout_value,
    {
        self.payout_value
    }

    /// Whether one of the three cells sits in the given column.
    pub fn has_column(&self, col: u8) -> (r: bool)
        ensures
            r == some_has_col(
                self.items@[0].position,
                self.items@[1].position,
                self.items@[2].position,
                col as int,
            ),
    {
        self.items[0].position().col() == col || self.items[1].position().col() == col
            || self.items[2].position().col() == col
    }

    /// The diagonal classification of this line.
    pub fn diag_row(&self) -> (r: DiagRow)
        ensures
            r == self.diag_row,
    {
        self.diag_row
    }

    /// The cell at the given index of the line, in canonical order.
    pub fn item(&self, index: usize) -> (r: ValuedBoardPosition)
        requires
            index < 3,
        ensures
            r == self.items@[index as int],
    {
        self.items[index]
    }
}

} // verus!
