use vstd::prelude::*;

use crate::board::{board_wf, digit_at, Board};
use crate::board_position::pos_valid;
use crate::end_row::EndRow;
use crate::payouts::payout_spec;
use crate::valued_board_position::ValuedBoardPosition;

verus! {

/// The eight scoring lines of a completion, in canonical order: the three
/// rows, the three columns, then the two diagonals.
pub type Rows = [EndRow; 8];

/// Point-sum of the column `c` line of a board.
pub open spec fn col_sum(s: Seq<ValuedBoardPosition>, c: int) -> int {
    digit_at(s, c) + digit_at(s, c + 3) + digit_at(s, c + 6)
}

/// Point-sum of the row `r` line of a board.
pub open spec fn row_sum(s: Seq<ValuedBoardPosition>, r: int) -> int {
    digit_at(s, 3 * r) + digit_at(s, 3 * r + 1) + digit_at(s, 3 * r + 2)
}

/// Point-sum of the top-left to bottom-right diagonal of a board.
pub open spec fn tl_br_sum(s: Seq<ValuedBoardPosition>) -> int {
    digit_at(s, 0) + digit_at(s, 4) + digit_at(s, 8)
}

/// Point-sum of the bottom-left to top-right diagonal of a board.
pub open spec fn bl_tr_sum(s: Seq<ValuedBoardPosition>) -> int {
    digit_at(s, 6) + digit_at(s, 4) + digit_at(s, 2)
}

/// The smaller of two integers.
pub open spec fn min2(a: int, b: int) -> int {
    if a <= b {
        a
    } else {
        b
    }
}

/// The larger of two integers.
pub open spec fn max2(a: int, b: int) -> int {
    if a >= b {
        a
    } else {
        b
    }
}

/// Sum of the payouts of the eight lines of a board.
pub open spec fn board_payout_sum(s: Seq<ValuedBoardPosition>) -> int {
    payout_spec(row_sum(s, 0)) + payout_spec(row_sum(s, 1)) + payout_spec(row_sum(s, 2))
        + payout_spec(col_sum(s, 0)) + payout_spec(col_sum(s, 1)) + payout_spec(col_sum(s, 2))
        + payout_spec(bl_tr_sum(s)) + payout_spec(tl_br_sum(s))
}

/// Smallest payout among the eight lines of a board.
pub open spec fn board_payout_min(s: Seq<ValuedBoardPosition>) -> int {
    min2(
        payout_spec(row_sum(s, 0)) as int,
        min2(
            payout_spec(row_sum(s, 1)) as int,
            min2(
                payout_spec(row_sum(s, 2)) as int,
                min2(
                    payout_spec(col_sum(s, 0)) as int,
                    min2(
                        payout_spec(col_sum(s, 1)) as int,
                        min2(
                            payout_spec(col_sum(s, 2)) as int,
                            min2(
                                payout_spec(bl_tr_sum(s)) as int,
                                payout_spec(tl_br_sum(s)) as int,
                            ),
                        ),
                    ),
                ),
            ),
        ),
    )
}

/// Largest payout among the eight lines of a board.
pub open spec fn board_payout_max(s: Seq<ValuedBoardPosition>) -> int {
    max2(
        payout_spec(row_sum(s, 0)) as int,
        max2(
            payout_spec(row_sum(s, 1)) as int,
            max2(
                payout_spec(row_sum(s, 2)) as int,
                max2(
                    payout_spec(col_sum(s, 0)) as int,
                    max2(
                        payout_spec(col_sum(s, 1)) as int,
                        max2(
                            payout_spec(col_sum(s, 2)) as int,
                            max2(
                                payout_spec(bl_tr_sum(s)) as int,
                                payout_spec(tl_br_sum(s)) as int,
                            ),
                        ),
                    ),
                ),
            ),
        ),
    )
}

/// `e` is the row-`r` line of board `s`.
pub open spec fn is_row_line(e: EndRow, s: Seq<ValuedBoardPosition>, r: int) -> bool {
    &&& e.wf()
    &&& e.items@.len() == 3
    &&& forall|k: int|
        0 <= k < 3 ==> pos_valid((#[trigger] e.items@[k]).position) && e.items@[k].position.col
            == k && e.items@[k].position.row == r && e.items@[k].value == digit_at(s, k + 3 * r)
}

/// `e` is the column-`c` line of board `s`.
pub open spec fn is_col_line(e: EndRow, s: Seq<ValuedBoardPosition>, c: int) -> bool {
    &&& e.wf()
    &&& e.items@.len() == 3
    &&& forall|k: int|
        0 <= k < 3 ==> pos_valid((#[trigger] e.items@[k]).position) && e.items@[k].position.col
            == c && e.items@[k].position.row == k && e.items@[k].value == digit_at(s, c + 3 * k)
}

/// `e` is the top-left to bottom-right diagonal line of board `s`.
pub open spec fn is_tl_br_line(e: EndRow, s: Seq<ValuedBoardPosition>) -> bool {
    &&& e.wf()
    &&& e.items@.len() == 3
    &&& forall|k: int|
        0 <= k < 3 ==> pos_valid((#[trigger] e.items@[k]).position) && e.items@[k].position.col
            == k && e.items@[k].position.row == k && e.items@[k].value == digit_at(s, 4 * k)
}

/// `e` is the bottom-left to top-right diagonal line of board `s`.
pub open spec fn is_bl_tr_line(e: EndRow, s: Seq<ValuedBoardPosition>) -> bool {
    &&& e.wf()
    &&& e.items@.len() == 3
    &&& forall|k: int|
        0 <= k < 3 ==> pos_valid((#[trigger] e.items@[k]).position) && e.items@[k].position.col
            == k && e.items@[k].position.row == 2 - k && e.items@[k].value == digit_at(s, 6 - 2
            * k)
}

/// Summary payout statistics of a completion: the truncated mean, the
/// largest and the smallest payout over its eight lines.
#[derive(Debug)]
pub struct ParsedBoardPayouts {
    pub avg: u16,
    pub max: u16,
    pub min: u16,
}

/// A completion: a fully filled board together with its eight scoring lines,
/// the payout of each orientation, and summary statistics.
#[derive(Debug)]
pub struct ParsedBoard {
    pub payouts_board: ParsedBoardPayouts,
    pub payouts_row: [u16; 3],
    pub payouts_col: [u16; 3],
    pub payout_bl_tr: u16,
    pub payout_tl_br: u16,
    pub end_rows: Rows,
    pub board: Board,
}

impl ParsedBoard {
    /// All derived data agrees with the underlying full board.
    pub open spec fn wf(&self) -> bool {
        &&& board_wf(self.board@)
        &&& self.board@.len() == 9
        &&& forall|c: int|
            0 <= c < 3 ==> self.payouts_col@[c] == payout_spec(col_sum(self.board@, c))
        &&& forall|r: int|
            0 <= r < 3 ==> self.payouts_row@[r] == payout_spec(row_sum(self.board@, r))
        &&& self.payout_tl_br == payout_spec(tl_br_sum(self.board@))
        &&& self.payout_bl_tr == payout_spec(bl_tr_sum(self.board@))
        &&& self.end_rows@.len() == 8
        &&& is_row_line(self.end_rows@[0], self.board@, 0)
        &&& is_row_line(self.end_rows@[1], self.board@, 1)
        &&& is_row_line(self.end_rows@[2], self.board@, 2)
        &&& is_col_line(self.end_rows@[3], self.board@, 0)
        &&& is_col_line(self.end_rows@[4], self.board@, 1)
        &&& is_col_line(self.end_rows@[5], self.board@, 2)
        &&& is_bl_tr_line(self.end_rows@[6], self.board@)
        &&& is_tl_br_line(self.end_rows@[7], self.board@)
        &&& self.payouts_board.avg == board_payout_sum(self.board@) / 8
        &&& self.payouts_board.min == board_payout_min(self.board@)
        &&& self.payouts_board.max == board_payout_max(self.board@)
    }

    /// Parse a fully filled board into a completion: build its eight lines
    /// and precompute every payout and the summary statistics.
    #[verifier::rlimit(60)]
    pub fn from_board(board: Board) -> (r: Self)
        requires
            board.wf(),
            board@.len() == 9,
        ensures
            r.wf(),
            r.board@ == board@,
    {
        let r1 = board.row(0);
        let r2 = board.row(1);
        let r3 = board.row(2);

        let c1 = board.col(0);
        let c2 = board.col(1);
        let c3 = board.col(2);

        let bl_tr = board.diag_bl_tr();
        let tl_br = board.diag_tl_br();

        proof {
            assert(is_row_line(r1, board@, 0));
            assert(is_row_line(r2, board@, 1));
            assert(is_row_line(r3, board@, 2));
            assert(is_col_line(c1, board@, 0));
            assert(is_col_line(c2, board@, 1));
            assert(is_col_line(c3, board@, 2));
            assert(is_bl_tr_line(bl_tr, board@));
            assert(is_tl_br_line(tl_br, board@));
        }

        let p0 = r1.payout_value();
        let p1 = r2.payout_value();
        let p2 = r3.payout_value();
        let p3 = c1.payout_value();
        let p4 = c2.payout_value();
        let p5 = c3.payout_value();
        let p6 = bl_tr.payout_value();
        let p7 = tl_br.payout_value();

        proof {
            assert(p0 == payout_spec(row_sum(board@, 0)));
            assert(p1 == payout_spec(row_sum(board@, 1)));
            assert(p2 == payout_spec(row_sum(board@, 2)));
            assert(p3 == payout_spec(col_sum(board@, 0)));
            assert(p4 == payout_spec(col_sum(board@, 1)));
            assert(p5 == payout_spec(col_sum(board@, 2)));
            assert(p6 == payout_spec(bl_tr_sum(board@)));
            assert(p7 == payout_spec(tl_br_sum(board@)));
        }

        let payouts_row = [p0, p1, p2];
        let payouts_col = [p3, p4, p5];

        let total: u32 = p0 as u32 + p1 as u32 + p2 as u32 + p3 as u32 + p4 as u32 + p5 as u32
            + p6 as u32 + p7 as u32;

        let mut min: u16 = p0;
        if p1 < min {
            min = p1;
        }
        if p2 < min {
            min = p2;
        }
        if p3 < min {
            min = p3;
        }
        if p4 < min {
            min = p4;
        }
        if p5 < min {
            min = p5;
        }
        if p6 < min {
            min = p6;
        }
        if p7 < min {
            min = p7;
        }

        let mut max: u16 = p0;
        if p1 > max {
            max = p1;
        }
        if p2 > max {
            max = p2;
        }
        if p3 > max {
            max = p3;
        }
        if p4 > max {
            max = p4;
        }
        if p5 > max {
            max = p5;
        }
        if p6 > max {
            max = p6;
        }
        if p7 > max {
            max = p7;
        }

        let avg: u16 = (total / 8) as u16;

        proof {
            assert(min as int == board_payout_min(board@));
            assert(max as int == board_payout_max(board@));
            assert(total as int == board_payout_sum(board@));
            assert(avg as int == board_payout_sum(board@) / 8);
        }

        let end_rows = [r1, r2, r3, c1, c2, c3, bl_tr, tl_br];

        proof {
            assert(end_rows@ =~= seq![r1, r2, r3, c1, c2, c3, bl_tr, tl_br]);
        }

        let payouts_board = ParsedBoardPayouts { avg, max, min };

        ParsedBoard {
            payouts_board,
            payouts_row,
            payouts_col,
            payout_bl_tr: p6,
            payout_tl_br: p7,
            board,
            end_rows,
        }
    }

    /// The eight scoring lines, rows first, then columns, then diagonals.
    pub fn end_rows(&self) -> (r: &Rows)
        ensures
            *r == self.end_rows,
    {
        &self.end_rows
    }
}

} // verus!
