use vstd::prelude::*;

use crate::board::{
    board_wf, digit_at, lemma_board_full, lemma_board_len_max, lemma_board_missing_pos,
    lemma_digit_at_has_fill, lemma_digit_at_nonzero, lemma_full_board_contains,
    seq_contains_pos_index, seq_contains_value, seq_has_fill, Board,
};
use crate::board_position::{pos_valid, BoardPosition};
use crate::parsed_board::{bl_tr_sum, col_sum, row_sum, tl_br_sum, ParsedBoard};
use crate::payouts::lemma_payout_bounded;
use crate::valued_board_position::ValuedBoardPosition;

verus! {

/// The factorial, with `fact(0) == 1`.
pub open spec fn fact(n: nat) -> nat
    decreases n,
{
    if n == 0 {
        1
    } else {
        n * fact((n - 1) as nat)
    }
}

/// Factorials are positive.
pub proof fn lemma_fact_pos(n: nat)
    ensures
        fact(n) >= 1,
    decreases n,
{
    if n > 0 {
        lemma_fact_pos((n - 1) as nat);
        assert(n * fact((n - 1) as nat) >= 1 * fact((n - 1) as nat)) by (nonlinear_arith)
            requires
                n >= 1,
                fact((n - 1) as nat) >= 0,
        ;
    }
}

/// The factorial is monotone.
pub proof fn lemma_fact_mono(a: nat, b: nat)
    requires
        a <= b,
    ensures
        fact(a) <= fact(b),
    decreases b,
{
    if a < b {
        lemma_fact_mono(a, (b - 1) as nat);
        lemma_fact_pos((b - 1) as nat);
        assert(1 * fact((b - 1) as nat) <= b * fact((b - 1) as nat)) by (nonlinear_arith)
            requires
                b >= 1,
                fact((b - 1) as nat) >= 0,
        ;
    }
}

/// Boards of at most nine cells have at most `9! == 362880` completions.
pub proof fn lemma_fact_at_most_nine(n: nat)
    requires
        n <= 9,
    ensures
        fact(n) <= 362880,
{
    lemma_fact_mono(n, 9);
    reveal_with_fuel(fact, 11);
    assert(fact(9) == 362880);
}

/// Every fill of `b` appears, with the same digit at the same cell, in `c`.
pub open spec fn extends_board(c: Seq<ValuedBoardPosition>, b: Seq<ValuedBoardPosition>) -> bool {
    forall|j: int|
        0 <= j < b.len() ==> seq_has_fill(c, (#[trigger] b[j]).position.index as int, b[j].value)
}

/// `c` is a completion of `b`: a full well-formed board that keeps every
/// fill of `b`.
pub open spec fn is_completion_of(c: Seq<ValuedBoardPosition>, b: Seq<ValuedBoardPosition>) -> bool {
    board_wf(c) && c.len() == 9 && extends_board(c, b)
}

/// Two boards place the same digit (or none) on every cell.
pub open spec fn same_mapping(c1: Seq<ValuedBoardPosition>, c2: Seq<ValuedBoardPosition>) -> bool {
    forall|i: int| 0 <= i < 9 ==> digit_at(c1, i) == digit_at(c2, i)
}

/// `poss` is a correct enumeration of the completions of `b`: it holds
/// exactly `(9 - len)!` completions of `b`, no two alike, and every
/// completion of `b` appears in it.
pub open spec fn enumerates_completions(
    poss: Seq<ParsedBoard>,
    b: Seq<ValuedBoardPosition>,
) -> bool {
    &&& poss.len() == fact((9 - b.len()) as nat)
    &&& forall|m: int|
        0 <= m < poss.len() ==> (#[trigger] poss[m]).wf() && is_completion_of(poss[m].board@, b)
    &&& forall|m1: int, m2: int|
        #![trigger poss[m1], poss[m2]]
        0 <= m1 < m2 < poss.len() ==> !same_mapping(poss[m1].board@, poss[m2].board@)
    &&& forall|c: Seq<ValuedBoardPosition>|
        #[trigger] is_completion_of(c, b) ==> exists|m: int|
            0 <= m < poss.len() && same_mapping(poss[m].board@, c)
}

/// A completion of a board extended by one fill is a completion of the
/// board itself, and it places the new fill's digit at the new fill's cell.
pub proof fn lemma_completion_of_push(
    c: Seq<ValuedBoardPosition>,
    b: Seq<ValuedBoardPosition>,
    vbp: ValuedBoardPosition,
)
    requires
        is_completion_of(c, b.push(vbp)),
    ensures
        is_completion_of(c, b),
        digit_at(c, vbp.position.index as int) == vbp.value,
{
    let b2 = b.push(vbp);
    assert forall|j: int| 0 <= j < b.len() implies seq_has_fill(
        c,
        (#[trigger] b[j]).position.index as int,
        b[j].value,
    ) by {
        assert(b2[j] == b[j]);
        assert(seq_has_fill(c, b2[j].position.index as int, b2[j].value));
    }
    assert(b2[b.len() as int] == vbp);
    assert(seq_has_fill(c, vbp.position.index as int, vbp.value));
    lemma_digit_at_has_fill(c, vbp.position.index as int, vbp.value);
}

/// A completion of a board that places digit `vbp.value` at cell
/// `vbp.position` is a completion of the board extended by that fill.
pub proof fn lemma_completion_extend(
    c: Seq<ValuedBoardPosition>,
    b: Seq<ValuedBoardPosition>,
    vbp: ValuedBoardPosition,
)
    requires
        is_completion_of(c, b),
        digit_at(c, vbp.position.index as int) == vbp.value,
        vbp.value != 0,
    ensures
        is_completion_of(c, b.push(vbp)),
{
    let b2 = b.push(vbp);
    lemma_digit_at_nonzero(c, vbp.position.index as int);
    assert forall|j: int| 0 <= j < b2.len() implies seq_has_fill(
        c,
        (#[trigger] b2[j]).position.index as int,
        b2[j].value,
    ) by {
        if j < b.len() {
            assert(b2[j] == b[j]);
            assert(seq_has_fill(c, b[j].position.index as int, b[j].value));
        } else {
            assert(b2[j] == vbp);
        }
    }
}

/// Pushing a fill onto the cell with index `idx` keeps every cell below it
/// filled and fills `idx` itself.
pub proof fn lemma_filled_below_push(
    b: Seq<ValuedBoardPosition>,
    vbp: ValuedBoardPosition,
    idx: int,
)
    requires
        forall|j: int| 0 <= j < idx ==> seq_contains_pos_index(b, j),
        vbp.position.index == idx,
    ensures
        forall|j: int| 0 <= j <= idx ==> seq_contains_pos_index(b.push(vbp), j),
{
    let b2 = b.push(vbp);
    assert forall|j: int| 0 <= j <= idx implies seq_contains_pos_index(b2, j) by {
        if j < idx {
            assert(seq_contains_pos_index(b, j));
            let k = choose|k: int| 0 <= k < b.len() && (#[trigger] b[k]).position.index == j;
            assert(b2[k] == b[k]);
            assert(b2[k].position.index == j);
        } else {
            assert(b2[b.len() as int] == vbp);
            assert(b2[b.len() as int].position.index == idx);
        }
    }
}

/// Any two completions of a full board agree with it on every cell.
pub proof fn lemma_completion_of_full(b: Seq<ValuedBoardPosition>, c: Seq<ValuedBoardPosition>)
    requires
        board_wf(b),
        b.len() == 9,
        is_completion_of(c, b),
    ensures
        same_mapping(b, c),
{
    assert forall|i: int| 0 <= i < 9 implies digit_at(b, i) == digit_at(c, i) by {
        lemma_full_board_contains(b, i);
        let k = choose|k: int| 0 <= k < b.len() && (#[trigger] b[k]).position.index == i;
        crate::board::lemma_digit_at(b, k);
        assert(seq_has_fill(c, i, b[k].value));
        lemma_digit_at_has_fill(c, i, b[k].value);
    }
}

/// The digit a completion places on a cell the partial board leaves empty
/// is a digit 1..=9 that the partial board does not use.
pub proof fn lemma_completion_digit_available(
    c: Seq<ValuedBoardPosition>,
    b: Seq<ValuedBoardPosition>,
    idx: int,
)
    requires
        is_completion_of(c, b),
        0 <= idx < 9,
        !seq_contains_pos_index(b, idx),
    ensures
        1 <= digit_at(c, idx) <= 9,
        !seq_contains_value(b, digit_at(c, idx)),
{
    lemma_full_board_contains(c, idx);
    let k = choose|k: int| 0 <= k < c.len() && (#[trigger] c[k]).position.index == idx;
    crate::board::lemma_digit_at(c, k);
    let d = c[k].value;
    assert(crate::board::entry_ok(c[k]));
    if seq_contains_value(b, d) {
        let j = choose|j: int| 0 <= j < b.len() && (#[trigger] b[j]).value == d;
        let bj_index = b[j].position.index as int;
        assert(seq_has_fill(c, bj_index, d));
        let k2 = choose|k2: int|
            0 <= k2 < c.len() && (#[trigger] c[k2]).position.index == bj_index && c[k2].value == d;
        assert(bj_index != idx);
        assert(k2 != k);
        assert(c[k2].value == c[k].value);
        assert(false);
    }
}

/// The digit a completion places on a cell the partial board leaves empty
/// appears in any listing of the still-available digits.
pub proof fn lemma_completion_covered(
    c: Seq<ValuedBoardPosition>,
    b: Seq<ValuedBoardPosition>,
    avail: Seq<u8>,
    idx: int,
)
    requires
        is_completion_of(c, b),
        0 <= idx < 9,
        !seq_contains_pos_index(b, idx),
        forall|d: u8| 1 <= d <= 9 && !seq_contains_value(b, d) ==> avail.contains(d),
    ensures
        exists|w: int| 0 <= w < avail.len() && digit_at(c, idx) == avail[w],
{
    lemma_completion_digit_available(c, b, idx);
    let d = digit_at(c, idx);
    assert(avail.contains(d));
    let w = choose|w: int| 0 <= w < avail.len() && avail[w] == d;
    assert(0 <= w < avail.len() && digit_at(c, idx) == avail[w]);
}

/// One of the two real diagonal orientations.  An average can only be asked
/// for these; cells and lines off the diagonals have no average to ask for.
#[derive(Debug, Copy, Clone, Eq, PartialEq, Structural)]
pub enum DiagOrientation {
    TopLeftBottomRight,
    BottomLeftTopRight,
}

/// Sum over the enumerated completions of the payout of the column `c` line.
pub open spec fn sum_col_payouts(s: Seq<ParsedBoard>, c: int) -> int
    decreases s.len(),
{
    if s.len() == 0 {
        0
    } else {
        sum_col_payouts(s.drop_last(), c) + s.last().payouts_col@[c]
    }
}

/// Sum over the enumerated completions of the payout of the row `r` line.
pub open spec fn sum_row_payouts(s: Seq<ParsedBoard>, r: int) -> int
    decreases s.len(),
{
    if s.len() == 0 {
        0
    } else {
        sum_row_payouts(s.drop_last(), r) + s.last().payouts_row@[r]
    }
}

/// Sum over the enumerated completions of the top-left to bottom-right
/// diagonal payout.
pub open spec fn sum_tl_br_payouts(s: Seq<ParsedBoard>) -> int
    decreases s.len(),
{
    if s.len() == 0 {
        0
    } else {
        sum_tl_br_payouts(s.drop_last()) + s.last().payout_tl_br
    }
}

/// Sum over the enumerated completions of the bottom-left to top-right
/// diagonal payout.
pub open spec fn sum_bl_tr_payouts(s: Seq<ParsedBoard>) -> int
    decreases s.len(),
{
    if s.len() == 0 {
        0
    } else {
        sum_bl_tr_payouts(s.drop_last()) + s.last().payout_bl_tr
    }
}

/// The possible endings of a partial board: every completion reachable from
/// it, each parsed into its lines and payouts.
#[derive(Debug)]
pub struct EndBoard {
    pub possibilities: Vec<ParsedBoard>,
}

impl EndBoard {
    /// Every held completion is well formed, and there are no more of them
    /// than a nine-cell board admits.
    pub open spec fn wf(&self) -> bool {
        &&& self.possibilities@.len() <= 362880
        &&& forall|m: int|
            0 <= m < self.possibilities@.len() ==> (#[trigger] self.possibilities@[m]).wf()
    }

    /// Average payout of the column `col` line over all completions,
    /// in truncating integer division.
    pub fn avg_for_col(&self, col: u8) -> (r: u16)
        requires
            self.wf(),
            self.possibilities@.len() >= 1,
            col <= 2,
        ensures
            r as int == sum_col_payouts(self.possibilities@, col as int) / (
            self.possibilities@.len() as int),
            r <= 10000,
    {
        let mut total: u64 = 0;
        let mut k: usize = 0;
        while k < self.possibilities.len()
            invariant
                self.wf(),
                col <= 2,
                k <= self.possibilities@.len(),
                total == sum_col_payouts(self.possibilities@.take(k as int), col as int),
                total <= k * 10000,
            decreases self.possibilities@.len() - k,
        {
            let v = self.possibilities[k].payouts_col[col as usize];
            proof {
                let p = self.possibilities@[k as int];
                lemma_payout_bounded(col_sum(p.board@, col as int));
                assert(self.possibilities@.take(k as int + 1).drop_last() =~= self.possibilities@.take(
                    k as int,
                ));
                assert(self.possibilities@.take(k as int + 1).last() == p);
            }
            total = total + v as u64;
            k = k + 1;
        }
        proof {
            assert(self.possibilities@.take(k as int) =~= self.possibilities@);
            assert(total as int / (self.possibilities@.len() as int) <= 10000) by (nonlinear_arith)
                requires
                    total as int <= (self.possibilities@.len() as int) * 10000,
                    self.possibilities@.len() as int >= 1,
                    total >= 0,
            ;
        }
        (total / (self.possibilities.len() as u64)) as u16
    }

    /// Average payout of the row `row` line over all completions, in
    /// truncating integer division.
    pub fn avg_for_row(&self, row: u8) -> (r: u16)
        requires
            self.wf(),
            self.possibilities@.len() >= 1,
            row <= 2,
        ensures
            r as int == sum_row_payouts(self.possibilities@, row as int) / (
            self.possibilities@.len() as int),
            r <= 10000,
    {
        let mut total: u64 = 0;
        let mut k: usize = 0;
        while k < self.possibilities.len()
            invariant
                self.wf(),
                row <= 2,
                k <= self.possibilities@.len(),
                total == sum_row_payouts(self.possibilities@.take(k as int), row as int),
                total <= k * 10000,
            decreases self.possibilities@.len() - k,
        {
            let v = self.possibilities[k].payouts_row[row as usize];
            proof {
                let p = self.possibilities@[k as int];
                lemma_payout_bounded(row_sum(p.board@, row as int));
                assert(self.possibilities@.take(k as int + 1).drop_last() =~= self.possibilities@.take(
                    k as int,
                ));
                assert(self.possibilities@.take(k as int + 1).last() == p);
            }
            total = total + v as u64;
            k = k + 1;
        }
        proof {
            assert(self.possibilities@.take(k as int) =~= self.possibilities@);
            assert(total as int / (self.possibilities@.len() as int) <= 10000) by (nonlinear_arith)
                requires
                    total as int <= (self.possibilities@.len() as int) * 10000,
                    self.possibilities@.len() as int >= 1,
                    total >= 0,
            ;
        }
        (total / (self.possibilities.len() as u64)) as u16
    }

    /// Average payout of a diagonal line over all completions, in truncating
    /// integer division.  Only the two real diagonal orientations can be
    /// asked for; there is no average for cells off the diagonals.
    pub fn avg_for_diag_row(&self, row: DiagOrientation) -> (r: u16)
        requires
            self.wf(),
            self.possibilities@.len() >= 1,
        ensures
            row == DiagOrientation::TopLeftBottomRight ==> r as int == sum_tl_br_payouts(
                self.possibilities@,
            ) / (self.possibilities@.len() as int),
            row == DiagOrientation::BottomLeftTopRight ==> r as int == sum_bl_tr_payouts(
                self.possibilities@,
            ) / (self.possibilities@.len() as int),
            r <= 10000,
    {
        let is_tl_br = match row {
            DiagOrientation::TopLeftBottomRight => true,
            DiagOrientation::BottomLeftTopRight => false,
        };
        let mut total: u64 = 0;
        let mut k: usize = 0;
        while k < self.possibilities.len()
            invariant
                self.wf(),
                k <= self.possibilities@.len(),
                is_tl_br ==> total == sum_tl_br_payouts(self.possibilities@.take(k as int)),
                !is_tl_br ==> total == sum_bl_tr_payouts(self.possibilities@.take(k as int)),
                total <= k * 10000,
            decreases self.possibilities@.len() - k,
        {
            let v = if is_tl_br {
                self.possibilities[k].payout_tl_br
            } else {
                self.possibilities[k].payout_bl_tr
            };
            proof {
                let p = self.possibilities@[k as int];
                lemma_payout_bounded(tl_br_sum(p.board@));
                lemma_payout_bounded(bl_tr_sum(p.board@));
                assert(self.possibilities@.take(k as int + 1).drop_last() =~= self.possibilities@.take(
                    k as int,
                ));
                assert(self.possibilities@.take(k as int + 1).last() == p);
            }
            total = total + v as u64;
            k = k + 1;
        }
        proof {
            assert(self.possibilities@.take(k as int) =~= self.possibilities@);
            assert(total as int / (self.possibilities@.len() as int) <= 10000) by (nonlinear_arith)
                requires
                    total as int <= (self.possibilities@.len() as int) * 10000,
                    self.possibilities@.len() as int >= 1,
                    total >= 0,
            ;
        }
        (total / (self.possibilities.len() as u64)) as u16
    }
}

/// `n!` for every positive argument; the argument 0 is mapped to 0.  The
/// enumerator uses it only to size its output buffer.
pub fn factorial(of_num: usize) -> (r: usize)
    requires
        of_num <= 12,
    ensures
        of_num == 0 ==> r == 0,
        of_num >= 1 ==> r == fact(of_num as nat),
{
    proof {
        reveal_with_fuel(fact, 14);
        assert(fact(12) == 479001600);
        lemma_fact_mono(of_num as nat, 12);
    }
    let mut out: usize = of_num;
    let mut i: usize = of_num;
    while i > 2
        invariant
            of_num <= 12,
            of_num == 0 ==> out == 0 && i == 0,
            of_num == 1 ==> i == 1,
            of_num >= 2 ==> 2 <= i <= of_num,
            of_num >= 1 ==> out * fact((i - 1) as nat) == fact(of_num as nat) && out >= 1,
            fact(of_num as nat) <= 479001600,
        decreases i,
    {
        proof {
            lemma_fact_pos((i - 2) as nat);
            assert(fact((i - 1) as nat) == (i - 1) * fact((i - 2) as nat));
            assert(out * ((i - 1) as nat * fact((i - 2) as nat)) == (out * (i - 1) as nat) * fact(
                (i - 2) as nat,
            )) by (nonlinear_arith);
            assert((out * (i - 1)) * fact((i - 2) as nat) == fact(of_num as nat));
            assert(out * (i - 1) <= fact(of_num as nat)) by (nonlinear_arith)
                requires
                    (out * (i - 1)) * fact((i - 2) as nat) == fact(of_num as nat),
                    fact((i - 2) as nat) >= 1,
                    out >= 1,
                    i >= 3,
            ;
            assert(out * (i - 1) >= 1) by (nonlinear_arith)
                requires
                    out >= 1,
                    i >= 3,
            ;
        }
        i = i - 1;
        out = out * i;
    }
    proof {
        reveal_with_fuel(fact, 3);
        if of_num >= 1 {
            if of_num == 1 {
                assert(i == 1);
            } else {
                assert(i == 2);
            }
            let f = fact((i - 1) as nat);
            assert(f == 1);
            assert(out == fact(of_num as nat)) by (nonlinear_arith)
                requires
                    out * f == fact(of_num as nat),
                    f == 1,
            ;
        }
    }
    out
}

/// Walks the board positions in ascending index order, filling every empty
/// cell with every still-available digit, and collects each full board that
/// results as a parsed completion.
#[verifier::rlimit(100)]
fn iterate_internal(board: Board, column_idx: u8, coll: &mut Vec<ParsedBoard>)
    requires
        board.wf(),
        column_idx <= 9,
        forall|j: int| 0 <= j < column_idx ==> seq_contains_pos_index(board@, j),
    ensures
        final(coll)@.len() == old(coll)@.len() + fact((9 - board@.len()) as nat),
        forall|m: int| 0 <= m < old(coll)@.len() ==> final(coll)@[m] == old(coll)@[m],
        forall|m: int|
            old(coll)@.len() <= m < final(coll)@.len() ==> (#[trigger] final(coll)@[m]).wf()
                && is_completion_of(final(coll)@[m].board@, board@),
        forall|m1: int, m2: int|
            #![trigger final(coll)@[m1], final(coll)@[m2]]
            old(coll)@.len() <= m1 < m2 < final(coll)@.len() ==> !same_mapping(
                final(coll)@[m1].board@,
                final(coll)@[m2].board@,
            ),
        forall|c: Seq<ValuedBoardPosition>|
            #[trigger] is_completion_of(c, board@) ==> exists|m: int|
                old(coll)@.len() <= m < final(coll)@.len() && same_mapping(
                    final(coll)@[m].board@,
                    c,
                ),
    decreases 9 - column_idx,
{
    let ghost b = board@;
    let ghost coll0 = coll@;
    proof {
        lemma_board_len_max(b);
    }

    if column_idx == 9 {
        proof {
            lemma_board_full(b);
        }
        let pb = ParsedBoard::from_board(board);
        coll.push(pb);
        proof {
            assert(coll@ == coll0.push(pb));
            assert forall|j: int| 0 <= j < b.len() implies seq_has_fill(
                b,
                (#[trigger] b[j]).position.index as int,
                b[j].value,
            ) by {
                assert(b[j].position.index as int == b[j].position.index as int && b[j].value == b[
                    j].value);
            }
            assert(is_completion_of(pb.board@, b));
            assert forall|c: Seq<ValuedBoardPosition>| #[trigger]
                is_completion_of(c, b) implies exists|m: int|
                coll0.len() <= m < coll@.len() && same_mapping(coll@[m].board@, c) by {
                lemma_completion_of_full(b, c);
                assert(coll@[coll0.len() as int] == pb);
                assert(coll0.len() <= coll0.len() < coll@.len() && same_mapping(
                    coll@[coll0.len() as int].board@,
                    c,
                ));
            }
        }
        return ;
    }

    let position = BoardPosition::from_index(column_idx);
    let next_idx = column_idx + 1;
    if board.contains_position(position) {
        proof {
            assert forall|j: int| 0 <= j < next_idx implies seq_contains_pos_index(b, j) by {
                if j < column_idx {
                } else {
                    assert(seq_contains_pos_index(b, position.index as int));
                }
            }
        }
        return iterate_internal(board, next_idx, coll);
    }

    let avail = board.available_selections();
    proof {
        lemma_board_missing_pos(b, column_idx as int);
    }
    let ghost fact8: nat = fact((8 - b.len()) as nat);
    let mut vi: usize = 0;
    while vi < avail.len()
        invariant
            board.wf(),
            board@ == b,
            coll0 == old(coll)@,
            column_idx < 9,
            next_idx == column_idx + 1,
            pos_valid(position),
            position.index == column_idx,
            b.len() <= 8,
            fact8 == fact((8 - b.len()) as nat),
            !seq_contains_pos_index(b, column_idx as int),
            forall|j: int| 0 <= j < column_idx ==> seq_contains_pos_index(b, j),
            avail@.len() == 9 - b.len(),
            forall|i: int|
                0 <= i < avail@.len() ==> 1 <= #[trigger] avail@[i] <= 9 && !seq_contains_value(
                    b,
                    avail@[i],
                ),
            forall|d: u8| 1 <= d <= 9 && !seq_contains_value(b, d) ==> avail@.contains(d),
            forall|i: int, j: int| 0 <= i < j < avail@.len() ==> avail@[i] < avail@[j],
            vi <= avail@.len(),
            coll@.len() == coll0.len() + vi * fact8,
            forall|m: int| 0 <= m < coll0.len() ==> coll@[m] == coll0[m],
            forall|m: int|
                coll0.len() <= m < coll@.len() ==> (#[trigger] coll@[m]).wf() && is_completion_of(
                    coll@[m].board@,
                    b,
                ),
            forall|m: int|
                coll0.len() <= m < coll@.len() ==> exists|w: int|
                    0 <= w < vi && digit_at((#[trigger] coll@[m]).board@, column_idx as int)
                        == avail@[w],
            forall|m1: int, m2: int|
                #![trigger coll@[m1], coll@[m2]]
                coll0.len() <= m1 < m2 < coll@.len() ==> !same_mapping(
                    coll@[m1].board@,
                    coll@[m2].board@,
                ),
            forall|c: Seq<ValuedBoardPosition>|
                #[trigger] is_completion_of(c, b) && (exists|w: int|
                    0 <= w < vi && digit_at(c, column_idx as int) == avail@[w]) ==> exists|m: int|
                    coll0.len() <= m < coll@.len() && same_mapping(coll@[m].board@, c),
        decreases avail@.len() - vi,
    {
        let value = avail[vi];
        let ghost group_start = coll@.len();
        let mut board2 = board.clone();
        let vbp = ValuedBoardPosition::from_pos(value, position);
        let _ = board2.fill(vbp);
        let ghost b2 = board2@;
        proof {
            assert(!seq_contains_value(b, value));
            assert(b2 == b.push(vbp));
            lemma_filled_below_push(b, vbp, column_idx as int);
        }
        iterate_internal(board2, next_idx, coll);
        proof {
            let group_end = coll@.len();
            assert(b2.len() == b.len() + 1);
            assert(fact((9 - b2.len()) as nat) == fact8);
            assert(coll@.len() == group_start + fact8);
            assert((vi + 1) * fact8 == vi * fact8 + fact8) by (nonlinear_arith);

            // every entry of the new group extends b and places `value` at the
            // current cell
            assert forall|m: int| group_start <= m < group_end implies (#[trigger] coll@[m]).wf()
                && is_completion_of(coll@[m].board@, b) && digit_at(
                coll@[m].board@,
                column_idx as int,
            ) == value by {
                assert(is_completion_of(coll@[m].board@, b2));
                lemma_completion_of_push(coll@[m].board@, b, vbp);
            }

            // distinctness across groups: earlier groups used a smaller digit
            // at the current cell
            assert forall|m1: int, m2: int|
                #![trigger coll@[m1], coll@[m2]]
                coll0.len() <= m1 < m2 < group_end implies !same_mapping(
                coll@[m1].board@,
                coll@[m2].board@,
            ) by {
                if m1 < group_start && group_start <= m2 {
                    let w = choose|w: int|
                        0 <= w < vi && digit_at(coll@[m1].board@, column_idx as int) == avail@[w];
                    assert(avail@[w] < avail@[vi as int]);
                    assert(digit_at(coll@[m1].board@, column_idx as int) != value);
                    assert(digit_at(coll@[m2].board@, column_idx as int) == value);
                }
            }

            // coverage: completions whose digit here is one of the first
            // vi + 1 available digits are all collected
            assert forall|c: Seq<ValuedBoardPosition>|
                #[trigger] is_completion_of(c, b) && (exists|w: int|
                    0 <= w < vi + 1 && digit_at(c, column_idx as int) == avail@[w])
                implies exists|m: int|
                    coll0.len() <= m < group_end && same_mapping(coll@[m].board@, c) by {
                let w = choose|w: int|
                    0 <= w < vi + 1 && digit_at(c, column_idx as int) == avail@[w];
                if w < vi {
                    let m = choose|m: int|
                        coll0.len() <= m < group_start && same_mapping(
                            (#[trigger] coll@[m]).board@,
                            c,
                        );
                    assert(coll0.len() <= m < group_end && same_mapping(coll@[m].board@, c));
                } else {
                    assert(digit_at(c, column_idx as int) == value);
                    lemma_completion_extend(c, b, vbp);
                    assert(is_completion_of(c, b2));
                }
            }
        }
        vi = vi + 1;
    }
    proof {
        assert(vi == avail@.len() == 9 - b.len());
        assert(fact((9 - b.len()) as nat) == ((9 - b.len()) as nat) * fact((8 - b.len()) as nat));
        assert(coll@.len() == coll0.len() + fact((9 - b.len()) as nat));

        // every completion of b is covered: its digit at the current cell is
        // an available digit
        assert forall|c: Seq<ValuedBoardPosition>| #[trigger]
            is_completion_of(c, b) implies exists|m: int|
            coll0.len() <= m < coll@.len() && same_mapping(coll@[m].board@, c) by {
            lemma_completion_covered(c, b, avail@, column_idx as int);
        }
    }
}

/// Enumerates every completion of a partial board.
pub struct BoardIterator<'p> {
    pub board: &'p Board,
}

impl<'p> BoardIterator<'p> {
    /// An enumerator over the completions of the given board.
    pub fn new(board: &'p Board) -> (r: Self)
        ensures
            r.board == board,
    {
        Self { board }
    }

    /// Every completion of the board, in the deterministic order that fills
    /// empty cells in ascending index order with ascending digits.  Exactly
    /// `(9 - len)!` completions come out, pairwise distinct, and every
    /// completion of the board is among them.
    pub fn iterate(&self) -> (r: Vec<ParsedBoard>)
        requires
            self.board.wf(),
        ensures
            enumerates_completions(r@, self.board@),
    {
        proof {
            lemma_board_len_max(self.board@);
        }
        let cap = factorial(self.board.remaining_capacity() as usize);
        let mut out: Vec<ParsedBoard> = Vec::with_capacity(cap);
        iterate_internal(self.board.clone(), 0, &mut out);
        out
    }
}

impl Board {
    /// All possible endings of this board: one parsed completion for every
    /// way of placing the unused digits on the empty cells.
    pub fn available_endings(&self) -> (r: EndBoard)
        requires
            self.wf(),
        ensures
            r.wf(),
            enumerates_completions(r.possibilities@, self@),
            r.possibilities@.len() >= 1,
    {
        let possibilities = BoardIterator::new(self).iterate();
        proof {
            lemma_board_len_max(self@);
            lemma_fact_pos((9 - self@.len()) as nat);
            lemma_fact_at_most_nine((9 - self@.len()) as nat);
        }
        EndBoard { possibilities }
    }
}

} // verus!
