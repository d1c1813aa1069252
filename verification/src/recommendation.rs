use vstd::prelude::*;

use crate::board::{seq_contains_pos_index, Board};
use crate::board_position::{pos_diag, pos_valid, BoardPosition};
use crate::valued_board_position::ValuedBoardPosition;
use crate::end_board::{
    enumerates_completions, sum_bl_tr_payouts, sum_col_payouts, sum_row_payouts,
    sum_tl_br_payouts, DiagOrientation,
};
use crate::end_row::DiagRow;
use crate::parsed_board::ParsedBoard;

verus! {

/// Why a recommendation could not be computed for a board.
#[derive(Debug, Copy, Clone, Eq, PartialEq, Structural)]
pub enum RecommendationFailure {
    /// The board has no fills yet: the first cell is revealed by the game,
    /// not chosen by recommendation.
    BoardEmpty,
    /// The board has more than four fills: past that point the line to pick
    /// is decided directly, not by recommendation.
    TooManyFills,
}

/// Column of the `k`-th cell in scan order (columns are walked outermost).
pub open spec fn scan_col(k: int) -> int {
    k / 3
}

/// Row of the `k`-th cell in scan order.
pub open spec fn scan_row(k: int) -> int {
    k % 3
}

/// The board position at the given column and row.
pub open spec fn pos_at(col: int, row: int) -> BoardPosition {
    BoardPosition { col: col as u8, row: row as u8, index: (col + 3 * row) as u8 }
}

/// The cell at (col, row) is not filled on the board.
pub open spec fn cell_empty(b: Seq<ValuedBoardPosition>, col: int, row: int) -> bool {
    !seq_contains_pos_index(b, col + 3 * row)
}

/// How well the cell at (col, row) matches the threshold `t` against the
/// eight averages `[c0, c1, c2, r0, r1, r2, tl_br, bl_tr]`: one point when
/// its column's average equals `t`, one when its row's does, and one for
/// each diagonal through the cell whose average equals `t`.
pub open spec fn cell_score(avgs: Seq<u16>, col: int, row: int, t: u16) -> int {
    (if avgs[col] == t {
        1int
    } else {
        0int
    }) + (if avgs[3 + row] == t {
        1int
    } else {
        0int
    }) + (match pos_diag(col, row) {
        DiagRow::Both => (if avgs[6] == t {
            1int
        } else {
            0int
        }) + (if avgs[7] == t {
            1int
        } else {
            0int
        }),
        DiagRow::TopLeftBottomRight => if avgs[6] == t {
            1int
        } else {
            0int
        },
        DiagRow::BottomLeftTopRight => if avgs[7] == t {
            1int
        } else {
            0int
        },
        DiagRow::Neither => 0int,
    })
}

/// Best score any empty cell reaches among the first `k` cells in scan
/// order, never below 0.
pub open spec fn best_score_upto(b: Seq<ValuedBoardPosition>, avgs: Seq<u16>, t: u16, k: int) -> int
    decreases k,
{
    if k <= 0 {
        0
    } else {
        let prev = best_score_upto(b, avgs, t, k - 1);
        let col = scan_col(k - 1);
        let row = scan_row(k - 1);
        if cell_empty(b, col, row) && cell_score(avgs, col, row, t) > prev {
            cell_score(avgs, col, row, t)
        } else {
            prev
        }
    }
}

/// The empty cells among the first `k` in scan order whose score equals
/// `m`, in scan order.
pub open spec fn collect_upto(
    b: Seq<ValuedBoardPosition>,
    avgs: Seq<u16>,
    t: u16,
    m: int,
    k: int,
) -> Seq<BoardPosition>
    decreases k,
{
    if k <= 0 {
        Seq::empty()
    } else {
        let col = scan_col(k - 1);
        let row = scan_row(k - 1);
        let rest = collect_upto(b, avgs, t, m, k - 1);
        if cell_empty(b, col, row) && cell_score(avgs, col, row, t) == m {
            rest.push(pos_at(col, row))
        } else {
            rest
        }
    }
}

/// One scan over the whole board at threshold `t`: the empty cells that
/// reach the best match score of that scan, in scan order.  A cell counts
/// as a suggestion only when it matches the threshold at all (score at
/// least 1); when no empty cell does, the scan comes up empty and the
/// caller lowers the threshold.
pub open spec fn scan_result(b: Seq<ValuedBoardPosition>, avgs: Seq<u16>, t: u16) -> Seq<
    BoardPosition,
> {
    if best_score_upto(b, avgs, t, 9) >= 1 {
        collect_upto(b, avgs, t, best_score_upto(b, avgs, t, 9), 9)
    } else {
        Seq::empty()
    }
}

/// The largest of the first `k` averages.
pub open spec fn max_avg_upto(avgs: Seq<u16>, k: int) -> u16
    decreases k,
{
    if k <= 1 {
        avgs[0]
    } else {
        let prev = max_avg_upto(avgs, k - 1);
        if avgs[k - 1] > prev {
            avgs[k - 1]
        } else {
            prev
        }
    }
}

/// The largest of the first `k` averages strictly below `t`, when one
/// exists.
pub open spec fn max_below_upto(avgs: Seq<u16>, t: u16, k: int) -> Option<u16>
    decreases k,
{
    if k <= 0 {
        None
    } else {
        let prev = max_below_upto(avgs, t, k - 1);
        if avgs[k - 1] < t {
            match prev {
                None => Some(avgs[k - 1]),
                Some(m) => if avgs[k - 1] > m {
                    Some(avgs[k - 1])
                } else {
                    Some(m)
                },
            }
        } else {
            prev
        }
    }
}

/// Whatever `max_below_upto` returns lies strictly below the threshold.
pub proof fn lemma_max_below_lt(avgs: Seq<u16>, t: u16, k: int)
    ensures
        match max_below_upto(avgs, t, k) {
            Some(m) => m < t,
            None => true,
        },
    decreases k,
{
    if k > 0 {
        lemma_max_below_lt(avgs, t, k - 1);
    }
}

/// The suggestion set for a board at threshold `t`: the scan result at `t`
/// when some empty cell matches that threshold; otherwise the threshold is
/// lowered to the best average strictly below `t` and the scan retried,
/// until a scan yields cells or no lower threshold remains (then the
/// suggestion set is empty).
pub open spec fn suggestions_spec(b: Seq<ValuedBoardPosition>, avgs: Seq<u16>, t: u16) -> Seq<
    BoardPosition,
>
    decreases t via suggestions_spec_decreases
{
    if scan_result(b, avgs, t).len() > 0 {
        scan_result(b, avgs, t)
    } else {
        match max_below_upto(avgs, t, 8) {
            Some(t2) => suggestions_spec(b, avgs, t2),
            None => Seq::empty(),
        }
    }
}

#[via_fn]
proof fn suggestions_spec_decreases(b: Seq<ValuedBoardPosition>, avgs: Seq<u16>, t: u16) {
    lemma_max_below_lt(avgs, t, 8);
}

/// No cell is collected at a target score above the best score.
pub proof fn lemma_collect_above_best_empty(
    b: Seq<ValuedBoardPosition>,
    avgs: Seq<u16>,
    t: u16,
    m: int,
    k: int,
)
    requires
        best_score_upto(b, avgs, t, k) < m,
    ensures
        collect_upto(b, avgs, t, m, k) == Seq::<BoardPosition>::empty(),
    decreases k,
{
    if k > 0 {
        lemma_collect_above_best_empty(b, avgs, t, m, k - 1);
    }
}

/// Every collected cell is a valid, still-empty board position.
pub proof fn lemma_collect_elements(
    b: Seq<ValuedBoardPosition>,
    avgs: Seq<u16>,
    t: u16,
    m: int,
    k: int,
)
    requires
        k <= 9,
    ensures
        forall|i: int|
            0 <= i < collect_upto(b, avgs, t, m, k).len() ==> pos_valid(
                #[trigger] collect_upto(b, avgs, t, m, k)[i],
            ) && !seq_contains_pos_index(b, collect_upto(b, avgs, t, m, k)[i].index as int),
    decreases k,
{
    if k > 0 {
        lemma_collect_elements(b, avgs, t, m, k - 1);
        let col = scan_col(k - 1);
        let row = scan_row(k - 1);
        let rest = collect_upto(b, avgs, t, m, k - 1);
        let cur = collect_upto(b, avgs, t, m, k);
        assert(0 <= col < 3 && 0 <= row < 3);
        if cell_empty(b, col, row) && cell_score(avgs, col, row, t) == m {
            let p = pos_at(col, row);
            assert(pos_valid(p));
            assert(p.index == col + 3 * row);
            assert(cur == rest.push(p));
            assert forall|i: int| 0 <= i < cur.len() implies pos_valid(#[trigger] cur[i])
                && !seq_contains_pos_index(b, cur[i].index as int) by {
                if i < rest.len() {
                    assert(cur[i] == rest[i]);
                } else {
                    assert(cur[i] == p);
                }
            }
        } else {
            assert(cur == rest);
            assert forall|i: int| 0 <= i < cur.len() implies pos_valid(#[trigger] cur[i])
                && !seq_contains_pos_index(b, cur[i].index as int) by {
                assert(cur[i] == rest[i]);
            }
        }
    }
}

/// Every suggested cell is a valid, still-empty board position.
pub proof fn lemma_suggestions_empty(b: Seq<ValuedBoardPosition>, avgs: Seq<u16>, t: u16)
    ensures
        forall|i: int|
            0 <= i < suggestions_spec(b, avgs, t).len() ==> pos_valid(
                #[trigger] suggestions_spec(b, avgs, t)[i],
            ) && !seq_contains_pos_index(b, suggestions_spec(b, avgs, t)[i].index as int),
    decreases t,
{
    let sug = suggestions_spec(b, avgs, t);
    if scan_result(b, avgs, t).len() > 0 {
        let m = best_score_upto(b, avgs, t, 9);
        assert(m >= 1);
        lemma_collect_elements(b, avgs, t, m, 9);
        assert forall|i: int| 0 <= i < sug.len() implies pos_valid(#[trigger] sug[i])
            && !seq_contains_pos_index(b, sug[i].index as int) by {
            assert(sug[i] == collect_upto(b, avgs, t, m, 9)[i]);
        }
    } else {
        match max_below_upto(avgs, t, 8) {
            Some(t2) => {
                lemma_max_below_lt(avgs, t, 8);
                lemma_suggestions_empty(b, avgs, t2);
                assert forall|i: int| 0 <= i < sug.len() implies pos_valid(#[trigger] sug[i])
                    && !seq_contains_pos_index(b, sug[i].index as int) by {
                    assert(sug[i] == suggestions_spec(b, avgs, t2)[i]);
                }
            },
            None => {},
        }
    }
}

/// The maximum of the first `k` averages is bounded by any bound on them.
pub proof fn lemma_max_upto_le(avgs: Seq<u16>, k: int, bound: u16)
    requires
        1 <= k,
        forall|j: int| 0 <= j < k ==> #[trigger] avgs[j] <= bound,
    ensures
        max_avg_upto(avgs, k) <= bound,
    decreases k,
{
    if k > 1 {
        lemma_max_upto_le(avgs, k - 1, bound);
    }
}

proof fn lemma_scan_decomp(c: int, r: int)
    requires
        0 <= c,
        0 <= r < 3,
    ensures
        scan_col(3 * c + r) == c,
        scan_row(3 * c + r) == r,
{
    assert((3 * c + r) / 3 == c) by (nonlinear_arith)
        requires
            0 <= c,
            0 <= r < 3,
    ;
    assert((3 * c + r) % 3 == r) by (nonlinear_arith)
        requires
            0 <= c,
            0 <= r < 3,
    ;
}

/// The eight averages a recommendation carries, in the canonical order the
/// scoring uses: columns, rows, then the two diagonals.
pub open spec fn rec_avgs(rec: Recommendation) -> Seq<u16> {
    seq![
        rec.avg_col@[0],
        rec.avg_col@[1],
        rec.avg_col@[2],
        rec.avg_row@[0],
        rec.avg_row@[1],
        rec.avg_row@[2],
        rec.avg_tl_br,
        rec.avg_bl_tr,
    ]
}

/// The averages of a recommendation are the truncated means over one and
/// the same correct enumeration of the board's completions.
pub open spec fn averages_ok(rec: Recommendation, b: Seq<ValuedBoardPosition>) -> bool {
    exists|poss: Seq<ParsedBoard>|
        {
            &&& #[trigger] enumerates_completions(poss, b)
            &&& poss.len() >= 1
            &&& forall|c: int|
                0 <= c < 3 ==> (#[trigger] rec.avg_col@[c]) as int == sum_col_payouts(poss, c)
                    / poss.len() as int
            &&& forall|r: int|
                0 <= r < 3 ==> (#[trigger] rec.avg_row@[r]) as int == sum_row_payouts(poss, r)
                    / poss.len() as int
            &&& rec.avg_tl_br as int == sum_tl_br_payouts(poss) / poss.len() as int
            &&& rec.avg_bl_tr as int == sum_bl_tr_payouts(poss) / poss.len() as int
        }
}

/// What a successfully computed recommendation promises: its averages come
/// from the full enumeration of completions, its maximum is the largest of
/// the eight, and its suggestions are the threshold-retry scan's result.
pub open spec fn recommendation_ok(rec: Recommendation, b: Seq<ValuedBoardPosition>) -> bool {
    &&& averages_ok(rec, b)
    &&& rec.max_avg == max_avg_upto(rec_avgs(rec), 8)
    &&& rec.suggestions@ == suggestions_spec(b, rec_avgs(rec), rec.max_avg)
    &&& forall|i: int|
        0 <= i < rec.suggestions@.len() ==> pos_valid(#[trigger] rec.suggestions@[i])
            && !seq_contains_pos_index(b, rec.suggestions@[i].index as int)
}

/// A computed recommendation: the average payout of each of the eight line
/// orientations over every completion of the board, their maximum, and the
/// suggested cells to fill next.
#[derive(Debug)]
pub struct Recommendation {
    pub avg_col: [u16; 3],
    pub avg_row: [u16; 3],
    pub avg_tl_br: u16,
    pub avg_bl_tr: u16,
    pub max_avg: u16,
    pub suggestions: Vec<BoardPosition>,
}

fn validate_board(b: &Board) -> (r: Result<(), RecommendationFailure>)
    requires
        b.wf(),
    ensures
        b@.len() == 0 ==> r == Result::<(), RecommendationFailure>::Err(
            RecommendationFailure::BoardEmpty,
        ),
        b@.len() > 4 ==> r == Result::<(), RecommendationFailure>::Err(
            RecommendationFailure::TooManyFills,
        ),
        1 <= b@.len() <= 4 ==> r == Result::<(), RecommendationFailure>::Ok(()),
{
    let f = b.len();
    if f == 0 {
        return Err(RecommendationFailure::BoardEmpty);
    } else if f > 4 {
        return Err(RecommendationFailure::TooManyFills);
    }

    Ok(())
}

impl Recommendation {
    fn cmp_num(num: u16, max: u16) -> (r: u8)
        ensures
            r == (if num == max {
                1u8
            } else {
                0u8
            }),
    {
        match num == max {
            true => 1,
            false => 0,
        }
    }

    fn calc_max_avg(averages: &[u16; 8], previous_attempt_average: u16) -> (r: Option<u16>)
        ensures
            previous_attempt_average == u16::MAX ==> r == Some(max_avg_upto(averages@, 8)),
            previous_attempt_average < u16::MAX ==> r == max_below_upto(
                averages@,
                previous_attempt_average,
                8,
            ),
    {
        if previous_attempt_average == u16::MAX {
            let mut m: u16 = averages[0];
            let mut k: usize = 1;
            while k < 8
                invariant
                    1 <= k <= 8,
                    m == max_avg_upto(averages@, k as int),
                decreases 8 - k,
            {
                if averages[k] > m {
                    m = averages[k];
                }
                k = k + 1;
            }
            Some(m)
        } else {
            let mut best: Option<u16> = None;
            let mut k: usize = 0;
            while k < 8
                invariant
                    k <= 8,
                    best == max_below_upto(averages@, previous_attempt_average, k as int),
                decreases 8 - k,
            {
                if averages[k] < previous_attempt_average {
                    match best {
                        None => {
                            best = Some(averages[k]);
                        },
                        Some(b) => {
                            if averages[k] > b {
                                best = Some(averages[k]);
                            }
                        },
                    }
                }
                k = k + 1;
            }
            best
        }
    }

    fn scan_positions(board: &Board, averages: &[u16; 8], t: u16) -> (r: Vec<BoardPosition>)
        requires
            board.wf(),
        ensures
            r@ == scan_result(board@, averages@, t),
    {
        let ghost b = board@;
        let ghost avgs = averages@;
        let mut suggestions: Vec<BoardPosition> = Vec::new();
        let mut curr_max_matches: u8 = 0;

        let mut col: u8 = 0;
        while col < 3
            invariant
                board.wf(),
                board@ == b,
                avgs == averages@,
                col <= 3,
                curr_max_matches as int == best_score_upto(b, avgs, t, 3 * col),
                curr_max_matches >= 1 ==> suggestions@ == collect_upto(
                    b,
                    avgs,
                    t,
                    curr_max_matches as int,
                    3 * col,
                ),
                curr_max_matches == 0 ==> suggestions@ == Seq::<BoardPosition>::empty(),
            decreases 3 - col,
        {
            let matches_col = Self::cmp_num(averages[col as usize], t);

            let mut row: u8 = 0;
            while row < 3
                invariant
                    board.wf(),
                    board@ == b,
                    avgs == averages@,
                    col < 3,
                    row <= 3,
                    matches_col == (if avgs[col as int] == t {
                        1u8
                    } else {
                        0u8
                    }),
                    curr_max_matches as int == best_score_upto(b, avgs, t, 3 * col + row),
                    curr_max_matches >= 1 ==> suggestions@ == collect_upto(
                        b,
                        avgs,
                        t,
                        curr_max_matches as int,
                        3 * col + row,
                    ),
                    curr_max_matches == 0 ==> suggestions@ == Seq::<BoardPosition>::empty(),
                decreases 3 - row,
            {
                let ghost k: int = 3 * col + row;
                proof {
                    lemma_scan_decomp(col as int, row as int);
                }
                let pos = BoardPosition::new(col, row);
                if !board.contains_position(pos) {
                    let matches_row = Self::cmp_num(averages[(row + 3) as usize], t);

                    let diag_plus: u8 = match pos.diag_row() {
                        DiagRow::Both => Self::cmp_num(averages[6], t) + Self::cmp_num(
                            averages[7],
                            t,
                        ),
                        DiagRow::Neither => 0,
                        DiagRow::BottomLeftTopRight => Self::cmp_num(averages[7], t),
                        DiagRow::TopLeftBottomRight => Self::cmp_num(averages[6], t),
                    };

                    let total_plus = matches_col + matches_row + diag_plus;
                    proof {
                        assert(total_plus as int == cell_score(avgs, col as int, row as int, t));
                        assert(cell_empty(b, col as int, row as int));
                        assert(pos == pos_at(col as int, row as int));
                    }
                    if total_plus >= 1 {
                        if total_plus == curr_max_matches {
                            suggestions.push(pos);
                        } else if total_plus > curr_max_matches {
                            curr_max_matches = total_plus;
                            suggestions.clear();
                            suggestions.push(pos);
                            proof {
                                lemma_collect_above_best_empty(
                                    b,
                                    avgs,
                                    t,
                                    curr_max_matches as int,
                                    k,
                                );
                            }
                        }
                    }
                } else {
                    proof {
                        assert(!cell_empty(b, col as int, row as int));
                    }
                }
                row = row + 1;
            }
            col = col + 1;
        }
        proof {
            assert(suggestions@ == scan_result(b, avgs, t));
        }
        suggestions
    }

    fn mk_suggestions(board: &Board, averages: &[u16; 8], curr_max_avg: u16) -> (r: Vec<
        BoardPosition,
    >)
        requires
            board.wf(),
            curr_max_avg < u16::MAX,
        ensures
            r@ == suggestions_spec(board@, averages@, curr_max_avg),
    {
        let mut t: u16 = curr_max_avg;
        loop
            invariant
                board.wf(),
                curr_max_avg < u16::MAX,
                t <= curr_max_avg,
                suggestions_spec(board@, averages@, curr_max_avg) == suggestions_spec(
                    board@,
                    averages@,
                    t,
                ),
            decreases t,
        {
            let s = Self::scan_positions(board, averages, t);
            if s.len() > 0 {
                return s;
            }
            match Self::calc_max_avg(averages, t) {
                Some(next_max_avg) => {
                    proof {
                        lemma_max_below_lt(averages@, t, 8);
                    }
                    t = next_max_avg;
                },
                None => {
                    return Vec::new();
                },
            }
        }
    }

    /// The average payout of each column's line over all completions.
    pub fn avg_col(&self) -> (r: &[u16; 3])
        ensures
            *r == self.avg_col,
    {
        &self.avg_col
    }

    /// The average payout of each row's line over all completions.
    pub fn avg_row(&self) -> (r: &[u16; 3])
        ensures
            *r == self.avg_row,
    {
        &self.avg_row
    }

    /// The average payout of the top-left to bottom-right diagonal.
    pub fn avg_tl_br(&self) -> (r: u16)
        ensures
            r == self.avg_tl_br,
    {
        self.avg_tl_br
    }

    /// The average payout of the bottom-left to top-right diagonal.
    pub fn avg_bl_tr(&self) -> (r: u16)
        ensures
            r == self.avg_bl_tr,
    {
        self.avg_bl_tr
    }

    /// The largest of the eight averages.
    pub fn max_avg(&self) -> (r: u16)
        ensures
            r == self.max_avg,
    {
        self.max_avg
    }

    /// The suggested cells to fill next, a subset of the empty cells.
    pub fn suggestions(&self) -> (r: &Vec<BoardPosition>)
        ensures
            r@ == self.suggestions@,
    {
        &self.suggestions
    }

    /// Compute a recommendation for the given board.  Fails with
    /// `BoardEmpty` on a board with no fills and with `TooManyFills` on one
    /// with more than four; succeeds exactly on 1 to 4 fills.
    #[verifier::rlimit(100)]
    pub fn from_board(board: &Board) -> (r: Result<Recommendation, RecommendationFailure>)
        requires
            board.wf(),
        ensures
            board@.len() == 0 ==> r == Result::<Recommendation, RecommendationFailure>::Err(
                RecommendationFailure::BoardEmpty,
            ),
            board@.len() > 4 ==> r == Result::<Recommendation, RecommendationFailure>::Err(
                RecommendationFailure::TooManyFills,
            ),
            1 <= board@.len() <= 4 ==> match r {
                Ok(rec) => recommendation_ok(rec, board@),
                Err(_) => false,
            },
    {
        match validate_board(board) {
            Ok(_) => {},
            Err(e) => {
                return Err(e);
            },
        }

        let eb = board.available_endings();

        let c0 = eb.avg_for_col(0);
        let c1 = eb.avg_for_col(1);
        let c2 = eb.avg_for_col(2);

        let r0 = eb.avg_for_row(0);
        let r1 = eb.avg_for_row(1);
        let r2 = eb.avg_for_row(2);

        let avg_tl_br = eb.avg_for_diag_row(DiagOrientation::TopLeftBottomRight);
        let avg_bl_tr = eb.avg_for_diag_row(DiagOrientation::BottomLeftTopRight);

        let avg_col = [c0, c1, c2];
        let avg_row = [r0, r1, r2];
        let averages = [c0, c1, c2, r0, r1, r2, avg_tl_br, avg_bl_tr];
        proof {
            assert(avg_col@ =~= seq![c0, c1, c2]);
            assert(avg_row@ =~= seq![r0, r1, r2]);
            assert(averages@ =~= seq![c0, c1, c2, r0, r1, r2, avg_tl_br, avg_bl_tr]);
        }

        let max_avg = match Self::calc_max_avg(&averages, u16::MAX) {
            Some(m) => m,
            None => {
                proof {
                    assert(false);
                }
                0
            },
        };
        proof {
            assert forall|j: int| 0 <= j < 8 implies #[trigger] averages@[j] <= 10000 by {}
            lemma_max_upto_le(averages@, 8, 10000);
        }
        let suggestions = Self::mk_suggestions(board, &averages, max_avg);

        let out = Recommendation { avg_col, avg_row, avg_tl_br, avg_bl_tr, max_avg, suggestions };

        proof {
            assert(rec_avgs(out) =~= averages@);
            assert(enumerates_completions(eb.possibilities@, board@));
            assert(averages_ok(out, board@));
            assert(out.max_avg == max_avg_upto(rec_avgs(out), 8));
            assert(out.suggestions@ == suggestions_spec(board@, rec_avgs(out), out.max_avg));
            lemma_suggestions_empty(board@, averages@, max_avg);
            let sug = suggestions_spec(board@, averages@, max_avg);
            assert forall|i: int| 0 <= i < out.suggestions@.len() implies pos_valid(
                #[trigger] out.suggestions@[i],
            ) && !seq_contains_pos_index(board@, out.suggestions@[i].index as int) by {
                assert(out.suggestions@[i] == sug[i]);
            }
        }

        Ok(out)
    }
}

} // verus!
