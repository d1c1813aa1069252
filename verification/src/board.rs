use vstd::prelude::*;
use vstd::set_lib::{lemma_int_range, lemma_len_subset, set_int_range};

use crate::board_position::{pos_valid, BoardPosition, MAX_POS};
use crate::end_row::EndRow;
use crate::fill_failure::FillFailure;
use crate::valued_board_position::ValuedBoardPosition;

verus! {

/// Number of cells on the board.
pub const BOARD_CAPACITY: u8 = 9;

/// A single board entry is a digit 1..=9 at a valid grid position.
pub open spec fn entry_ok(v: ValuedBoardPosition) -> bool {
    pos_valid(v.position) && 1 <= v.value <= 9
}

/// The board invariant over its sequence of fills: every entry is a digit
/// 1..=9 at a valid position, no two entries share a position, and no two
/// entries share a digit.
pub open spec fn board_wf(s: Seq<ValuedBoardPosition>) -> bool {
    &&& forall|i: int| 0 <= i < s.len() ==> entry_ok(#[trigger] s[i])
    &&& forall|i: int, j: int|
        #![trigger s[i], s[j]]
        0 <= i < j < s.len() ==> s[i].position.index != s[j].position.index && s[i].value
            != s[j].value
}

/// Some fill on the board carries the given digit.
pub open spec fn seq_contains_value(s: Seq<ValuedBoardPosition>, v: u8) -> bool {
    exists|k: int| 0 <= k < s.len() && (#[trigger] s[k]).value == v
}

/// Some fill on the board occupies the position with the given linear index.
pub open spec fn seq_contains_pos_index(s: Seq<ValuedBoardPosition>, i: int) -> bool {
    exists|k: int| 0 <= k < s.len() && (#[trigger] s[k]).position.index == i
}

/// Some fill on the board places digit `v` at the position with index `i`.
pub open spec fn seq_has_fill(s: Seq<ValuedBoardPosition>, i: int, v: u8) -> bool {
    exists|k: int| 0 <= k < s.len() && (#[trigger] s[k]).position.index == i && s[k].value == v
}

/// The digit placed at the position with linear index `i`, or 0 when that
/// position is unfilled.
pub open spec fn digit_at(s: Seq<ValuedBoardPosition>, i: int) -> u8 {
    if seq_contains_pos_index(s, i) {
        s[choose|k: int| 0 <= k < s.len() && (#[trigger] s[k]).position.index == i].value
    } else {
        0
    }
}

/// What a fill attempt does: a digit conflict is reported first, then a
/// position conflict; otherwise the entry is appended.
pub open spec fn fill_spec(s: Seq<ValuedBoardPosition>, v: ValuedBoardPosition) -> Result<
    Seq<ValuedBoardPosition>,
    FillFailure,
> {
    if seq_contains_value(s, v.value) {
        Result::Err(FillFailure::ValueAlreadyContained)
    } else if seq_contains_pos_index(s, v.position.index as int) {
        Result::Err(FillFailure::PositionAlreadyFilled)
    } else {
        Result::Ok(s.push(v))
    }
}

/// The linear indices of the filled positions, as a sequence of integers.
pub open spec fn index_seq(s: Seq<ValuedBoardPosition>) -> Seq<int> {
    s.map_values(|v: ValuedBoardPosition| v.position.index as int)
}

/// The digits on the board, as a sequence of integers.
pub open spec fn values_seq(s: Seq<ValuedBoardPosition>) -> Seq<int> {
    s.map_values(|v: ValuedBoardPosition| v.value as int)
}

/// On a well-formed board the digit stored at a fill's position is that
/// fill's digit.
pub proof fn lemma_digit_at(s: Seq<ValuedBoardPosition>, k: int)
    requires
        board_wf(s),
        0 <= k < s.len(),
    ensures
        seq_contains_pos_index(s, s[k].position.index as int),
        digit_at(s, s[k].position.index as int) == s[k].value,
{
    let i = s[k].position.index as int;
    assert(seq_contains_pos_index(s, i));
    let k2 = choose|k2: int| 0 <= k2 < s.len() && (#[trigger] s[k2]).position.index == i;
    if k2 != k {
        assert(s[k2].position.index != s[k].position.index);
        assert(false);
    }
}

/// On a well-formed board, a recorded fill determines the digit stored at
/// its position.
pub proof fn lemma_digit_at_has_fill(s: Seq<ValuedBoardPosition>, i: int, v: u8)
    requires
        board_wf(s),
        seq_has_fill(s, i, v),
    ensures
        seq_contains_pos_index(s, i),
        digit_at(s, i) == v,
{
    let k = choose|k: int|
        0 <= k < s.len() && (#[trigger] s[k]).position.index == i && s[k].value == v;
    lemma_digit_at(s, k);
}

/// A nonzero digit read off the board comes from a recorded fill.
pub proof fn lemma_digit_at_nonzero(s: Seq<ValuedBoardPosition>, i: int)
    requires
        digit_at(s, i) != 0,
    ensures
        seq_has_fill(s, i, digit_at(s, i)),
{
    let k = choose|k: int| 0 <= k < s.len() && (#[trigger] s[k]).position.index == i;
    assert(s[k].position.index == i && s[k].value == digit_at(s, i));
}

/// A well-formed board holds at most nine fills: their positions are
/// distinct cells of a nine-cell grid.
pub proof fn lemma_board_len_max(s: Seq<ValuedBoardPosition>)
    requires
        board_wf(s),
    ensures
        s.len() <= 9,
{
    let idxs = index_seq(s);
    assert forall|i: int, j: int|
        0 <= i < idxs.len() && 0 <= j < idxs.len() && i != j implies idxs[i] != idxs[j] by {
        assert(idxs[i] == s[i].position.index as int);
        assert(idxs[j] == s[j].position.index as int);
    }
    assert(idxs.no_duplicates());
    idxs.unique_seq_to_set();
    assert forall|x: int| idxs.to_set().contains(x) implies set_int_range(0, 9).contains(x) by {
        let k = choose|k: int| 0 <= k < idxs.len() && idxs[k] == x;
        assert(entry_ok(s[k]));
    }
    lemma_int_range(0, 9);
    lemma_len_subset(idxs.to_set(), set_int_range(0, 9));
}

/// A well-formed board that leaves some grid cell unfilled holds at most
/// eight fills.
pub proof fn lemma_board_missing_pos(s: Seq<ValuedBoardPosition>, i: int)
    requires
        board_wf(s),
        0 <= i < 9,
        !seq_contains_pos_index(s, i),
    ensures
        s.len() <= 8,
{
    let idxs = index_seq(s);
    assert forall|a: int, b: int|
        0 <= a < idxs.len() && 0 <= b < idxs.len() && a != b implies idxs[a] != idxs[b] by {
        assert(idxs[a] == s[a].position.index as int);
        assert(idxs[b] == s[b].position.index as int);
    }
    assert(idxs.no_duplicates());
    idxs.unique_seq_to_set();
    lemma_int_range(0, 9);
    let target = set_int_range(0, 9).remove(i);
    assert(target.len() == 8);
    assert forall|x: int| idxs.to_set().contains(x) implies target.contains(x) by {
        let k = choose|k: int| 0 <= k < idxs.len() && idxs[k] == x;
        assert(entry_ok(s[k]));
        assert(s[k].position.index != i);
    }
    lemma_len_subset(idxs.to_set(), target);
}

/// A well-formed board with every grid cell filled holds exactly nine fills.
pub proof fn lemma_board_full(s: Seq<ValuedBoardPosition>)
    requires
        board_wf(s),
        forall|j: int| 0 <= j < 9 ==> seq_contains_pos_index(s, j),
    ensures
        s.len() == 9,
{
    lemma_board_len_max(s);
    let idxs = index_seq(s);
    assert forall|a: int, b: int|
        0 <= a < idxs.len() && 0 <= b < idxs.len() && a != b implies idxs[a] != idxs[b] by {
        assert(idxs[a] == s[a].position.index as int);
        assert(idxs[b] == s[b].position.index as int);
    }
    assert(idxs.no_duplicates());
    idxs.unique_seq_to_set();
    assert forall|x: int| set_int_range(0, 9).contains(x) implies idxs.to_set().contains(x) by {
        assert(seq_contains_pos_index(s, x));
        let k = choose|k: int| 0 <= k < s.len() && (#[trigger] s[k]).position.index == x;
        assert(idxs[k] == x);
        assert(idxs.contains(x));
    }
    lemma_int_range(0, 9);
    lemma_len_subset(set_int_range(0, 9), idxs.to_set());
}

/// A full well-formed board has a fill on every grid cell.
pub proof fn lemma_full_board_contains(s: Seq<ValuedBoardPosition>, i: int)
    requires
        board_wf(s),
        s.len() == 9,
        0 <= i < 9,
    ensures
        seq_contains_pos_index(s, i),
{
    if !seq_contains_pos_index(s, i) {
        lemma_board_missing_pos(s, i);
        assert(false);
    }
}

/// On a well-formed board the digits form a set of exactly `len` distinct
/// integers drawn from 1..=9.
pub proof fn lemma_board_values_card(s: Seq<ValuedBoardPosition>)
    requires
        board_wf(s),
    ensures
        values_seq(s).to_set().len() == s.len(),
        values_seq(s).to_set().subset_of(set_int_range(1, 10)),
        values_seq(s).to_set().finite(),
{
    let vals = values_seq(s);
    assert forall|a: int, b: int|
        0 <= a < vals.len() && 0 <= b < vals.len() && a != b implies vals[a] != vals[b] by {
        assert(vals[a] == s[a].value as int);
        assert(vals[b] == s[b].value as int);
    }
    assert(vals.no_duplicates());
    vals.unique_seq_to_set();
    assert forall|x: int| vals.to_set().contains(x) implies set_int_range(1, 10).contains(x) by {
        let k = choose|k: int| 0 <= k < vals.len() && vals[k] == x;
        assert(entry_ok(s[k]));
    }
    lemma_int_range(1, 10);
    lemma_len_subset(vals.to_set(), set_int_range(1, 10));
}

/// A digit is on the board exactly when it is in the board's value set.
pub proof fn lemma_values_set_contains(s: Seq<ValuedBoardPosition>, d: u8)
    ensures
        seq_contains_value(s, d) <==> values_seq(s).to_set().contains(d as int),
{
    let vals = values_seq(s);
    if seq_contains_value(s, d) {
        let k = choose|k: int| 0 <= k < s.len() && (#[trigger] s[k]).value == d;
        assert(vals[k] == d as int);
        assert(vals.contains(d as int));
    }
    if vals.to_set().contains(d as int) {
        let k = choose|k: int| 0 <= k < vals.len() && vals[k] == d as int;
        assert(s[k].value == d);
    }
}

/// Law: once a digit has been placed by a successful fill, any further fill
/// with that digit fails with `ValueAlreadyContained`, whatever its
/// position, and leaves the board as it is.
pub proof fn lemma_fill_same_value_fails(
    b: Seq<ValuedBoardPosition>,
    v1: ValuedBoardPosition,
    b2: Seq<ValuedBoardPosition>,
    v2: ValuedBoardPosition,
)
    requires
        fill_spec(b, v1) == Result::<Seq<ValuedBoardPosition>, FillFailure>::Ok(b2),
        v2.value == v1.value,
    ensures
        fill_spec(b2, v2) == Result::<Seq<ValuedBoardPosition>, FillFailure>::Err(
            FillFailure::ValueAlreadyContained,
        ),
{
    assert(b2 == b.push(v1));
    assert(b2[b.len() as int] == v1);
    assert(seq_contains_value(b2, v2.value));
}

/// Law: once a position has been filled by a successful fill, any further
/// fill at that position with a digit not yet on the board fails with
/// `PositionAlreadyFilled` and leaves the board as it is.  (When the new
/// digit is itself already on the board, the digit conflict is reported
/// instead: the value check comes first.)
pub proof fn lemma_fill_same_position_fails(
    b: Seq<ValuedBoardPosition>,
    v1: ValuedBoardPosition,
    b2: Seq<ValuedBoardPosition>,
    v2: ValuedBoardPosition,
)
    requires
        fill_spec(b, v1) == Result::<Seq<ValuedBoardPosition>, FillFailure>::Ok(b2),
        v2.position.index == v1.position.index,
        !seq_contains_value(b2, v2.value),
    ensures
        fill_spec(b2, v2) == Result::<Seq<ValuedBoardPosition>, FillFailure>::Err(
            FillFailure::PositionAlreadyFilled,
        ),
{
    assert(b2 == b.push(v1));
    assert(b2[b.len() as int] == v1);
    assert(seq_contains_pos_index(b2, v2.position.index as int));
}

/// The current state of one puzzle: an unordered collection of at most nine
/// fills, each with a unique position and a unique digit.
#[derive(Debug)]
pub struct Board {
    fills: Vec<ValuedBoardPosition>,
}

impl View for Board {
    type V = Seq<ValuedBoardPosition>;

    closed spec fn view(&self) -> Seq<ValuedBoardPosition> {
        self.fills@
    }
}

impl Board {
    /// The board invariant; see [`board_wf`].
    pub open spec fn wf(&self) -> bool {
        board_wf(self@)
    }

    /// Remove every fill from the board.
    pub fn clear_fills(&mut self)
        ensures
            final(self)@ == Seq::<ValuedBoardPosition>::empty(),
            final(self).wf(),
    {
        self.fills.clear();
    }

    /// The number of filled cells.
    pub fn len(&self) -> (r: u8)
        requires
            self.wf(),
        ensures
            r == self@.len(),
    {
        proof {
            lemma_board_len_max(self@);
        }
        self.fills.len() as u8
    }

    /// The number of still-empty cells.
    pub fn remaining_capacity(&self) -> (r: u8)
        requires
            self.wf(),
        ensures
            r == 9 - self@.len(),
    {
        proof {
            lemma_board_len_max(self@);
        }
        BOARD_CAPACITY - self.len()
    }

    /// Whether all nine cells are filled.
    pub fn is_full(&self) -> (r: bool)
        requires
            self.wf(),
        ensures
            r == (self@.len() == 9),
    {
        self.len() == BOARD_CAPACITY
    }

    /// Whether the given digit is already placed somewhere on the board.
    pub fn contains_value(&self, v: u8) -> (r: bool)
        ensures
            r == seq_contains_value(self@, v),
    {
        let mut k: usize = 0;
        while k < self.fills.len()
            invariant
                k <= self@.len(),
                forall|m: int| 0 <= m < k ==> (#[trigger] self@[m]).value != v,
            decreases self@.len() - k,
        {
            if self.fills[k].value() == v {
                assert(self@[k as int].value == v);
                return true;
            }
            k = k + 1;
        }
        false
    }

    /// Whether the cell at the given position is already filled.  Positions
    /// are compared by their linear index.
    pub fn contains_position(&self, pos: BoardPosition) -> (r: bool)
        ensures
            r == seq_contains_pos_index(self@, pos.index as int),
    {
        let mut k: usize = 0;
        while k < self.fills.len()
            invariant
                k <= self@.len(),
                forall|m: int| 0 <= m < k ==> (#[trigger] self@[m]).position.index != pos.index,
            decreases self@.len() - k,
        {
            if self.fills[k].position().index() == pos.index() {
                assert(self@[k as int].position.index == pos.index);
                return true;
            }
            k = k + 1;
        }
        false
    }

    fn find_board_pos(&self, col: u8, row: u8) -> (r: Option<ValuedBoardPosition>)
        requires
            self.wf(),
            col <= MAX_POS,
            row <= MAX_POS,
        ensures
            match r {
                Some(v) => {
                    &&& seq_has_fill(self@, col + 3 * row, v.value)
                    &&& v.value == digit_at(self@, col + 3 * row)
                    &&& 1 <= v.value <= 9
                    &&& pos_valid(v.position)
                    &&& v.position.col == col
                    &&& v.position.row == row
                },
                None => !seq_contains_pos_index(self@, col + 3 * row),
            },
    {
        let mut k: usize = 0;
        while k < self.fills.len()
            invariant
                self.wf(),
                col <= MAX_POS,
                row <= MAX_POS,
                k <= self@.len(),
                forall|m: int|
                    0 <= m < k ==> !((#[trigger] self@[m]).position.col == col
                        && self@[m].position.row == row),
            decreases self@.len() - k,
        {
            let p = self.fills[k];
            if p.position().eq(col, row) {
                proof {
                    assert(entry_ok(self@[k as int]));
                    lemma_digit_at(self@, k as int);
                }
                return Some(p);
            }
            k = k + 1;
        }
        proof {
            if seq_contains_pos_index(self@, col + 3 * row) {
                let m = choose|m: int|
                    0 <= m < self@.len() && (#[trigger] self@[m]).position.index == col + 3 * row;
                assert(entry_ok(self@[m]));
                assert(false);
            }
        }
        None
    }

    fn compute_board_pos(&self, col: u8, row: u8) -> (r: ValuedBoardPosition)
        requires
            self.wf(),
            col <= MAX_POS,
            row <= MAX_POS,
        ensures
            pos_valid(r.position),
            r.position.col == col,
            r.position.row == row,
            r.value == digit_at(self@, col + 3 * row),
            r.value <= 9,
    {
        match self.find_board_pos(col, row) {
            Some(v) => v,
            None => ValuedBoardPosition::empty(BoardPosition::new(col, row)),
        }
    }

    /// The fill at the given position, when that cell is occupied.
    pub fn find(&self, pos: BoardPosition) -> (r: Option<ValuedBoardPosition>)
        requires
            self.wf(),
            pos_valid(pos),
        ensures
            match r {
                Some(v) => {
                    &&& seq_has_fill(self@, pos.index as int, v.value)
                    &&& v.value == digit_at(self@, pos.index as int)
                    &&& 1 <= v.value <= 9
                    &&& v.position == pos
                },
                None => !seq_contains_pos_index(self@, pos.index as int),
            },
    {
        self.find_board_pos(pos.col(), pos.row())
    }

    /// The scoring line of the given column: cells (idx, 0), (idx, 1),
    /// (idx, 2) in canonical order, empty cells holding digit 0.
    pub fn col(&self, idx: u8) -> (r: EndRow)
        requires
            self.wf(),
            idx <= MAX_POS,
        ensures
            r.wf(),
            r.items@.len() == 3,
            forall|k: int|
                0 <= k < 3 ==> (#[trigger] r.items@[k]).position.col == idx
                    && r.items@[k].position.row == k && pos_valid(r.items@[k].position),
            forall|k: int| 0 <= k < 3 ==> (#[trigger] r.items@[k]).value == digit_at(
                    self@,
                    idx + 3 * k,
                ),
    {
        EndRow::new(
            self.compute_board_pos(idx, 0),
            self.compute_board_pos(idx, 1),
            self.compute_board_pos(idx, 2),
        )
    }

    /// The scoring line of the given row: cells (0, idx), (1, idx), (2, idx)
    /// in canonical order, empty cells holding digit 0.
    pub fn row(&self, idx: u8) -> (r: EndRow)
        requires
            self.wf(),
            idx <= MAX_POS,
        ensures
            r.wf(),
            r.items@.len() == 3,
            forall|k: int|
                0 <= k < 3 ==> (#[trigger] r.items@[k]).position.row == idx
                    && r.items@[k].position.col == k && pos_valid(r.items@[k].position),
            forall|k: int| 0 <= k < 3 ==> (#[trigger] r.items@[k]).value == digit_at(
                    self@,
                    k + 3 * idx,
                ),
    {
        EndRow::new(
            self.compute_board_pos(0, idx),
            self.compute_board_pos(1, idx),
            self.compute_board_pos(2, idx),
        )
    }

    /// The diagonal from the top-left corner to the bottom-right corner.
    pub fn diag_tl_br(&self) -> (r: EndRow)
        requires
            self.wf(),
        ensures
            r.wf(),
            r.items@.len() == 3,
            forall|k: int|
                0 <= k < 3 ==> (#[trigger] r.items@[k]).position.col == k
                    && r.items@[k].position.row == k && pos_valid(r.items@[k].position),
            forall|k: int| 0 <= k < 3 ==> (#[trigger] r.items@[k]).value == digit_at(
                    self@,
                    4 * k,
                ),
    {
        EndRow::new(
            self.compute_board_pos(0, 0),
            self.compute_board_pos(1, 1),
            self.compute_board_pos(2, 2),
        )
    }

    /// The diagonal from the bottom-left corner to the top-right corner.
    pub fn diag_bl_tr(&self) -> (r: EndRow)
        requires
            self.wf(),
        ensures
            r.wf(),
            r.items@.len() == 3,
            forall|k: int|
                0 <= k < 3 ==> (#[trigger] r.items@[k]).position.col == k
                    && r.items@[k].position.row == 2 - k && pos_valid(r.items@[k].position),
            forall|k: int| 0 <= k < 3 ==> (#[trigger] r.items@[k]).value == digit_at(
                    self@,
                    6 - 2 * k,
                ),
    {
        EndRow::new(
            self.compute_board_pos(0, 2),
            self.compute_board_pos(1, 1),
            self.compute_board_pos(2, 0),
        )
    }

    /// Place a digit on the board.  Fails with `ValueAlreadyContained` when
    /// the digit is already present anywhere (checked first), or with
    /// `PositionAlreadyFilled` when the position is occupied; the board is
    /// unchanged on failure.
    pub fn fill(&mut self, pos: ValuedBoardPosition) -> (r: Result<(), FillFailure>)
        requires
            old(self).wf(),
            1 <= pos.value <= 9,
            pos_valid(pos.position),
        ensures
            final(self).wf(),
            match fill_spec(old(self)@, pos) {
                Result::Ok(s2) => r == Result::<(), FillFailure>::Ok(()) && final(self)@ == s2,
                Result::Err(e) => r == Result::<(), FillFailure>::Err(e) && final(self)@ == old(
                    self,
                )@,
            },
    {
        if self.contains_value(pos.value()) {
            return Err(FillFailure::ValueAlreadyContained);
        } else if self.contains_position(pos.position()) {
            return Err(FillFailure::PositionAlreadyFilled);
        }

        self.fills.push(pos);

        Ok(())
    }

    /// The digits 1..=9 not yet on the board, in ascending order.  There are
    /// always exactly `9 - len` of them.
    pub fn available_selections(&self) -> (r: Vec<u8>)
        requires
            self.wf(),
        ensures
            r@.len() == 9 - self@.len(),
            forall|i: int|
                0 <= i < r@.len() ==> 1 <= #[trigger] r@[i] <= 9 && !seq_contains_value(
                    self@,
                    r@[i],
                ),
            forall|d: u8| 1 <= d <= 9 && !seq_contains_value(self@, d) ==> r@.contains(d),
            forall|i: int, j: int| 0 <= i < j < r@.len() ==> r@[i] < r@[j],
    {
        proof {
            lemma_board_len_max(self@);
            lemma_board_values_card(self@);
        }
        let ghost vals: Set<int> = values_seq(self@).to_set();
        let mut out: Vec<u8> = Vec::new();
        let mut d: u8 = 1;
        proof {
            assert(vals.intersect(set_int_range(1, 1)) =~= Set::<int>::empty());
        }
        while d < 10
            invariant
                self.wf(),
                1 <= d <= 10,
                vals == values_seq(self@).to_set(),
                vals.len() == self@.len(),
                vals.subset_of(set_int_range(1, 10)),
                vals.finite(),
                out@.len() + vals.intersect(set_int_range(1, d as int)).len() == d - 1,
                forall|i: int|
                    0 <= i < out@.len() ==> 1 <= #[trigger] out@[i] < d && !seq_contains_value(
                        self@,
                        out@[i],
                    ),
                forall|x: u8| 1 <= x < d && !seq_contains_value(self@, x) ==> out@.contains(x),
                forall|i: int, j: int| 0 <= i < j < out@.len() ==> out@[i] < out@[j],
            decreases 10 - d,
        {
            let ghost pre = vals.intersect(set_int_range(1, d as int));
            let ghost post = vals.intersect(set_int_range(1, d as int + 1));
            let ghost old_out = out@;
            if !self.contains_value(d) {
                out.push(d);
                proof {
                    lemma_values_set_contains(self@, d);
                    assert(!vals.contains(d as int));
                    assert(post =~= pre);
                    assert forall|x: u8|
                        1 <= x < d + 1 && !seq_contains_value(self@, x) implies out@.contains(
                        x,
                    ) by {
                        if x < d {
                            let i = choose|i: int| 0 <= i < old_out.len() && old_out[i] == x;
                            assert(out@[i] == x);
                        } else {
                            assert(out@[out@.len() - 1] == x);
                        }
                    }
                }
            } else {
                proof {
                    lemma_values_set_contains(self@, d);
                    assert(vals.contains(d as int));
                    assert(post =~= pre.insert(d as int));
                    lemma_len_subset(pre, vals);
                    assert(!pre.contains(d as int));
                    assert(post.len() == pre.len() + 1);
                }
            }
            d = d + 1;
        }
        proof {
            assert(vals.intersect(set_int_range(1, 10)) =~= vals);
        }
        out
    }
}

impl Default for Board {
    /// An empty board.
    fn default() -> (r: Self)
        ensures
            r@ == Seq::<ValuedBoardPosition>::empty(),
            r.wf(),
    {
        Self { fills: Vec::with_capacity(BOARD_CAPACITY as usize) }
    }
}

impl Clone for Board {
    /// An identical copy of the board.
    fn clone(&self) -> (r: Self)
        ensures
            r@ == self@,
    {
        let mut fills: Vec<ValuedBoardPosition> = Vec::with_capacity(self.fills.len());
        let mut k: usize = 0;
        while k < self.fills.len()
            invariant
                k <= self.fills@.len(),
                fills@ == self.fills@.take(k as int),
            decreases self.fills@.len() - k,
        {
            fills.push(self.fills[k]);
            proof {
                assert(fills@ =~= self.fills@.take(k as int + 1));
            }
            k = k + 1;
        }
        proof {
            assert(fills@ =~= self.fills@);
        }
        Self { fills }
    }
}

} // verus!
