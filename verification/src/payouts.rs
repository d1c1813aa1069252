use vstd::prelude::*;

verus! {

/// The fixed payout table: the reward for a line whose three digits sum to
/// `points`.  Sums 0 through 5 cannot occur on a fully revealed line and pay
/// nothing; sums above 24 are outside the table's domain and pay nothing.
///
/// Kept opaque so that the 25-entry table is unfolded only where a concrete
/// entry matters; [`payout_for_points`] is its executable counterpart.
#[verifier::opaque]
pub open spec fn payout_spec(points: int) -> u16 {
    if points == 6 {
        10000
    } else if points == 7 {
        36
    } else if points == 8 {
        720
    } else if points == 9 {
        360
    } else if points == 10 {
        80
    } else if points == 11 {
        252
    } else if points == 12 {
        108
    } else if points == 13 {
        72
    } else if points == 14 {
        54
    } else if points == 15 {
        180
    } else if points == 16 {
        72
    } else if points == 17 {
        180
    } else if points == 18 {
        119
    } else if points == 19 {
        36
    } else if points == 20 {
        306
    } else if points == 21 {
        1080
    } else if points == 22 {
        144
    } else if points == 23 {
        1800
    } else if points == 24 {
        3600
    } else {
        0
    }
}

/// No entry of the payout table exceeds 10000.
pub proof fn lemma_payout_bounded(points: int)
    ensures
        payout_spec(points) <= 10000,
{
    reveal(payout_spec);
}

/// Look up the payout for a line point-sum.  Every sum in 0..=24 maps to its
/// table entry; every sum above 24 maps to 0.
pub fn payout_for_points(points: u8) -> (r: u16)
    ensures
        r == payout_spec(points as int),
        points > 24 ==> r == 0,
{
    proof {
        reveal(payout_spec);
    }
    if points == 6 {
        10000
    } else if points == 7 {
        36
    } else if points == 8 {
        720
    } else if points == 9 {
        360
    } else if points == 10 {
        80
    } else if points == 11 {
        252
    } else if points == 12 {
        108
    } else if points == 13 {
        72
    } else if points == 14 {
        54
    } else if points == 15 {
        180
    } else if points == 16 {
        72
    } else if points == 17 {
        180
    } else if points == 18 {
        119
    } else if points == 19 {
        36
    } else if points == 20 {
        306
    } else if points == 21 {
        1080
    } else if points == 22 {
        144
    } else if points == 23 {
        1800
    } else if points == 24 {
        3600
    } else {
        0
    }
}

} // verus!
