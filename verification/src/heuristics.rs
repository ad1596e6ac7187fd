//! The tuning knobs of the search.

use vstd::prelude::*;

verus! {

/// How many times a target pays for itself when it is in hand rather than
/// merely reachable.
pub const BIRD_IN_HAND_MULTIPLIER: i64 = 2;

/// The weight of an aggressive path of length `aggr_len`: one and a half
/// times its length.
pub fn path_aggr_weight(aggr_len: usize) -> (w: usize)
    requires
        aggr_len * 3 <= usize::MAX,
    ensures
        w == aggr_len * 3 / 2,
{
    aggr_len * 3 / 2
}

/// How many targets the search tries at each node.
pub fn branch_factor() -> (b: usize)
    ensures
        b == 5,
{
    5
}

/// For the searcher's granularity: how much to trim the average path
/// length (to two thirds).
pub fn chunking_avg_path_multiplier(avg_len: usize) -> (m: usize)
    requires
        avg_len * 2 <= usize::MAX,
    ensures
        m == avg_len * 2 / 3,
{
    avg_len * 2 / 3
}

/// The score fell severely: the new score is below six tenths of the old.
pub fn eval_severe_dropoff(old_score: i64, new_score: i64) -> (b: bool)
    requires
        i64::MIN <= old_score * 6 <= i64::MAX,
        i64::MIN <= new_score * 10 <= i64::MAX,
    ensures
        b == (old_score * 6 > new_score * 10),
{
    old_score * 6 > new_score * 10
}

} // verus!
