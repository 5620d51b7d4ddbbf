//! Scored candidates and the strict total order the heaps rank them by.

use vstd::prelude::*;

verus! {

/// A candidate admitted to the ranking: its position in the candidate
/// stream, paired with the total-order key of its score under the chosen
/// metric.
///
/// The key's `<` order must agree with the numeric order of the scores it
/// encodes; scores are never NaN, so such an encoding always exists and is
/// the caller's to choose.
#[derive(Clone, Copy, PartialEq, Eq, Structural, Debug)]
pub struct ScoredCandidate {
    /// Position of the candidate in the candidate stream.
    pub candidate: usize,
    /// Order key of the candidate's score.
    pub score: u64,
}

/// Score `a` is strictly better than score `b` for the given direction:
/// larger wins when keeping the largest, smaller wins when keeping the
/// smallest.
pub open spec fn strictly_better(keep_largest: bool, a: u64, b: u64) -> bool {
    if keep_largest {
        a > b
    } else {
        a < b
    }
}

/// Score `a` is at least as good as score `b` for the given direction.
pub open spec fn no_worse(keep_largest: bool, a: u64, b: u64) -> bool {
    !strictly_better(keep_largest, b, a)
}

/// The sequence is ordered best-first for the given direction: scores are
/// non-increasing when keeping the largest, non-decreasing when keeping
/// the smallest.
pub open spec fn sorted_best_first(keep_largest: bool, s: Seq<ScoredCandidate>) -> bool {
    forall|i: int, j: int|
        0 <= i < j < s.len() ==> no_worse(keep_largest, s[i].score, s[j].score)
}

/// Runtime test of `strictly_better`.
pub fn beats(keep_largest: bool, a: u64, b: u64) -> (r: bool)
    ensures
        r == strictly_better(keep_largest, a, b),
{
    if keep_largest {
        a > b
    } else {
        a < b
    }
}

} // verus!
