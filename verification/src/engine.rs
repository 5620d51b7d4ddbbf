//! The selection engine: validate the stream, score-rank every candidate
//! through a bounded heap, and drain the best K in order.

use vstd::prelude::*;
use vstd::multiset::Multiset;
use crate::algorithm::{Algorithm, selector_algorithm};
use crate::errors::SearchError;
use crate::heap::{lemma_offer_retains_best, lemma_insert_at_point, lemma_insertion_point, offer, retains_best};
use crate::order::{ScoredCandidate, no_worse, sorted_best_first};

verus! {

broadcast use vstd::seq_lib::group_to_multiset_ensures, vstd::multiset::group_multiset_axioms, vstd::set::group_set_axioms;

/// The largest capacity a heap may be asked for: the backing storage
/// holds sixteen-byte entries, and its size in bytes must stay within
/// the allocator's limit of half the address space.
pub const MAX_HEAP_CAPACITY: usize = usize::MAX / 32;

/// What the selection rules read of a vector: its length, and whether
/// its Euclidean magnitude is exactly zero.
#[derive(Clone, Copy, PartialEq, Eq, Structural, Debug)]
pub struct VectorProfile {
    /// Number of components.
    pub dim: usize,
    /// Whether the Euclidean magnitude is exactly zero.
    pub zero_magnitude: bool,
}

/// One candidate as the engine sees it: its vector's profile, and the
/// order key of its score against the query under the chosen metric.
#[derive(Clone, Copy, PartialEq, Eq, Structural, Debug)]
pub struct CandidateScore {
    /// The candidate vector's profile.
    pub profile: VectorProfile,
    /// Order key of the metric value against the query. It is read only
    /// when the candidate is admissible.
    pub score: u64,
}

/// The metric can score this candidate against the query: the lengths
/// match, and cosine similarity is not asked of a zero-magnitude vector
/// on either side.
pub open spec fn cand_admissible(
    query: VectorProfile,
    cand: CandidateScore,
    algorithm: Algorithm,
) -> bool {
    &&& cand.profile.dim == query.dim
    &&& !(algorithm is Cosine && (query.zero_magnitude || cand.profile.zero_magnitude))
}

/// Every candidate in the stream is admissible.
pub open spec fn all_admissible(
    query: VectorProfile,
    cands: Seq<CandidateScore>,
    algorithm: Algorithm,
) -> bool {
    forall|i: int| 0 <= i < cands.len() ==> cand_admissible(query, cands[i], algorithm)
}

/// The error an inadmissible candidate is reported with: a length
/// mismatch before anything else, an undefined cosine result otherwise.
pub open spec fn cand_error(query: VectorProfile, cand: CandidateScore) -> SearchError {
    if cand.profile.dim != query.dim {
        SearchError::DimensionMismatch
    } else {
        SearchError::UndefinedMetricResult
    }
}

/// The position of the first inadmissible candidate, or the stream
/// length when every candidate is admissible.
pub open spec fn first_inadmissible(
    query: VectorProfile,
    cands: Seq<CandidateScore>,
    algorithm: Algorithm,
) -> int
    decreases cands.len(),
{
    if cands.len() == 0 {
        0
    } else if !cand_admissible(query, cands[0], algorithm) {
        0
    } else {
        1 + first_inadmissible(query, cands.drop_first(), algorithm)
    }
}

/// The heap entry the candidate at position `i` enters the ranking as.
pub open spec fn entry_of(cands: Seq<CandidateScore>, i: int) -> ScoredCandidate {
    ScoredCandidate { candidate: i as usize, score: cands[i].score }
}

/// The entries of the first `n` candidates, in stream order.
pub open spec fn entry_seq(cands: Seq<CandidateScore>, n: int) -> Seq<ScoredCandidate> {
    Seq::new(n as nat, |i: int| entry_of(cands, i))
}

/// The retained entries after the first `n` candidates were offered in
/// stream order to a bounded best-first sequence of capacity `cap`.
pub open spec fn offer_all(
    keep_largest: bool,
    cands: Seq<CandidateScore>,
    n: int,
    cap: nat,
) -> Seq<ScoredCandidate>
    decreases n,
{
    if n <= 0 {
        Seq::empty()
    } else {
        offer(keep_largest, offer_all(keep_largest, cands, n - 1, cap), entry_of(cands, n - 1), cap)
    }
}

/// Some returned entry is for the candidate at position `c`.
pub open spec fn includes_candidate(r: Seq<ScoredCandidate>, c: int) -> bool {
    exists|j: int| 0 <= j < r.len() && r[j].candidate == c
}

/// What a correct top-k answer looks like: genuine entries carrying
/// their own candidates' scores, no candidate twice, ordered best-first,
/// of length `k` as soon as that many candidates exist, and no excluded
/// candidate scoring better than any included one.
pub open spec fn top_k_result(
    cands: Seq<CandidateScore>,
    keep_largest: bool,
    k: nat,
    r: Seq<ScoredCandidate>,
) -> bool {
    &&& r.len() == if cands.len() < k {
        cands.len() as int
    } else {
        k as int
    }
    &&& sorted_best_first(keep_largest, r)
    &&& forall|i: int|
        0 <= i < r.len() ==> (#[trigger] r[i]).candidate < cands.len() && r[i].score == cands[r[i].candidate as int].score
    &&& forall|i: int, j: int|
        0 <= i < j < r.len() ==> (#[trigger] r[i]).candidate != (#[trigger] r[j]).candidate
    &&& forall|c: int, i: int|
        #![trigger r[i].score, cands[c].score]
        0 <= c < cands.len() && 0 <= i < r.len() && !includes_candidate(r, c) ==> no_worse(
            keep_largest,
            r[i].score,
            cands[c].score,
        )
}

/// The answer a selection call owes for its inputs: the capacity bound
/// is checked first, then candidates are validated in stream order, and
/// for an admissible stream the bounded best-first contents after every
/// candidate was offered.
pub open spec fn selection_outcome(
    query: VectorProfile,
    cands: Seq<CandidateScore>,
    algorithm: Algorithm,
    k: usize,
) -> Result<Seq<ScoredCandidate>, SearchError> {
    if k > MAX_HEAP_CAPACITY {
        Err(SearchError::InvalidCapacity)
    } else if first_inadmissible(query, cands, algorithm) < cands.len() {
        Err(cand_error(query, cands[first_inadmissible(query, cands, algorithm)]))
    } else {
        Ok(offer_all(algorithm.keep_largest(), cands, cands.len() as int, k as nat))
    }
}

/// The first inadmissible position is in range, everything before it is
/// admissible, and the candidate at it (if any) is not.
pub proof fn lemma_first_inadmissible(
    query: VectorProfile,
    cands: Seq<CandidateScore>,
    algorithm: Algorithm,
)
    ensures
        0 <= first_inadmissible(query, cands, algorithm) <= cands.len(),
        forall|i: int|
            0 <= i < first_inadmissible(query, cands, algorithm) ==> cand_admissible(
                query,
                cands[i],
                algorithm,
            ),
        first_inadmissible(query, cands, algorithm) < cands.len() ==> !cand_admissible(
            query,
            cands[first_inadmissible(query, cands, algorithm)],
            algorithm,
        ),
    decreases cands.len(),
{
    let p = first_inadmissible(query, cands, algorithm);
    if cands.len() > 0 && cand_admissible(query, cands[0], algorithm) {
        lemma_first_inadmissible(query, cands.drop_first(), algorithm);
        assert forall|i: int| 0 <= i < p implies cand_admissible(query, cands[i], algorithm) by {
            if i > 0 {
                assert(cands.drop_first()[i - 1] == cands[i]);
            }
        }
        if p < cands.len() {
            assert(cands.drop_first()[p - 1] == cands[p]);
        }
    }
}

/// Any position with the first inadmissible position's characteristic
/// properties is that position.
pub proof fn lemma_first_inadmissible_unique(
    query: VectorProfile,
    cands: Seq<CandidateScore>,
    algorithm: Algorithm,
    p: int,
)
    requires
        0 <= p <= cands.len(),
        forall|i: int| 0 <= i < p ==> cand_admissible(query, cands[i], algorithm),
        p < cands.len() ==> !cand_admissible(query, cands[p], algorithm),
    ensures
        p == first_inadmissible(query, cands, algorithm),
{
    lemma_first_inadmissible(query, cands, algorithm);
    let q = first_inadmissible(query, cands, algorithm);
    if p < q {
        assert(cand_admissible(query, cands[p], algorithm));
    }
    if p > q {
        assert(cand_admissible(query, cands[q], algorithm));
    }
}

/// Law: after the first `n` candidates were offered, the bounded
/// best-first sequence is sorted, within capacity, and holds exactly the
/// best `cap` of their entries.
pub proof fn lemma_offer_all_retains_best(
    keep_largest: bool,
    cands: Seq<CandidateScore>,
    n: int,
    cap: nat,
)
    requires
        0 <= n <= cands.len(),
    ensures
        sorted_best_first(keep_largest, offer_all(keep_largest, cands, n, cap)),
        offer_all(keep_largest, cands, n, cap).len() <= cap,
        retains_best(
            keep_largest,
            offer_all(keep_largest, cands, n, cap),
            entry_seq(cands, n).to_multiset(),
            cap,
        ),
    decreases n,
{
    if n <= 0 {
        assert(entry_seq(cands, 0) =~= Seq::<ScoredCandidate>::empty());
        assert forall|v: ScoredCandidate| entry_seq(cands, 0).to_multiset().count(v) == 0 by {
            assert(entry_seq(cands, 0).to_multiset().len() == 0);
        }
        assert(entry_seq(cands, 0).to_multiset() =~= Multiset::<ScoredCandidate>::empty());
    } else {
        lemma_offer_all_retains_best(keep_largest, cands, n - 1, cap);
        let prev = offer_all(keep_largest, cands, n - 1, cap);
        let x = entry_of(cands, n - 1);
        lemma_offer_retains_best(keep_largest, prev, entry_seq(cands, n - 1).to_multiset(), x, cap);
        lemma_insertion_point(keep_largest, prev, x);
        lemma_insert_at_point(keep_largest, prev, x);
        let grown = prev.insert(crate::heap::insertion_point(keep_largest, prev, x), x);
        assert(sorted_best_first(keep_largest, grown));
        if grown.len() > cap {
            assert forall|i: int, j: int| 0 <= i < j < grown.drop_last().len() implies no_worse(
                keep_largest,
                grown.drop_last()[i].score,
                grown.drop_last()[j].score,
            ) by {
                assert(grown.drop_last()[i] == grown[i]);
                assert(grown.drop_last()[j] == grown[j]);
            }
        }
        assert(entry_seq(cands, n) =~= entry_seq(cands, n - 1).push(x));
        assert(entry_seq(cands, n).to_multiset() == entry_seq(cands, n - 1).to_multiset().insert(
            x,
        ));
    }
}

/// The entries of distinct candidates are distinct.
proof fn lemma_entry_seq_no_duplicates(cands: Seq<CandidateScore>, n: int)
    requires
        0 <= n <= usize::MAX,
    ensures
        entry_seq(cands, n).no_duplicates(),
{
    let e = entry_seq(cands, n);
    assert forall|i: int, j: int| 0 <= i < e.len() && 0 <= j < e.len() && i != j implies e[i]
        != e[j] by {
        assert(e[i].candidate == i as usize);
        assert(e[j].candidate == j as usize);
    }
}

/// Law: a sorted sequence that retains the best `k` of every candidate's
/// entry is a correct top-k answer.
pub proof fn lemma_retains_best_top_k(
    cands: Seq<CandidateScore>,
    keep_largest: bool,
    k: nat,
    r: Seq<ScoredCandidate>,
)
    requires
        cands.len() <= usize::MAX,
        sorted_best_first(keep_largest, r),
        retains_best(keep_largest, r, entry_seq(cands, cands.len() as int).to_multiset(), k),
    ensures
        top_k_result(cands, keep_largest, k, r),
{
    let n = cands.len() as int;
    let entries = entry_seq(cands, n);
    let offered = entries.to_multiset();
    assert(offered.len() == entries.len());
    lemma_entry_seq_no_duplicates(cands, n);
    entries.lemma_multiset_has_no_duplicates();
    // Every returned entry is a candidate's own entry.
    assert forall|i: int| 0 <= i < r.len() implies (#[trigger] r[i]).candidate < cands.len()
        && r[i].score == cands[r[i].candidate as int].score by {
        let y = r[i];
        assert(r.contains(y));
        assert(r.to_multiset().count(y) > 0);
        assert(offered.count(y) > 0);
        assert(entries.contains(y));
        let j = choose|j: int| 0 <= j < entries.len() && entries[j] == y;
        assert(entries[j] == entry_of(cands, j));
        assert(y.candidate == j as usize);
    }
    // No candidate is returned twice.
    assert forall|i: int, j: int| 0 <= i < j < r.len() implies (#[trigger] r[i]).candidate != (
    #[trigger] r[j]).candidate by {
        if r[i].candidate == r[j].candidate {
            assert(r[i].score == cands[r[i].candidate as int].score);
            assert(r[j].score == cands[r[j].candidate as int].score);
            assert(r[i] == r[j]);
            assert(r.remove(i).to_multiset() == r.to_multiset().remove(r[i]));
            assert(r.remove(i)[j - 1] == r[j]);
            assert(r.remove(i).contains(r[j]));
            assert(r.remove(i).to_multiset().count(r[j]) > 0);
            assert(r.to_multiset().count(r[i]) >= 2);
            assert(entries.to_multiset().contains(r[i]));
            assert(offered.count(r[i]) == 1);
        }
    }
    // Nothing excluded beats anything included.
    assert forall|c: int, i: int|
        0 <= c < cands.len() && 0 <= i < r.len() && !includes_candidate(r, c) implies no_worse(
        keep_largest,
        r[i].score,
        cands[c].score,
    ) by {
        let e = entry_of(cands, c);
        assert(entries[c] == e);
        assert(entries.contains(e));
        assert(offered.count(e) > 0);
        if r.to_multiset().count(e) > 0 {
            assert(r.contains(e));
            let j = choose|j: int| 0 <= j < r.len() && r[j] == e;
            assert(r[j].candidate == c);
            assert(includes_candidate(r, c));
        }
        assert(r.to_multiset().count(e) == 0);
        assert(offered.sub(r.to_multiset()).count(e) > 0);
        assert(no_worse(keep_largest, r[i].score, e.score));
    }
}



/// Law: a capacity that covers the whole stream excludes nobody — a
/// top-k answer with `k` at least the number of candidates includes
/// every candidate.
pub proof fn lemma_covering_capacity_includes_all(
    cands: Seq<CandidateScore>,
    keep_largest: bool,
    k: nat,
    r: Seq<ScoredCandidate>,
)
    requires
        top_k_result(cands, keep_largest, k, r),
        k >= cands.len(),
    ensures
        forall|c: int| 0 <= c < cands.len() ==> includes_candidate(r, c),
{
    let n = cands.len() as int;
    assert(r.len() == n);
    let cs = r.map_values(|e: ScoredCandidate| e.candidate as int);
    assert(cs.len() == n);
    assert forall|c: int| 0 <= c < n implies includes_candidate(r, c) by {
        if !includes_candidate(r, c) {
            assert(cs.no_duplicates()) by {
                assert forall|i: int, j: int|
                    0 <= i < cs.len() && 0 <= j < cs.len() && i != j implies cs[i] != cs[j] by {
                    assert(cs[i] == r[i].candidate as int);
                    assert(cs[j] == r[j].candidate as int);
                }
            }
            cs.unique_seq_to_set();
            let range = vstd::set_lib::set_int_range(0, n).remove(c);
            vstd::set_lib::lemma_int_range(0, n);
            assert(vstd::set_lib::set_int_range(0, n).contains(c));
            assert(range.len() == n - 1);
            assert forall|v: int| cs.to_set().contains(v) implies range.contains(v) by {
                assert(cs.contains(v));
                let i = choose|i: int| 0 <= i < cs.len() && cs[i] == v;
                assert(cs[i] == r[i].candidate as int);
                assert(r[i].candidate < cands.len());
                if v == c {
                    assert(r[i].candidate == c);
                    assert(includes_candidate(r, c));
                }
            }
            vstd::set_lib::lemma_len_subset(cs.to_set(), range);
        }
    }
}

/// The mathematical value a selection call hands back.
pub open spec fn view_result(r: Result<Vec<ScoredCandidate>, SearchError>) -> Result<
    Seq<ScoredCandidate>,
    SearchError,
> {
    match r {
        Ok(v) => Ok(v@),
        Err(e) => Err(e),
    }
}

/// Law: the answer is a function of the inputs alone. Two results that
/// both meet the selection contract for the same query, candidates,
/// metric and capacity are equal — rerunning a selection returns the
/// same candidates with the same scores in the same order, and the same
/// error on the same bad input.
pub proof fn lemma_selection_deterministic(
    query: VectorProfile,
    cands: Seq<CandidateScore>,
    algorithm: Algorithm,
    k: usize,
    r1: Result<Seq<ScoredCandidate>, SearchError>,
    r2: Result<Seq<ScoredCandidate>, SearchError>,
)
    requires
        r1 == selection_outcome(query, cands, algorithm, k),
        r2 == selection_outcome(query, cands, algorithm, k),
    ensures
        r1 == r2,
{
}

/// Rank every candidate against the query under the chosen metric and
/// return the best `n` of them, ordered best-first.
///
/// The whole call fails on the first candidate the metric cannot score
/// (a dimension mismatch, or cosine similarity of a zero-magnitude
/// vector): a partial ranking is never returned. `n == 0` is answered
/// with an empty ranking, still only after every candidate was
/// validated.
pub fn find_similar_n(
    query: &VectorProfile,
    candidates: &Vec<CandidateScore>,
    algorithm: &Algorithm,
    n: usize,
) -> (r: Result<Vec<ScoredCandidate>, SearchError>)
    ensures
        view_result(r) == selection_outcome(*query, candidates@, *algorithm, n),
        r is Ok <==> n <= MAX_HEAP_CAPACITY && all_admissible(*query, candidates@, *algorithm),
        r is Ok ==> top_k_result(candidates@, algorithm.keep_largest(), n as nat, r->Ok_0@),
{
    if n > MAX_HEAP_CAPACITY {
        return Err(SearchError::InvalidCapacity);
    }
    let mut heap = algorithm.init_heap(n);
    let mut idx: usize = 0;
    while idx < candidates.len()
        invariant
            idx <= candidates@.len(),
            n <= MAX_HEAP_CAPACITY,
            heap.wf(),
            heap.capacity() == n,
            heap.keep_largest() == algorithm.keep_largest(),
            heap.contents() == offer_all(
                algorithm.keep_largest(),
                candidates@,
                idx as int,
                n as nat,
            ),
            forall|i: int| 0 <= i < idx ==> cand_admissible(*query, candidates@[i], *algorithm),
        decreases candidates@.len() - idx,
    {
        let c = candidates[idx];
        if c.profile.dim != query.dim {
            proof {
                assert(!cand_admissible(*query, candidates@[idx as int], *algorithm));
                lemma_first_inadmissible_unique(*query, candidates@, *algorithm, idx as int);
            }
            return Err(SearchError::DimensionMismatch);
        }
        if *algorithm == Algorithm::Cosine && (query.zero_magnitude || c.profile.zero_magnitude) {
            proof {
                assert(!cand_admissible(*query, candidates@[idx as int], *algorithm));
                lemma_first_inadmissible_unique(*query, candidates@, *algorithm, idx as int);
            }
            return Err(SearchError::UndefinedMetricResult);
        }
        heap.push(ScoredCandidate { candidate: idx, score: c.score });
        idx += 1;
    }
    let out = heap.output();
    proof {
        lemma_first_inadmissible_unique(
            *query,
            candidates@,
            *algorithm,
            candidates@.len() as int,
        );
        lemma_offer_all_retains_best(
            algorithm.keep_largest(),
            candidates@,
            candidates@.len() as int,
            n as nat,
        );
        lemma_retains_best_top_k(candidates@, algorithm.keep_largest(), n as nat, out@);
    }
    Ok(out)
}

/// The caller surface: resolve a metric selector, then rank.
///
/// An unrecognized selector is rejected at entry, before any scanning; a
/// capacity beyond the heap's bound is rejected before scanning; then
/// the candidates are scored in a single pass as `find_similar_n` does.
pub fn find_top_k(
    query: &VectorProfile,
    candidates: &Vec<CandidateScore>,
    metric: &str,
    k: usize,
) -> (r: Result<Vec<ScoredCandidate>, SearchError>)
    ensures
        view_result(r) == match selector_algorithm(metric@) {
            Some(algorithm) => selection_outcome(*query, candidates@, algorithm, k),
            None => Err::<Seq<ScoredCandidate>, SearchError>(SearchError::InvalidMetricSelector),
        },
        selector_algorithm(metric@) matches Some(algorithm) ==> ((r is Ok <==> k
            <= MAX_HEAP_CAPACITY && all_admissible(*query, candidates@, algorithm)) && (r is Ok
            ==> top_k_result(candidates@, algorithm.keep_largest(), k as nat, r->Ok_0@))),
        selector_algorithm(metric@) is None ==> r == Err::<Vec<ScoredCandidate>, SearchError>(
            SearchError::InvalidMetricSelector,
        ),
{
    match Algorithm::from_selector(metric) {
        Ok(algorithm) => find_similar_n(query, candidates, &algorithm, k),
        Err(e) => Err(e),
    }
}

} // verus!
