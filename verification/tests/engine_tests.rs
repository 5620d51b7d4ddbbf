use k_nearest::algorithm::Algorithm;
use k_nearest::engine::{find_similar_n, find_top_k, CandidateScore, VectorProfile, MAX_HEAP_CAPACITY};
use k_nearest::errors::SearchError;
use k_nearest::order::ScoredCandidate;

/// Order-preserving key of a non-NaN score: flips the sign bit for
/// non-negative floats and every bit for negative ones, so that `<` on
/// keys agrees with `<` on scores.
fn score_key(x: f64) -> u64 {
    let bits = x.to_bits();
    if bits & 0x8000_0000_0000_0000 != 0 {
        !bits
    } else {
        bits | 0x8000_0000_0000_0000
    }
}

fn dot(a: &[f64], b: &[f64]) -> f64 {
    a.iter().zip(b.iter()).map(|(x, y)| x * y).sum()
}

fn magnitude(v: &[f64]) -> f64 {
    dot(v, v).sqrt()
}

fn euclidean(a: &[f64], b: &[f64]) -> f64 {
    a.iter().zip(b.iter()).map(|(x, y)| (x - y) * (x - y)).sum::<f64>().sqrt()
}

fn cosine(a: &[f64], b: &[f64]) -> f64 {
    dot(a, b) / (magnitude(a) * magnitude(b))
}

fn profile(v: &[f64]) -> VectorProfile {
    VectorProfile { dim: v.len(), zero_magnitude: magnitude(v) == 0.0 }
}

/// Score one candidate against the query as the surrounding program
/// would: the raw metric where it is defined, a placeholder key where
/// the engine will reject the candidate anyway.
fn scored(query: &[f64], cand: &[f64], metric: &str) -> CandidateScore {
    let defined = cand.len() == query.len()
        && !(metric == "cosine_similarity" && (magnitude(query) == 0.0 || magnitude(cand) == 0.0));
    let raw = if !defined {
        0.0
    } else if metric == "dot_product" {
        dot(query, cand)
    } else if metric == "euclidean_distance" {
        euclidean(query, cand)
    } else {
        cosine(query, cand)
    };
    CandidateScore { profile: profile(cand), score: score_key(raw) }
}

fn scored_all(query: &[f64], cands: &[&[f64]], metric: &str) -> Vec<CandidateScore> {
    cands.iter().map(|c| scored(query, c, metric)).collect()
}

fn entry(candidate: usize, score: f64) -> ScoredCandidate {
    ScoredCandidate { candidate, score: score_key(score) }
}

#[test]
fn test_cosine_tie_breaks_by_admission_order() {
    let query = [2.0, 2.0];
    let cands: [&[f64]; 3] = [&[2.0, 2.0], &[1.0, 1.0], &[-2.0, -2.0]];
    let scores = scored_all(&query, &cands, "cosine_similarity");
    let r = find_top_k(&profile(&query), &scores, "cosine_similarity", 2).unwrap();
    assert_eq!(
        r,
        vec![
            entry(0, cosine(&query, &[2.0, 2.0])),
            entry(1, cosine(&query, &[1.0, 1.0])),
        ]
    );
    // Both winners score strictly ahead of the excluded opposite vector.
    assert!(r[1].score > score_key(cosine(&query, &[-2.0, -2.0])));
}

#[test]
fn test_cosine_zero_query_reports_undefined() {
    let query = [0.0, 0.0];
    let cands: [&[f64]; 1] = [&[1.0, 2.0]];
    let scores = scored_all(&query, &cands, "cosine_similarity");
    let r = find_top_k(&profile(&query), &scores, "cosine_similarity", 1);
    assert_eq!(r, Err(SearchError::UndefinedMetricResult));
}

#[test]
fn test_cosine_zero_candidate_reports_undefined() {
    let query = [1.0, 2.0];
    let cands: [&[f64]; 2] = [&[3.0, 4.0], &[0.0, 0.0]];
    let scores = scored_all(&query, &cands, "cosine_similarity");
    let r = find_top_k(&profile(&query), &scores, "cosine_similarity", 2);
    assert_eq!(r, Err(SearchError::UndefinedMetricResult));
}

#[test]
fn test_dimension_mismatch_reports_error_for_every_metric() {
    let query = [1.0, 2.0, 3.0];
    let cands: [&[f64]; 1] = [&[1.0, 2.0]];
    for metric in ["dot_product", "euclidean_distance", "cosine_similarity"] {
        let scores = scored_all(&query, &cands, metric);
        let r = find_top_k(&profile(&query), &scores, metric, 1);
        assert_eq!(r, Err(SearchError::DimensionMismatch));
    }
}

#[test]
fn test_dimension_mismatch_beats_undefined_on_same_candidate() {
    // A zero-magnitude candidate of the wrong length is reported as a
    // dimension mismatch: lengths are checked first.
    let query = [1.0, 2.0];
    let cands: [&[f64]; 1] = [&[0.0, 0.0, 0.0]];
    let scores = scored_all(&query, &cands, "cosine_similarity");
    let r = find_top_k(&profile(&query), &scores, "cosine_similarity", 1);
    assert_eq!(r, Err(SearchError::DimensionMismatch));
}

#[test]
fn test_invalid_selector_is_rejected() {
    let query = [1.0];
    let cands: [&[f64]; 1] = [&[1.0]];
    let scores = scored_all(&query, &cands, "dot_product");
    let r = find_top_k(&profile(&query), &scores, "manhattan_distance", 1);
    assert_eq!(r, Err(SearchError::InvalidMetricSelector));
}

#[test]
fn test_invalid_capacity_is_rejected_before_scanning() {
    let query = [1.0];
    // Even an inadmissible candidate is not reached: capacity is checked first.
    let cands: [&[f64]; 1] = [&[1.0, 2.0]];
    let scores = scored_all(&query, &cands, "dot_product");
    let r = find_top_k(&profile(&query), &scores, "dot_product", usize::MAX);
    assert_eq!(r, Err(SearchError::InvalidCapacity));
}

#[test]
fn test_k_zero_returns_empty_after_validating() {
    let query = [1.0, 2.0];
    let good: [&[f64]; 2] = [&[1.0, 0.0], &[0.5, 0.5]];
    let scores = scored_all(&query, &good, "dot_product");
    let r = find_top_k(&profile(&query), &scores, "dot_product", 0);
    assert_eq!(r, Ok(vec![]));

    // With a malformed candidate the call still fails, even for k = 0.
    let bad: [&[f64]; 2] = [&[1.0, 0.0], &[1.0, 2.0, 3.0]];
    let scores = scored_all(&query, &bad, "dot_product");
    let r = find_top_k(&profile(&query), &scores, "dot_product", 0);
    assert_eq!(r, Err(SearchError::DimensionMismatch));
}

#[test]
fn test_k_exceeding_candidate_count_returns_all() {
    let query = [1.0, 0.0];
    let cands: [&[f64]; 3] = [&[1.0, 0.0], &[3.0, 0.0], &[2.0, 0.0]];
    let scores = scored_all(&query, &cands, "dot_product");
    let r = find_top_k(&profile(&query), &scores, "dot_product", 10).unwrap();
    assert_eq!(r, vec![entry(1, 3.0), entry(2, 2.0), entry(0, 1.0)]);
}

#[test]
fn test_single_candidate_is_returned() {
    let query = [1.0, 1.0];
    let cands: [&[f64]; 1] = [&[4.0, 5.0]];
    let scores = scored_all(&query, &cands, "dot_product");
    let r = find_top_k(&profile(&query), &scores, "dot_product", 1).unwrap();
    assert_eq!(r, vec![entry(0, 9.0)]);
}

#[test]
fn test_result_length_is_min_of_k_and_candidates() {
    let query = [1.0];
    let cands: [&[f64]; 5] = [&[5.0], &[1.0], &[4.0], &[2.0], &[3.0]];
    let scores = scored_all(&query, &cands, "dot_product");
    for k in 0..8 {
        let r = find_top_k(&profile(&query), &scores, "dot_product", k).unwrap();
        assert_eq!(r.len(), k.min(5));
    }
}

#[test]
fn test_euclidean_orders_ascending() {
    let query = [0.0, 0.0];
    let cands: [&[f64]; 4] = [&[3.0, 4.0], &[1.0, 0.0], &[0.0, 2.0], &[6.0, 8.0]];
    let scores = scored_all(&query, &cands, "euclidean_distance");
    let r = find_top_k(&profile(&query), &scores, "euclidean_distance", 3).unwrap();
    assert_eq!(r, vec![entry(1, 1.0), entry(2, 2.0), entry(0, 5.0)]);
}

#[test]
fn test_dot_product_orders_descending() {
    let query = [2.0, 1.0];
    let cands: [&[f64]; 3] = [&[1.0, 1.0], &[3.0, 0.0], &[0.0, 1.0]];
    let scores = scored_all(&query, &cands, "dot_product");
    let r = find_top_k(&profile(&query), &scores, "dot_product", 3).unwrap();
    assert_eq!(r, vec![entry(1, 6.0), entry(0, 3.0), entry(2, 1.0)]);
}

#[test]
fn test_rerunning_returns_identical_results() {
    let query = [1.0, 2.0];
    let cands: [&[f64]; 4] = [&[2.0, 1.0], &[1.0, 2.0], &[-1.0, 3.0], &[0.0, 0.0]];
    for metric in ["dot_product", "euclidean_distance"] {
        let scores = scored_all(&query, &cands, metric);
        let first = find_top_k(&profile(&query), &scores, metric, 2);
        let second = find_top_k(&profile(&query), &scores, metric, 2);
        assert_eq!(first, second);
    }
}

#[test]
fn test_excluded_candidates_never_beat_included_ones() {
    let query = [1.0, 0.0];
    let cands: [&[f64]; 6] =
        [&[2.0, 9.0], &[5.0, 0.0], &[-3.0, 1.0], &[4.0, 4.0], &[0.5, 0.0], &[3.0, 7.0]];
    let scores = scored_all(&query, &cands, "dot_product");
    let k = 3;
    let r = find_top_k(&profile(&query), &scores, "dot_product", k).unwrap();
    assert_eq!(r.len(), k);
    let included: Vec<usize> = r.iter().map(|e| e.candidate).collect();
    let worst_included = r[r.len() - 1].score;
    for (c, cand) in scores.iter().enumerate() {
        if !included.contains(&c) {
            assert!(cand.score <= worst_included);
        }
    }
}

#[test]
fn test_find_similar_n_matches_find_top_k() {
    let query = [1.0, 1.0];
    let cands: [&[f64]; 3] = [&[1.0, 0.0], &[0.0, 3.0], &[2.0, 2.0]];
    let scores = scored_all(&query, &cands, "euclidean_distance");
    let by_name = find_top_k(&profile(&query), &scores, "euclidean_distance", 2);
    let by_algorithm = find_similar_n(&profile(&query), &scores, &Algorithm::Euclidean, 2);
    assert_eq!(by_name, by_algorithm);
}

#[test]
fn test_empty_candidate_stream_returns_empty() {
    let query = [1.0, 2.0];
    let scores: Vec<CandidateScore> = vec![];
    let r = find_top_k(&profile(&query), &scores, "cosine_similarity", 4);
    assert_eq!(r, Ok(vec![]));
}

#[test]
fn test_capacity_bound_is_exact() {
    let query = [1.0];
    let cands: [&[f64]; 2] = [&[2.0], &[3.0]];
    let scores = scored_all(&query, &cands, "dot_product");
    // The largest allowed capacity is served; one more is rejected.
    let r = find_top_k(&profile(&query), &scores, "dot_product", MAX_HEAP_CAPACITY).unwrap();
    assert_eq!(r, vec![entry(1, 3.0), entry(0, 2.0)]);
    let r = find_top_k(&profile(&query), &scores, "dot_product", MAX_HEAP_CAPACITY + 1);
    assert_eq!(r, Err(SearchError::InvalidCapacity));
}
