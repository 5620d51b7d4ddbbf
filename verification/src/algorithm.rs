//! The metric choices and the heap configuration each one ranks with.

use vstd::prelude::*;
use crate::errors::SearchError;
use crate::heap::{AlgorithmHeapType, MaxHeap, MinHeap};
use crate::order::ScoredCandidate;

verus! {

/// The metric candidates are scored with.
#[derive(Clone, Copy, PartialEq, Eq, Structural, Debug)]
pub enum Algorithm {
    /// Sum of element-wise products; larger is more similar.
    DotProduct,
    /// Root of the sum of squared element-wise differences; smaller is
    /// more similar.
    Euclidean,
    /// Dot product over the product of the magnitudes; larger is more
    /// similar.
    Cosine,
}

/// The metric a selector string names, if any.
pub open spec fn selector_algorithm(name: Seq<char>) -> Option<Algorithm> {
    if name == "dot_product"@ {
        Some(Algorithm::DotProduct)
    } else if name == "euclidean_distance"@ {
        Some(Algorithm::Euclidean)
    } else if name == "cosine_similarity"@ {
        Some(Algorithm::Cosine)
    } else {
        None
    }
}

/// Relies on str's `PartialEq`: equality of two string slices compares
/// their character contents.
#[verifier::external_body]
fn str_eq(a: &str, b: &str) -> (r: bool)
    ensures
        r == (a@ == b@),
{
    a == b
}

impl Algorithm {
    /// The ranking direction: a larger dot product or cosine similarity
    /// means more similar; a smaller Euclidean distance does.
    pub open spec fn keep_largest(self) -> bool {
        !(self is Euclidean)
    }

    /// Resolve a metric selector: `"dot_product"`, `"euclidean_distance"`
    /// and `"cosine_similarity"` name the three metrics; any other
    /// selector is rejected.
    pub fn from_selector(name: &str) -> (r: Result<Algorithm, SearchError>)
        ensures
            r == match selector_algorithm(name@) {
                Some(algorithm) => Ok::<Algorithm, SearchError>(algorithm),
                None => Err::<Algorithm, SearchError>(SearchError::InvalidMetricSelector),
            },
    {
        if str_eq(name, "dot_product") {
            Ok(Algorithm::DotProduct)
        } else if str_eq(name, "euclidean_distance") {
            Ok(Algorithm::Euclidean)
        } else if str_eq(name, "cosine_similarity") {
            Ok(Algorithm::Cosine)
        } else {
            Err(SearchError::InvalidMetricSelector)
        }
    }

    /// Create the bounded heap this metric ranks with: keep-largest for
    /// dot product and cosine similarity, keep-smallest for Euclidean
    /// distance.
    pub fn init_heap(&self, capacity: usize) -> (h: AlgorithmHeapType)
        ensures
            h.wf(),
            h.contents() == Seq::<ScoredCandidate>::empty(),
            h.capacity() == capacity,
            h.keep_largest() == self.keep_largest(),
    {
        match self {
            Algorithm::Euclidean => AlgorithmHeapType::MIN(MinHeap::new(capacity)),
            Algorithm::DotProduct | Algorithm::Cosine => AlgorithmHeapType::MAX(
                MaxHeap::new(capacity),
            ),
        }
    }
}

} // verus!
