//! The caller-visible ways a selection call can fail.

use vstd::prelude::*;

verus! {

/// Why a selection call failed. Every variant is a property of the input;
/// the call is aborted and no partial result is ever returned as success.
#[derive(Clone, Copy, PartialEq, Eq, Structural, Debug)]
pub enum SearchError {
    /// The query and a candidate have different lengths.
    DimensionMismatch,
    /// Cosine similarity was asked of a zero-magnitude vector.
    UndefinedMetricResult,
    /// The metric selector names no known metric.
    InvalidMetricSelector,
    /// The requested capacity would overflow the heap's backing storage.
    InvalidCapacity,
}

} // verus!
