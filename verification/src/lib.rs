//! Bounded top-K selection over scored candidates.
//!
//! Given a query vector, a stream of candidate vectors and a metric
//! (dot product, Euclidean distance or cosine similarity), the engine keeps
//! the K best-scoring candidates seen so far in a fixed-capacity heap and
//! returns them ordered best-first.
//!
//! Scores are real-valued and are computed by the caller; the engine never
//! inspects a score's numeric value, only its order. Each score enters the
//! library as a `u64` key whose `<` order agrees with the numeric order of
//! the scores (any order-preserving encoding of non-NaN values works), and
//! each candidate enters as its position in the stream together with the
//! facts the selection rules read: its length and whether its magnitude is
//! zero.

pub mod algorithm;
pub mod engine;
pub mod errors;
pub mod heap;
pub mod order;
