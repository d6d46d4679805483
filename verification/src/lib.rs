//! Overlapping-model Wave Function Collapse: learns local adjacency
//! statistics from a sample grid and synthesizes new grids that satisfy
//! those statistics everywhere, via constraint propagation and
//! entropy-driven stochastic collapse.

use vstd::prelude::*;

pub mod entropy;
pub mod grid;
pub mod orientation;
pub mod pattern;
pub mod propagate;
pub mod runner;
pub mod sums;
pub mod wave;
pub mod wrap;

verus! {

/// Failures surfaced by the engine.
#[derive(Clone, Copy, PartialEq, Eq, Structural, Debug)]
pub enum WfcError {
    /// A cell's candidate set became empty during propagation.
    Contradiction,
    /// Every attempt permitted by the retry policy ended in contradiction.
    RetryExhausted,
    /// The pattern edge length is zero or exceeds a sample dimension.
    InvalidPatternSize,
    /// Construction-time validation failed (zero-sized output, empty
    /// orientation set, out-of-bounds forbid entry, oversized sample).
    InvalidConfiguration,
}

} // verus!
