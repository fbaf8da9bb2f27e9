//! Node-importance metrics over an undirected multigraph: degree centrality,
//! power-iteration eigenvector centrality, and Brandes-style betweenness
//! centrality, all computed in exact rational arithmetic.

use vstd::prelude::*;

pub mod betweenness;
pub mod degree;
pub mod eigenvector;
pub mod graph;
pub mod normalize;
pub mod ranker;
pub mod rational;

verus! {

/// The ways a centrality computation can fail on a degenerate input.
#[derive(Clone, Copy, Debug, PartialEq, Eq, Structural)]
pub enum CentralityError {
    /// The graph has fewer than two nodes, so the degree denominator `n - 1`
    /// would be zero (or the score undefined).
    TooFewNodes,
    /// Every accumulated score is zero, so normalizing by the maximum or by
    /// the sum would divide by zero.
    ZeroNormalizer,
    /// An exact rational intermediate no longer fits the machine words that
    /// hold it.
    Overflow,
}

} // verus!
