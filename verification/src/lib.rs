//! Exact Neighbor-Joining over a pairwise distance matrix.
//!
//! Three interchangeable strategies reconstruct an unrooted weighted binary
//! tree from a symmetric distance matrix: a canonical cubic-time scan, a
//! pruned search in the spirit of RapidNJ over per-row ordered sets, and a
//! hybrid that starts pruned and finishes canonical. All arithmetic is
//! exact: distances are integer numerators over a shared denominator, and
//! branch lengths come out as exact rationals.
//!
//! Exactness has a price the floating-point formulation does not pay: the
//! solvers accept at most `MAX_TAXA` taxa and entries up to `INPUT_CAP`,
//! and can report an input as too large for the 128-bit arithmetic
//! mid-run. On inputs within the guaranteed bounds (fifty taxa, entries
//! below `2^38`) the solvers' contracts promise success outright.

#![allow(unused_imports)]
use vstd::prelude::*;

pub mod bin;
pub mod configuration;
mod distances;
mod errors;
pub mod hybrid_nj;
pub mod naive_nj;
mod pool;
pub mod rapid_nj;
mod ratio;
mod tree;

pub use bin::Algorithm;
pub use distances::read_phylip_distance_matrix;
pub use distances::DistanceMatrix;
pub use errors::NjError;
pub use naive_nj::nj_tree_shape;
pub use ratio::Ratio;
pub use tree::Tree;

use crate::naive_nj::naive_neighbor_joining;
use crate::rapid_nj::rapid_nj;

verus! {

/// Canonical Neighbor-Joining: a full quadratic scan per merge, cubic in
/// all. Optimal for small problems.
pub struct Canonical {}

/// In the spirit of RapidNJ: per-row ordered sets and a global row-sum
/// bound prune each search. Optimal for big problems.
pub struct RapidBtrees {
    pub chunk_size: usize,
}

/// A mix of the two: the pruned strategy first, the canonical one for the
/// last rounds.
pub struct Hybrid {
    pub chunk_size: usize,
    pub canonical_iters: usize,
}

/// A solver bundling a distance matrix with one strategy's parameters.
#[verifier::reject_recursive_types(U)]
pub struct NeighborJoiningSolver<U> {
    pub algo: U,
    pub dist: DistanceMatrix,
}

impl NeighborJoiningSolver<Canonical> {
    /// Construct the solver from its parameters.
    pub fn build(dist: DistanceMatrix) -> (s: NeighborJoiningSolver<Canonical>)
        ensures
            s.dist == dist,
    {
        NeighborJoiningSolver { algo: Canonical {  }, dist }
    }

    /// The default canonical solver.
    pub fn default(dist: DistanceMatrix) -> (s: NeighborJoiningSolver<Canonical>)
        ensures
            s.dist == dist,
    {
        Self::build(dist)
    }

    /// Solve the Neighbor-Joining problem canonically.
    pub fn solve(self) -> (r: Result<Tree, NjError>)
        ensures
            r matches Ok(t) ==> self.dist.valid_input() && self.dist.matrix@.len() >= 3
                && nj_tree_shape(t, self.dist.names@, self.dist.matrix@.len() as int),
            !(self.dist.valid_input() && self.dist.matrix@.len() >= 3) ==> (r matches Err(
                NjError::InputInvalid(_),
            )),
            naive_nj::guaranteed_input(self.dist) ==> r is Ok,
    {
        naive_neighbor_joining(self.dist)
    }
}

impl NeighborJoiningSolver<RapidBtrees> {
    /// Construct the solver from its parameters.
    pub fn build(dist: DistanceMatrix, chunk_size: usize) -> (s: NeighborJoiningSolver<
        RapidBtrees,
    >)
        ensures
            s.dist == dist,
            s.algo.chunk_size == chunk_size,
    {
        NeighborJoiningSolver { algo: RapidBtrees { chunk_size }, dist }
    }

    /// The default pruned solver: one batch of rows per available worker
    /// thread.
    pub fn default(dist: DistanceMatrix) -> (s: NeighborJoiningSolver<RapidBtrees>)
        ensures
            s.dist == dist,
            s.algo.chunk_size >= 1,
    {
        let n = dist.size();
        let threads = crate::pool::current_num_threads();
        let mut chunk_size: usize = n / threads;
        if chunk_size == 0 {
            chunk_size = 1;
        }
        NeighborJoiningSolver { algo: RapidBtrees { chunk_size }, dist }
    }

    /// Set the batch size each worker takes; it must be positive.
    pub fn set_chunk_size(self, chunk_size: usize) -> (s: NeighborJoiningSolver<RapidBtrees>)
        requires
            chunk_size >= 1,
        ensures
            s.dist == self.dist,
            s.algo.chunk_size == chunk_size,
    {
        Self::build(self.dist, chunk_size)
    }

    /// Solve the Neighbor-Joining problem with the pruned search.
    pub fn solve(self) -> (r: Result<Tree, NjError>)
        ensures
            self.algo.chunk_size == 0 ==> (r matches Err(NjError::ConfigInvalid(_))),
            r matches Ok(t) ==> self.dist.valid_input() && self.dist.matrix@.len() >= 4
                && nj_tree_shape(t, self.dist.names@, self.dist.matrix@.len() as int),
            self.algo.chunk_size >= 1 && !(self.dist.valid_input() && self.dist.matrix@.len()
                >= 4) ==> (r matches Err(NjError::InputInvalid(_))),
            rapid_nj::rapid_guaranteed_input(self.dist) && self.algo.chunk_size >= 1 ==> r is Ok,
    {
        rapid_nj(self.dist, self.algo.chunk_size)
    }
}

impl NeighborJoiningSolver<Hybrid> {
    /// Construct the solver from its parameters.
    pub fn build(dist: DistanceMatrix, chunk_size: usize, canonical_iters: usize) -> (s:
        NeighborJoiningSolver<Hybrid>)
        ensures
            s.dist == dist,
            s.algo.chunk_size == chunk_size,
            s.algo.canonical_iters == canonical_iters,
    {
        NeighborJoiningSolver { algo: Hybrid { chunk_size, canonical_iters }, dist }
    }

    /// The default hybrid solver: thread-sized batches, and half the taxa
    /// handled canonically.
    pub fn default(dist: DistanceMatrix) -> (s: NeighborJoiningSolver<Hybrid>)
        ensures
            s.dist == dist,
            s.algo.chunk_size >= 1,
            s.algo.canonical_iters == (if dist.matrix@.len() as int / 2 == 0 {
                1int
            } else {
                dist.matrix@.len() as int / 2
            }),
    {
        let n = dist.size();
        let threads = crate::pool::current_num_threads();
        let mut chunk_size: usize = n / threads;
        if chunk_size == 0 {
            chunk_size = 1;
        }
        let mut canonical_iters: usize = n / 2;
        if canonical_iters == 0 {
            canonical_iters = 1;
        }
        NeighborJoiningSolver { algo: Hybrid { chunk_size, canonical_iters }, dist }
    }

    /// Solve the Neighbor-Joining problem with the hybrid strategy. The
    /// switch point must lie strictly inside the problem: zero and `N` are
    /// rejected, while one above `N` runs the canonical strategy alone.
    pub fn solve(self) -> (r: Result<Tree, NjError>)
        ensures
            self.algo.chunk_size == 0 ==> (r matches Err(NjError::ConfigInvalid(_))),
            self.algo.chunk_size >= 1 && self.algo.canonical_iters == 0 ==> (r matches Err(
                NjError::ConfigInvalid(_),
            )),
            self.algo.chunk_size >= 1 && self.algo.canonical_iters >= 1 && !(
            self.dist.valid_input() && self.dist.matrix@.len() >= 3) ==> (r matches Err(
                NjError::InputInvalid(_),
            )),
            self.algo.chunk_size >= 1 && self.algo.canonical_iters >= 1
                && self.dist.valid_input() && self.dist.matrix@.len() >= 3
                && self.algo.canonical_iters == self.dist.matrix@.len() ==> (r matches Err(
                NjError::ConfigInvalid(_),
            )),
            r matches Ok(t) ==> self.dist.valid_input() && self.dist.matrix@.len() >= 3
                && nj_tree_shape(t, self.dist.names@, self.dist.matrix@.len() as int),
            hybrid_nj::hybrid_guaranteed_input(
                self.dist,
                self.algo.canonical_iters as int,
                self.algo.chunk_size as int,
            ) ==> r is Ok,
    {
        hybrid_nj::neighbor_joining(self.dist, self.algo.canonical_iters, self.algo.chunk_size)
    }

    /// Set the batch size each worker takes; it must be positive.
    pub fn set_chunk_size(self, chunk_size: usize) -> (s: NeighborJoiningSolver<Hybrid>)
        requires
            chunk_size >= 1,
        ensures
            s.dist == self.dist,
            s.algo.chunk_size == chunk_size,
            s.algo.canonical_iters == self.algo.canonical_iters,
    {
        Self::build(self.dist, chunk_size, self.algo.canonical_iters)
    }

    /// Set how many taxa remain when the canonical phase takes over; it
    /// must be positive. A value of `N` is rejected when solving, and one
    /// above `N` makes the whole run canonical.
    pub fn set_canonical_steps(self, n: usize) -> (s: NeighborJoiningSolver<Hybrid>)
        requires
            n >= 1,
        ensures
            s.dist == self.dist,
            s.algo.chunk_size == self.algo.chunk_size,
            s.algo.canonical_iters == n,
    {
        Self::build(self.dist, self.algo.chunk_size, n)
    }
}

} // verus!
