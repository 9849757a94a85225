// The canonical Neighbor-Joining strategy: a dense compacting Q-matrix,
// the matching tree-builder policy, and the driver loop.
pub(crate) mod algorithm;
pub(crate) mod matrix;
pub(crate) mod phylo_tree;

pub use algorithm::guaranteed_input;
pub use algorithm::naive_neighbor_joining;
pub use algorithm::nj_tree_shape;
pub use algorithm::terminate_nj;
pub use matrix::QMatrix;
pub use phylo_tree::PhyloTree;
