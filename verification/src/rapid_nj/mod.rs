// The pruned Neighbor-Joining strategy: tombstoned upper-triangular rows,
// per-row ordered sets, a global row-sum bound, and the pruned search.
pub(crate) mod algorithm;
mod node;
mod phylo_tree;
pub(crate) mod qmatrix;

pub use algorithm::rapid_guaranteed_input;
pub use algorithm::rapid_nj;
pub use node::Node;
pub use phylo_tree::PhyloTree;
pub use qmatrix::QMatrix;
