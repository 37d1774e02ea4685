//! Node selection strategy for the branch-and-bound tree.
use vstd::prelude::*;

verus! {

/// Which open node is processed next: best-estimate interleaves best-bound and
/// depth-first phases.
#[derive(Debug, Clone, Copy, PartialEq, Eq, Structural)]
pub enum NodeSelector {
    /// Always select the node with the best (lowest) dual bound.
    BestBound,
    /// Always select the deepest node.
    DepthFirst,
    /// Best estimate with interleaved phases.
    BestEstimate { dfs_frequency: u32, best_bound_frequency: u32, counter: u32 },
}

impl NodeSelector {
    /// Best estimate with a depth-first phase every tenth selection and a
    /// best-bound phase every fifth.
    pub fn default_best_estimate() -> (r: Self)
        ensures
            r == (NodeSelector::BestEstimate { dfs_frequency: 10, best_bound_frequency: 5, counter: 0 }),
    {
        NodeSelector::BestEstimate { dfs_frequency: 10, best_bound_frequency: 5, counter: 0 }
    }
}

} // verus!
