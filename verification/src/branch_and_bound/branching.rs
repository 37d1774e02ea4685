//! Branching variable selection rules.
//!
//! Branching is on single arcs, with the children `y_a = 0` and `y_a = 1`:
//! that is a genuine partition of the feasible set and cannot lose a solution.
use vstd::prelude::*;

verus! {

/// How the branching arc is chosen.
#[derive(Debug, Clone, Copy, PartialEq, Eq, Structural)]
pub enum BranchingRule {
    MostFractional,
    StrongBranching { max_candidates: u32 },
    ReliabilityBranching { max_strong_candidates: u32, reliability_threshold: u32 },
}

impl BranchingRule {
    /// Reliability branching with ten strong candidates and a threshold of five observations.
    pub fn default_reliability() -> (r: Self)
        ensures
            r == (BranchingRule::ReliabilityBranching { max_strong_candidates: 10, reliability_threshold: 5 }),
    {
        BranchingRule::ReliabilityBranching { max_strong_candidates: 10, reliability_threshold: 5 }
    }
}

} // verus!
