use vstd::prelude::*;

verus! {

/// Status of the branch-and-bound solving process.
#[derive(Debug, Clone, Copy, PartialEq, Eq, Structural)]
pub enum SolveStatus {
    Optimal,
    Feasible,
    Infeasible,
    TimeLimit,
    MemoryLimit,
    NodeLimit,
}

} // verus!
