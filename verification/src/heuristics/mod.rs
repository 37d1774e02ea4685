use vstd::prelude::*;
use crate::model::SteinerSolution;

pub mod sph;
pub mod ils;
pub mod key_vertex;
pub mod key_path;
pub mod constructive;
pub mod local_search;
pub mod recombination;
pub mod exact_recombination;

pub use constructive::ConstructiveHeuristic;
pub use sph::{best_of_starts, shortest_path_heuristic, SphResult, SphWorkspace};
pub use ils::{iterated_local_search, IlsWorkspace};
pub use local_search::LocalSearchHeuristic;
pub use recombination::RecombinationHeuristic;

verus! {

/// Primal heuristics that find feasible solutions.
pub trait PrimalHeuristic {
    /// The heuristic's inputs are well formed.
    spec fn ready(&self) -> bool;

    fn run(&mut self) -> Option<SteinerSolution>
        requires
            old(self).ready(),
    ;
}

} // verus!
