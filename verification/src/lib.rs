use vstd::prelude::*;

pub mod graph;
pub mod deadline;
pub mod model;
pub mod heuristics;
pub mod branch_and_bound;
pub mod io;

verus! {

} // verus!
