//! A feasible Steiner arborescence.
use vstd::prelude::*;
use crate::graph::types::{ArcId, NodeId, Cost};

verus! {

/// A solution: the arcs of an arborescence, the vertices it spans, and its cost.
#[derive(Debug, Clone)]
pub struct SteinerSolution {
    pub arcs: Vec<ArcId>,
    pub nodes: Vec<NodeId>,
    pub objective_value: Cost,
}

impl SteinerSolution {
    pub fn new(arcs: Vec<ArcId>, nodes: Vec<NodeId>, objective_value: Cost) -> (s: Self)
        ensures
            s.arcs@ == arcs@,
            s.nodes@ == nodes@,
            s.objective_value == objective_value,
    {
        SteinerSolution { arcs, nodes, objective_value }
    }
}

} // verus!
