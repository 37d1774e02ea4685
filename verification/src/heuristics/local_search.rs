//! The local search driver: vertex insertion, key-path exchange and
//! key-vertex elimination, repeated while any of them improves. At this
//! level the three moves are empty: each reports no improvement and leaves
//! the solution as it is, so the driver hands the incumbent back. The moves
//! that do the work, over an arc index, are in `key_vertex` and `key_path`.
use vstd::prelude::*;
use crate::graph::directed::DirectedGraph;
use crate::graph::types::NodeId;
use crate::model::SteinerSolution;
use super::PrimalHeuristic;

verus! {

/// Local search around an incumbent solution.
pub struct LocalSearchHeuristic {
    pub graph: DirectedGraph,
    pub root: NodeId,
    pub terminals: Vec<NodeId>,
    pub incumbent: Option<SteinerSolution>,
}

/// The same solution, arc for arc and vertex for vertex.
pub open spec fn same_solution(a: SteinerSolution, b: SteinerSolution) -> bool {
    &&& a.arcs@ == b.arcs@
    &&& a.nodes@ == b.nodes@
    &&& a.objective_value == b.objective_value
}

impl SteinerSolution {
    /// A copy of the solution.
    pub fn duplicate(&self) -> (s: SteinerSolution)
        ensures
            same_solution(s, *self),
    {
        SteinerSolution::new(self.arcs.clone(), self.nodes.clone(), self.objective_value)
    }
}

impl LocalSearchHeuristic {
    pub fn new(graph: DirectedGraph, root: NodeId, terminals: Vec<NodeId>) -> (h: Self)
        ensures
            h.graph == graph,
            h.root == root,
            h.terminals@ == terminals@,
            h.incumbent is None,
    {
        LocalSearchHeuristic { graph, root, terminals, incumbent: None }
    }

    /// Make `solution` the incumbent that the search starts from.
    pub fn set_incumbent(&mut self, solution: SteinerSolution)
        ensures
            final(self).incumbent == Some(solution),
            final(self).graph == old(self).graph,
            final(self).root == old(self).root,
            final(self).terminals == old(self).terminals,
    {
        self.incumbent = Some(solution);
    }

    /// Connect a further vertex where that allows cheaper edges. Empty
    /// at this level: reports no improvement.
    fn vertex_insertion(&self, solution: &mut SteinerSolution) -> (improved: bool)
        ensures
            !improved,
            *final(solution) == *old(solution),
    {
        false
    }

    /// Replace a key path by a cheaper one. Empty at this level: reports no
    /// improvement.
    fn key_path_exchange(&self, solution: &mut SteinerSolution) -> (improved: bool)
        ensures
            !improved,
            *final(solution) == *old(solution),
    {
        false
    }

    /// Remove a non-terminal key vertex and reconnect its subtrees more
    /// cheaply. Empty at this level: reports no improvement.
    fn key_vertex_elimination(&self, solution: &mut SteinerSolution) -> (improved: bool)
        ensures
            !improved,
            *final(solution) == *old(solution),
    {
        false
    }
}

impl PrimalHeuristic for LocalSearchHeuristic {
    open spec fn ready(&self) -> bool {
        true
    }

    /// The incumbent after the moves, repeated while one improves; `None`
    /// without an incumbent.
    fn run(&mut self) -> (r: Option<SteinerSolution>)
        ensures
            *final(self) == *old(self),
            old(self).incumbent is None <==> r is None,
            r matches Some(sol) ==> old(self).incumbent matches Some(inc) && same_solution(sol, inc),
    {
        let mut solution = match &self.incumbent {
            Some(inc) => inc.duplicate(),
            None => return None,
        };
        let mut improved = true;
        while improved
            invariant
                self.incumbent matches Some(inc) && same_solution(solution, inc),
            decreases if improved { 1int } else { 0int },
        {
            improved = false;
            let a = self.vertex_insertion(&mut solution);
            let b = self.key_path_exchange(&mut solution);
            let c = self.key_vertex_elimination(&mut solution);
            improved = a || b || c;
        }
        Some(solution)
    }
}

} // verus!
