use vstd::prelude::*;

verus! {

/// Identifier of a vertex. Instances number their vertices from one.
pub type NodeId = u32;

/// Identifier of an arc of a directed graph: its position in the arc list.
pub type ArcId = u32;

/// Identifier of an edge of an undirected graph: its position in the edge list.
pub type EdgeId = u32;

/// Edge, arc and vertex costs. Costs are nonnegative integers.
pub type Cost = u64;

/// Whether a vertex must be spanned by every feasible tree.
#[derive(Debug, Clone, Copy, PartialEq, Eq, Structural, Hash)]
pub enum NodeType {
    Terminal,
    Steiner,
}

/// A vertex with its role and weight.
#[derive(Debug, Clone, Copy, PartialEq, Eq, Structural)]
pub struct Node {
    pub id: NodeId,
    pub node_type: NodeType,
    pub weight: Cost,
}

/// An undirected edge `{src, dst}`.
#[derive(Debug, Clone, Copy, PartialEq, Eq, Structural)]
pub struct Edge {
    pub id: EdgeId,
    pub src: NodeId,
    pub dst: NodeId,
    pub cost: Cost,
}

/// A directed arc `(tail, head)`.
#[derive(Debug, Clone, Copy, PartialEq, Eq, Structural)]
pub struct Arc {
    pub id: ArcId,
    pub tail: NodeId,
    pub head: NodeId,
    pub cost: Cost,
}

/// A Steiner tree instance as read from a file.
#[derive(Debug, Clone)]
pub struct SteinerInstance {
    pub name: String,
    pub comment: String,
    pub num_nodes: u32,
    pub num_edges: u32,
    pub num_terminals: u32,
    pub nodes: Vec<Node>,
    pub edges: Vec<Edge>,
    pub terminals: Vec<NodeId>,
    pub root: Option<NodeId>,
}

} // verus!
