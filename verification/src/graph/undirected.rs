use vstd::prelude::*;
use super::types::{NodeId, EdgeId, Cost, NodeType, Node, Edge};

verus! {

/// The incidence list of vertex `v` that the edge sequence `edges` induces:
/// for each edge in order, `(dst, id)` when `v` is its source, then `(src, id)`
/// when `v` is its destination. A loop at `v` therefore appears twice.
pub open spec fn incidence(edges: Seq<Edge>, v: int) -> Seq<(NodeId, EdgeId)>
    decreases edges.len(),
{
    if edges.len() == 0 {
        Seq::empty()
    } else {
        let e = edges.last();
        let pre = incidence(edges.drop_last(), v);
        let a = if e.src == v { pre.push((e.dst, e.id)) } else { pre };
        if e.dst == v { a.push((e.src, e.id)) } else { a }
    }
}

/// The costs of the incidences of `v`, in the order of [`incidence`].
pub open spec fn incidence_costs(edges: Seq<Edge>, v: int) -> Seq<Cost>
    decreases edges.len(),
{
    if edges.len() == 0 {
        Seq::empty()
    } else {
        let e = edges.last();
        let pre = incidence_costs(edges.drop_last(), v);
        let a = if e.src == v { pre.push(e.cost) } else { pre };
        if e.dst == v { a.push(e.cost) } else { a }
    }
}

pub proof fn lemma_incidence_costs_len(edges: Seq<Edge>, v: int)
    ensures
        incidence_costs(edges, v).len() == incidence(edges, v).len(),
    decreases edges.len(),
{
    if edges.len() > 0 {
        lemma_incidence_costs_len(edges.drop_last(), v);
    }
}

/// Every incidence of `v` names, by its position, an edge with `v` at one end
/// and the listed neighbour at the other.
pub proof fn lemma_incidence_sound(edges: Seq<Edge>, v: int, k: int)
    requires
        forall|i: int| 0 <= i < edges.len() ==> (#[trigger] edges[i]).id == i,
        0 <= k < incidence(edges, v).len(),
    ensures
        incidence(edges, v)[k].1 < edges.len(),
        ({
            let (w, j) = incidence(edges, v)[k];
            let e = edges[j as int];
            (e.src == v && e.dst == w) || (e.dst == v && e.src == w)
        }),
    decreases edges.len(),
{
    let pre = incidence(edges.drop_last(), v);
    let e = edges.last();
    let a = if e.src == v { pre.push((e.dst, e.id)) } else { pre };
    if k < pre.len() {
        assert forall|i: int| 0 <= i < edges.drop_last().len() implies (#[trigger] edges.drop_last()[i]).id == i by {
            assert(edges.drop_last()[i] == edges[i]);
        }
        lemma_incidence_sound(edges.drop_last(), v, k);
        assert(incidence(edges, v)[k] == pre[k]);
        assert(edges.drop_last()[pre[k].1 as int] == edges[pre[k].1 as int]);
    } else {
        assert(e.id == edges.len() - 1);
    }
}

/// A vertex outside every edge has no incidences.
pub proof fn lemma_incidence_untouched(edges: Seq<Edge>, v: int)
    requires
        forall|i: int| 0 <= i < edges.len() ==> edges[i].src != v && edges[i].dst != v,
    ensures
        incidence(edges, v) == Seq::<(NodeId, EdgeId)>::empty(),
        incidence_costs(edges, v) == Seq::<Cost>::empty(),
    decreases edges.len(),
{
    if edges.len() > 0 {
        lemma_incidence_untouched(edges.drop_last(), v);
    }
}

/// Undirected graph held as an edge list plus per-vertex incidence lists.
#[derive(Debug, Clone)]
pub struct UndirectedGraph {
    pub num_nodes: u32,
    pub nodes: Vec<Node>,
    pub edges: Vec<Edge>,
    /// Incidences indexed directly by the one-based node id.
    pub adjacency: Vec<Vec<(NodeId, EdgeId)>>,
    /// Edge costs in the same order as `adjacency`.
    pub adjacency_costs: Vec<Vec<Cost>>,
}

impl UndirectedGraph {
    /// The incidence lists agree with the edge list, every edge carries its
    /// own position as id, and every vertex named by a node or an edge has a slot.
    pub open spec fn wf(&self) -> bool {
        &&& self.costs_wf()
        &&& self.edges@.len() <= u32::MAX
        &&& forall|i: int| 0 <= i < self.edges@.len() ==> (#[trigger] self.edges@[i]).id == i
        &&& forall|i: int| 0 <= i < self.edges@.len() ==>
            (#[trigger] self.edges@[i]).src < self.adjacency@.len()
            && self.edges@[i].dst < self.adjacency@.len()
        &&& forall|i: int| 0 <= i < self.nodes@.len() ==>
            (#[trigger] self.nodes@[i]).id < self.adjacency@.len()
        &&& forall|v: int| 0 <= v < self.adjacency@.len() ==>
            (#[trigger] self.adjacency@[v])@ == incidence(self.edges@, v)
    }

    /// The private cost cache mirrors the incidence lists.
    pub open spec fn costs_wf(&self) -> bool {
        &&& self.adjacency@.len() == self.adjacency_costs@.len()
        &&& forall|v: int| 0 <= v < self.adjacency_costs@.len() ==>
            (#[trigger] self.adjacency_costs@[v])@ == incidence_costs(self.edges@, v)
    }

    /// An empty graph with room for the ids `0..=num_nodes`.
    pub fn new(num_nodes: u32) -> (g: Self)
        requires
            num_nodes < usize::MAX,
        ensures
            g.wf(),
            g.num_nodes == num_nodes,
            g.nodes@.len() == 0,
            g.edges@.len() == 0,
            g.adjacency@.len() == num_nodes + 1,
    {
        let mut adjacency: Vec<Vec<(NodeId, EdgeId)>> = Vec::new();
        let mut adjacency_costs: Vec<Vec<Cost>> = Vec::new();
        let n: usize = num_nodes as usize + 1;
        let mut i: usize = 0;
        while i < n
            invariant
                i <= n,
                adjacency@.len() == i,
                adjacency_costs@.len() == i,
                forall|v: int| 0 <= v < i ==> (#[trigger] adjacency@[v])@ == Seq::<(NodeId, EdgeId)>::empty(),
                forall|v: int| 0 <= v < i ==> (#[trigger] adjacency_costs@[v])@ == Seq::<Cost>::empty(),
            decreases n - i,
        {
            adjacency.push(Vec::new());
            adjacency_costs.push(Vec::new());
            i += 1;
        }
        UndirectedGraph { num_nodes, nodes: Vec::new(), edges: Vec::new(), adjacency, adjacency_costs }
    }

    fn ensure_node(&mut self, id: NodeId)
        requires
            old(self).wf(),
            id < usize::MAX,
        ensures
            final(self).wf(),
            final(self).num_nodes == old(self).num_nodes,
            final(self).nodes == old(self).nodes,
            final(self).edges == old(self).edges,
            final(self).adjacency@.len() == if old(self).adjacency@.len() > id {
                old(self).adjacency@.len() as int
            } else {
                id + 1
            },
    {
        let required: usize = id as usize + 1;
        while self.adjacency.len() < required
            invariant
                self.wf(),
                self.num_nodes == old(self).num_nodes,
                self.nodes == old(self).nodes,
                self.edges == old(self).edges,
                old(self).adjacency@.len() <= self.adjacency@.len(),
                self.adjacency@.len() <= required || self.adjacency@.len() == old(self).adjacency@.len(),
            decreases required - self.adjacency@.len(),
        {
            let ghost v = self.adjacency@.len() as int;
            proof {
                lemma_incidence_untouched(self.edges@, v);
            }
            self.adjacency.push(Vec::new());
            self.adjacency_costs.push(Vec::new());
        }
    }

    /// Record a vertex and make room for its id.
    pub fn add_node(&mut self, id: NodeId, node_type: NodeType, weight: Cost)
        requires
            old(self).wf(),
            id < usize::MAX,
        ensures
            final(self).wf(),
            final(self).num_nodes == old(self).num_nodes,
            final(self).nodes@ == old(self).nodes@.push(Node { id, node_type, weight }),
            final(self).edges == old(self).edges,
            final(self).adjacency@.len() > id,
            old(self).adjacency@.len() <= final(self).adjacency@.len(),
    {
        self.ensure_node(id);
        self.nodes.push(Node { id, node_type, weight });
    }

    /// Append the edge `{src, dst}` and return its id.
    pub fn add_edge(&mut self, src: NodeId, dst: NodeId, cost: Cost) -> (edge_id: EdgeId)
        requires
            old(self).wf(),
            old(self).edges@.len() < u32::MAX,
            src < usize::MAX,
            dst < usize::MAX,
        ensures
            final(self).wf(),
            edge_id == old(self).edges@.len(),
            final(self).num_nodes == old(self).num_nodes,
            final(self).nodes == old(self).nodes,
            final(self).edges@ == old(self).edges@.push(Edge { id: edge_id, src, dst, cost }),
            final(self).adjacency@.len() > src,
            final(self).adjacency@.len() > dst,
            old(self).adjacency@.len() <= final(self).adjacency@.len(),
    {
        self.ensure_node(src);
        self.ensure_node(dst);
        let edge_id = self.edges.len() as EdgeId;
        let e = Edge { id: edge_id, src, dst, cost };
        let ghost old_edges = self.edges@;
        let ghost old_adj = self.adjacency@;
        let ghost old_costs = self.adjacency_costs@;
        self.edges.push(e);
        proof {
            assert(self.edges@.drop_last() == old_edges);
        }
        self.adjacency[src as usize].push((dst, edge_id));
        self.adjacency[dst as usize].push((src, edge_id));
        self.adjacency_costs[src as usize].push(cost);
        self.adjacency_costs[dst as usize].push(cost);
        proof {
            assert forall|v: int| 0 <= v < self.adjacency@.len() implies
                (#[trigger] self.adjacency@[v])@ == incidence(self.edges@, v) by {
                assert(old_adj[v]@ == incidence(old_edges, v));
            }
            assert forall|v: int| 0 <= v < self.adjacency_costs@.len() implies
                (#[trigger] self.adjacency_costs@[v])@ == incidence_costs(self.edges@, v) by {
                assert(old_costs[v]@ == incidence_costs(old_edges, v));
            }
        }
        edge_id
    }

    /// The incidences `(neighbour, edge)` of `node`, in insertion order.
    pub fn neighbors(&self, node: NodeId) -> (r: &[(NodeId, EdgeId)])
        requires
            self.wf(),
        ensures
            r@ == incidence(self.edges@, node as int),
    {
        if (node as usize) < self.adjacency.len() {
            self.adjacency[node as usize].as_slice()
        } else {
            proof {
                lemma_incidence_untouched(self.edges@, node as int);
            }
            &[]
        }
    }

    /// Neighbour and cost pairs of `node`, in insertion order.
    pub fn neighbors_with_cost(&self, node: NodeId) -> (r: Vec<(NodeId, Cost)>)
        requires
            self.wf(),
        ensures
            r@.len() == incidence(self.edges@, node as int).len(),
            forall|k: int| 0 <= k < r@.len() ==> (#[trigger] r@[k]).0 == incidence(self.edges@, node as int)[k].0
                && r@[k].1 == incidence_costs(self.edges@, node as int)[k],
    {
        let mut out: Vec<(NodeId, Cost)> = Vec::new();
        proof {
            lemma_incidence_costs_len(self.edges@, node as int);
        }
        if (node as usize) < self.adjacency.len() {
            let nb = &self.adjacency[node as usize];
            let cs = &self.adjacency_costs[node as usize];
            let mut k: usize = 0;
            while k < nb.len()
                invariant
                    nb@ == incidence(self.edges@, node as int),
                    cs@ == incidence_costs(self.edges@, node as int),
                    nb@.len() == cs@.len(),
                    k <= nb@.len(),
                    out@.len() == k,
                    forall|j: int| 0 <= j < k ==> (#[trigger] out@[j]).0 == nb@[j].0 && out@[j].1 == cs@[j],
                decreases nb@.len() - k,
            {
                out.push((nb[k].0, cs[k]));
                k += 1;
            }
        } else {
            proof {
                lemma_incidence_untouched(self.edges@, node as int);
            }
        }
        out
    }

    /// Number of incidences of `node`; a loop counts twice.
    pub fn degree(&self, node: NodeId) -> (d: usize)
        requires
            self.wf(),
        ensures
            d == incidence(self.edges@, node as int).len(),
    {
        if (node as usize) < self.adjacency.len() {
            self.adjacency[node as usize].len()
        } else {
            proof {
                lemma_incidence_untouched(self.edges@, node as int);
            }
            0
        }
    }

    pub fn num_edges(&self) -> (m: u32)
        requires
            self.wf(),
        ensures
            m == self.edges@.len(),
    {
        self.edges.len() as u32
    }
}

} // verus!
