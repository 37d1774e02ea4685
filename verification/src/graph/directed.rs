use vstd::prelude::*;
use super::types::{NodeId, ArcId, Cost, NodeType, Node, Arc};
use super::undirected::UndirectedGraph;

verus! {

/// `(head, id)` of every arc leaving `v`, in arc order.
pub open spec fn out_arcs(arcs: Seq<Arc>, v: int) -> Seq<(NodeId, ArcId)>
    decreases arcs.len(),
{
    if arcs.len() == 0 {
        Seq::empty()
    } else {
        let a = arcs.last();
        let pre = out_arcs(arcs.drop_last(), v);
        if a.tail == v { pre.push((a.head, a.id)) } else { pre }
    }
}

/// `(tail, id)` of every arc entering `v`, in arc order.
pub open spec fn in_arcs(arcs: Seq<Arc>, v: int) -> Seq<(NodeId, ArcId)>
    decreases arcs.len(),
{
    if arcs.len() == 0 {
        Seq::empty()
    } else {
        let a = arcs.last();
        let pre = in_arcs(arcs.drop_last(), v);
        if a.head == v { pre.push((a.tail, a.id)) } else { pre }
    }
}

pub proof fn lemma_arcs_untouched(arcs: Seq<Arc>, v: int)
    requires
        forall|i: int| 0 <= i < arcs.len() ==> arcs[i].tail != v && arcs[i].head != v,
    ensures
        out_arcs(arcs, v) == Seq::<(NodeId, ArcId)>::empty(),
        in_arcs(arcs, v) == Seq::<(NodeId, ArcId)>::empty(),
    decreases arcs.len(),
{
    if arcs.len() > 0 {
        lemma_arcs_untouched(arcs.drop_last(), v);
    }
}

/// Every entry of `out_arcs(arcs, v)` names an arc leaving `v` by its position.
pub proof fn lemma_out_arcs_sound(arcs: Seq<Arc>, v: int, k: int)
    requires
        forall|i: int| 0 <= i < arcs.len() ==> (#[trigger] arcs[i]).id == i,
        0 <= k < out_arcs(arcs, v).len(),
    ensures
        out_arcs(arcs, v)[k].1 < arcs.len(),
        arcs[out_arcs(arcs, v)[k].1 as int].tail == v,
        arcs[out_arcs(arcs, v)[k].1 as int].head == out_arcs(arcs, v)[k].0,
    decreases arcs.len(),
{
    let pre = out_arcs(arcs.drop_last(), v);
    if k < pre.len() {
        assert forall|i: int| 0 <= i < arcs.drop_last().len() implies (#[trigger] arcs.drop_last()[i]).id == i by {
            assert(arcs.drop_last()[i] == arcs[i]);
        }
        lemma_out_arcs_sound(arcs.drop_last(), v, k);
    }
}

/// Every arc leaving `v` has an entry in `out_arcs(arcs, v)`.
pub proof fn lemma_out_arcs_complete(arcs: Seq<Arc>, v: int, i: int)
    requires
        forall|j: int| 0 <= j < arcs.len() ==> (#[trigger] arcs[j]).id == j,
        0 <= i < arcs.len(),
        arcs[i].tail == v,
    ensures
        out_arcs(arcs, v).contains((arcs[i].head, i as ArcId)),
    decreases arcs.len(),
{
    let pre = out_arcs(arcs.drop_last(), v);
    if i == arcs.len() - 1 {
        assert(out_arcs(arcs, v).last() == (arcs[i].head, i as ArcId));
    } else {
        assert forall|j: int| 0 <= j < arcs.drop_last().len() implies (#[trigger] arcs.drop_last()[j]).id == j by {
            assert(arcs.drop_last()[j] == arcs[j]);
        }
        lemma_out_arcs_complete(arcs.drop_last(), v, i);
        let k = choose|k: int| 0 <= k < pre.len() && pre[k] == (arcs[i].head, i as ArcId);
        assert(out_arcs(arcs, v)[k] == pre[k]);
    }
}

/// Directed graph held as an arc list plus out- and in-incidence lists.
/// Used for the arborescence formulation, where each undirected edge becomes
/// two anti-parallel arcs.
#[derive(Debug, Clone)]
pub struct DirectedGraph {
    pub num_nodes: u32,
    pub nodes: Vec<Node>,
    pub arcs: Vec<Arc>,
    /// Outgoing arcs: node -> [(head, arc_id)]
    pub out_adjacency: Vec<Vec<(NodeId, ArcId)>>,
    /// Incoming arcs: node -> [(tail, arc_id)]
    pub in_adjacency: Vec<Vec<(NodeId, ArcId)>>,
}

impl DirectedGraph {
    /// The incidence lists agree with the arc list, every arc carries its own
    /// position as id, and every vertex named by a node or an arc has a slot.
    pub open spec fn wf(&self) -> bool {
        &&& self.arcs@.len() <= u32::MAX
        &&& self.slots() <= u32::MAX + 1
        &&& forall|i: int| 0 <= i < self.arcs@.len() ==> (#[trigger] self.arcs@[i]).id == i
        &&& forall|i: int| 0 <= i < self.arcs@.len() ==>
            (#[trigger] self.arcs@[i]).tail < self.slots()
            && self.arcs@[i].head < self.slots()
        &&& forall|i: int| 0 <= i < self.nodes@.len() ==>
            (#[trigger] self.nodes@[i]).id < self.slots()
        &&& self.lists_wf()
    }

    /// The private incidence lists agree with the arc list.
    pub open spec fn lists_wf(&self) -> bool {
        &&& self.out_adjacency@.len() == self.in_adjacency@.len()
        &&& forall|v: int| 0 <= v < self.out_adjacency@.len() ==>
            (#[trigger] self.out_adjacency@[v])@ == out_arcs(self.arcs@, v)
        &&& forall|v: int| 0 <= v < self.in_adjacency@.len() ==>
            (#[trigger] self.in_adjacency@[v])@ == in_arcs(self.arcs@, v)
    }

    /// Number of vertex slots (ids `0..slots`).
    pub open spec fn slots(&self) -> int {
        self.out_adjacency@.len() as int
    }

    pub fn new(num_nodes: u32) -> (g: Self)
        requires
            num_nodes < usize::MAX,
        ensures
            g.wf(),
            g.num_nodes == num_nodes,
            g.nodes@.len() == 0,
            g.arcs@.len() == 0,
            g.slots() == num_nodes + 1,
    {
        let mut out_adjacency: Vec<Vec<(NodeId, ArcId)>> = Vec::new();
        let mut in_adjacency: Vec<Vec<(NodeId, ArcId)>> = Vec::new();
        let n: usize = num_nodes as usize + 1;
        let mut i: usize = 0;
        while i < n
            invariant
                i <= n,
                out_adjacency@.len() == i,
                in_adjacency@.len() == i,
                forall|v: int| 0 <= v < i ==> (#[trigger] out_adjacency@[v])@ == Seq::<(NodeId, ArcId)>::empty(),
                forall|v: int| 0 <= v < i ==> (#[trigger] in_adjacency@[v])@ == Seq::<(NodeId, ArcId)>::empty(),
            decreases n - i,
        {
            out_adjacency.push(Vec::new());
            in_adjacency.push(Vec::new());
            i += 1;
        }
        DirectedGraph { num_nodes, nodes: Vec::new(), arcs: Vec::new(), out_adjacency, in_adjacency }
    }

    fn ensure_node(&mut self, id: NodeId)
        requires
            old(self).wf(),
            id < usize::MAX,
        ensures
            final(self).wf(),
            final(self).num_nodes == old(self).num_nodes,
            final(self).nodes == old(self).nodes,
            final(self).arcs == old(self).arcs,
            final(self).slots() == if old(self).slots() > id { old(self).slots() } else { id + 1 },
    {
        let required: usize = id as usize + 1;
        while self.out_adjacency.len() < required
            invariant
                self.wf(),
                self.num_nodes == old(self).num_nodes,
                self.nodes == old(self).nodes,
                self.arcs == old(self).arcs,
                old(self).slots() <= self.slots(),
                self.slots() <= required || self.slots() == old(self).slots(),
                required == id + 1,
            decreases required - self.out_adjacency@.len(),
        {
            let ghost v = self.out_adjacency@.len() as int;
            proof {
                lemma_arcs_untouched(self.arcs@, v);
            }
            self.out_adjacency.push(Vec::new());
            self.in_adjacency.push(Vec::new());
        }
    }

    /// Record a vertex and make room for its id.
    pub fn add_node(&mut self, id: NodeId, node_type: NodeType, weight: Cost)
        requires
            old(self).wf(),
            id < usize::MAX,
        ensures
            final(self).wf(),
            final(self).num_nodes == old(self).num_nodes,
            final(self).nodes@ == old(self).nodes@.push(Node { id, node_type, weight }),
            final(self).arcs == old(self).arcs,
            final(self).slots() > id,
            old(self).slots() <= final(self).slots(),
    {
        self.ensure_node(id);
        self.nodes.push(Node { id, node_type, weight });
    }

    /// Append the arc `(tail, head)` and return its id.
    pub fn add_arc(&mut self, tail: NodeId, head: NodeId, cost: Cost) -> (arc_id: ArcId)
        requires
            old(self).wf(),
            old(self).arcs@.len() < u32::MAX,
            tail < usize::MAX,
            head < usize::MAX,
        ensures
            final(self).wf(),
            arc_id == old(self).arcs@.len(),
            final(self).num_nodes == old(self).num_nodes,
            final(self).nodes == old(self).nodes,
            final(self).arcs@ == old(self).arcs@.push(Arc { id: arc_id, tail, head, cost }),
            final(self).slots() > tail,
            final(self).slots() > head,
            old(self).slots() <= final(self).slots(),
    {
        self.ensure_node(tail);
        self.ensure_node(head);
        let arc_id = self.arcs.len() as ArcId;
        let ghost old_arcs = self.arcs@;
        let ghost old_out = self.out_adjacency@;
        let ghost old_in = self.in_adjacency@;
        self.arcs.push(Arc { id: arc_id, tail, head, cost });
        proof {
            assert(self.arcs@.drop_last() == old_arcs);
        }
        self.out_adjacency[tail as usize].push((head, arc_id));
        self.in_adjacency[head as usize].push((tail, arc_id));
        proof {
            assert forall|v: int| 0 <= v < self.out_adjacency@.len() implies
                (#[trigger] self.out_adjacency@[v])@ == out_arcs(self.arcs@, v) by {
                assert(old_out[v]@ == out_arcs(old_arcs, v));
            }
            assert forall|v: int| 0 <= v < self.in_adjacency@.len() implies
                (#[trigger] self.in_adjacency@[v])@ == in_arcs(self.arcs@, v) by {
                assert(old_in[v]@ == in_arcs(old_arcs, v));
            }
        }
        arc_id
    }

    /// δ+(v): the arcs leaving `node`, as `(head, arc_id)`.
    pub fn delta_plus(&self, node: NodeId) -> (r: &[(NodeId, ArcId)])
        requires
            self.wf(),
        ensures
            r@ == out_arcs(self.arcs@, node as int),
    {
        if (node as usize) < self.out_adjacency.len() {
            self.out_adjacency[node as usize].as_slice()
        } else {
            proof {
                lemma_arcs_untouched(self.arcs@, node as int);
            }
            &[]
        }
    }

    /// δ⁻(v): the arcs entering `node`, as `(tail, arc_id)`.
    pub fn delta_minus(&self, node: NodeId) -> (r: &[(NodeId, ArcId)])
        requires
            self.wf(),
        ensures
            r@ == in_arcs(self.arcs@, node as int),
    {
        if (node as usize) < self.in_adjacency.len() {
            self.in_adjacency[node as usize].as_slice()
        } else {
            proof {
                lemma_arcs_untouched(self.arcs@, node as int);
            }
            &[]
        }
    }

    /// δ+(W): the ids of the arcs with tail in `w` and head outside it, grouped
    /// by the position of the tail in `w` (a repeated member repeats its arcs).
    pub fn delta_plus_set(&self, w: &[NodeId]) -> (result: Vec<ArcId>)
        requires
            self.wf(),
        ensures
            result@ == leaving_set(self.arcs@, w@, w@.len() as int),
    {
        let mut in_set: Vec<bool> = Vec::new();
        let mut k: usize = 0;
        while k < self.out_adjacency.len()
            invariant
                k <= self.out_adjacency@.len(),
                in_set@.len() == k,
                forall|j: int| 0 <= j < k ==> !(#[trigger] in_set@[j]),
            decreases self.out_adjacency@.len() - k,
        {
            in_set.push(false);
            k += 1;
        }
        let mut i: usize = 0;
        while i < w.len()
            invariant
                i <= w@.len(),
                in_set@.len() == self.out_adjacency@.len(),
                forall|j: int| 0 <= j < in_set@.len() ==>
                    (#[trigger] in_set@[j] <==> exists|q: int| 0 <= q < i && w@[q] as int == j),
            decreases w@.len() - i,
        {
            let node = w[i];
            if (node as usize) < in_set.len() {
                in_set.set(node as usize, true);
            }
            proof {
                assert forall|j: int| 0 <= j < in_set@.len() implies
                    (#[trigger] in_set@[j] <==> exists|q: int| 0 <= q < i + 1 && w@[q] as int == j) by {
                    if j == node as int {
                        assert(w@[i as int] as int == j);
                    }
                }
            }
            i += 1;
        }
        let mut result: Vec<ArcId> = Vec::new();
        let mut i: usize = 0;
        while i < w.len()
            invariant
                self.wf(),
                i <= w@.len(),
                in_set@.len() == self.out_adjacency@.len(),
                forall|j: int| 0 <= j < in_set@.len() ==> (#[trigger] in_set@[j] <==> exists|q: int| 0 <= q < w@.len() && w@[q] as int == j),
                result@ == leaving_set(self.arcs@, w@, i as int),
            decreases w@.len() - i,
        {
            let node = w[i];
            let outs = self.delta_plus(node);
            let ghost before = result@;
            let mut k: usize = 0;
            while k < outs.len()
                invariant
                    self.wf(),
                    outs@ == out_arcs(self.arcs@, node as int),
                    k <= outs@.len(),
                    in_set@.len() == self.out_adjacency@.len(),
                    forall|j: int| 0 <= j < in_set@.len() ==> (#[trigger] in_set@[j] <==> exists|q: int| 0 <= q < w@.len() && w@[q] as int == j),
                    result@ == before + leaving_of(outs@.subrange(0, k as int), w@),
                decreases outs@.len() - k,
            {
                let (head, arc_id) = outs[k];
                proof {
                    lemma_out_arcs_sound(self.arcs@, node as int, k as int);
                    assert(outs@.subrange(0, k + 1).drop_last() == outs@.subrange(0, k as int));
                    if w@.contains(head) {
                        let q = choose|q: int| 0 <= q < w@.len() && #[trigger] w@[q] == head;
                        assert(w@[q] < self.out_adjacency@.len());
                        assert(in_set@[head as int]);
                    }
                    if (head as usize) < in_set@.len() && in_set@[head as int] {
                        let q = choose|q: int| 0 <= q < w@.len() && #[trigger] w@[q] as int == head as int;
                        assert(w@.contains(head));
                    }
                }
                if (head as usize) < in_set.len() && in_set[head as usize] {
                } else {
                    result.push(arc_id);
                }
                k += 1;
            }
            assert(outs@.subrange(0, outs@.len() as int) == outs@);
            i += 1;
        }
        result
    }

    pub fn out_degree(&self, node: NodeId) -> (d: usize)
        requires
            self.wf(),
        ensures
            d == out_arcs(self.arcs@, node as int).len(),
    {
        if (node as usize) < self.out_adjacency.len() {
            self.out_adjacency[node as usize].len()
        } else {
            proof {
                lemma_arcs_untouched(self.arcs@, node as int);
            }
            0
        }
    }

    pub fn in_degree(&self, node: NodeId) -> (d: usize)
        requires
            self.wf(),
        ensures
            d == in_arcs(self.arcs@, node as int).len(),
    {
        if (node as usize) < self.in_adjacency.len() {
            self.in_adjacency[node as usize].len()
        } else {
            proof {
                lemma_arcs_untouched(self.arcs@, node as int);
            }
            0
        }
    }

    pub fn num_arcs(&self) -> (m: u32)
        requires
            self.wf(),
        ensures
            m == self.arcs@.len(),
    {
        self.arcs.len() as u32
    }

    /// Replace each edge `{u, w}` by the arcs `(u, w)` and `(w, u)`, emitted as
    /// the consecutive pair `2i, 2i + 1` for edge `i`.
    pub fn from_undirected(graph: &UndirectedGraph) -> (dg: Self)
        requires
            graph.wf(),
            2 * graph.edges@.len() <= u32::MAX,
            graph.num_nodes < usize::MAX,
        ensures
            dg.wf(),
            is_doubling(graph, &dg),
            dg.slots() >= graph.num_nodes + 1,
    {
        let mut dg = Self::new(graph.num_nodes);
        let _slots = graph.adjacency.len();
        let mut i: usize = 0;
        while i < graph.nodes.len()
            invariant
                graph.wf(),
                graph.adjacency@.len() <= usize::MAX,
                dg.wf(),
                dg.num_nodes == graph.num_nodes,
                dg.slots() >= graph.num_nodes + 1,
                dg.arcs@.len() == 0,
                i <= graph.nodes@.len(),
                dg.nodes@ == graph.nodes@.subrange(0, i as int),
            decreases graph.nodes@.len() - i,
        {
            let node = graph.nodes[i];
            dg.add_node(node.id, node.node_type, node.weight);
            assert(graph.nodes@.subrange(0, i + 1) == graph.nodes@.subrange(0, i as int).push(node));
            i += 1;
        }
        assert(graph.nodes@.subrange(0, graph.nodes@.len() as int) == graph.nodes@);
        let mut i: usize = 0;
        while i < graph.edges.len()
            invariant
                graph.wf(),
                graph.adjacency@.len() <= usize::MAX,
                2 * graph.edges@.len() <= u32::MAX,
                dg.wf(),
                dg.num_nodes == graph.num_nodes,
                dg.slots() >= graph.num_nodes + 1,
                dg.nodes@ == graph.nodes@,
                i <= graph.edges@.len(),
                dg.arcs@.len() == 2 * i,
                forall|j: int| 0 <= j < i ==> doubled_pair(#[trigger] graph.edges@[j], dg.arcs@, j),
            decreases graph.edges@.len() - i,
        {
            let edge = graph.edges[i];
            dg.add_arc(edge.src, edge.dst, edge.cost);
            dg.add_arc(edge.dst, edge.src, edge.cost);
            i += 1;
        }
        dg
    }
}

/// Arcs `2j` and `2j + 1` of `arcs` are the two orientations of edge `e`.
pub open spec fn doubled_pair(e: super::types::Edge, arcs: Seq<Arc>, j: int) -> bool {
    &&& arcs[2 * j].tail == e.src && arcs[2 * j].head == e.dst && arcs[2 * j].cost == e.cost
    &&& arcs[2 * j + 1].tail == e.dst && arcs[2 * j + 1].head == e.src && arcs[2 * j + 1].cost == e.cost
}

/// `dg` is the edge-doubling of `graph`.
pub open spec fn is_doubling(graph: &UndirectedGraph, dg: &DirectedGraph) -> bool {
    &&& dg.num_nodes == graph.num_nodes
    &&& dg.nodes@ == graph.nodes@
    &&& dg.arcs@.len() == 2 * graph.edges@.len()
    &&& forall|j: int| 0 <= j < graph.edges@.len() ==> doubled_pair(#[trigger] graph.edges@[j], dg.arcs@, j)
}

/// The ids of the arcs of `outs` whose head lies outside `w`.
pub open spec fn leaving_of(outs: Seq<(NodeId, ArcId)>, w: Seq<NodeId>) -> Seq<ArcId>
    decreases outs.len(),
{
    if outs.len() == 0 {
        Seq::empty()
    } else {
        let pre = leaving_of(outs.drop_last(), w);
        if w.contains(outs.last().0) { pre } else { pre.push(outs.last().1) }
    }
}

/// δ+(W) over the first `i` members of `w`, in the order the members are listed.
pub open spec fn leaving_set(arcs: Seq<Arc>, w: Seq<NodeId>, i: int) -> Seq<ArcId>
    decreases i,
{
    if i <= 0 {
        Seq::empty()
    } else {
        leaving_set(arcs, w, i - 1) + leaving_of(out_arcs(arcs, w[i - 1] as int), w)
    }
}

} // verus!
