//! Shortest-path heuristic (Takahashi & Matsuyama) with spanning-tree cleanup,
//! over the edge-doubled graph.
//!
//! 1. **Grow.** Starting from one vertex, repeatedly attach the nearest
//!    not-yet-connected terminal by a shortest path from the current tree,
//!    found by a search seeded with the whole tree.
//! 2. **Rebuild.** Take a minimum spanning tree (Kruskal) of the subgraph
//!    induced on the touched vertices.
//! 3. **Prune.** Repeatedly delete non-terminal leaves.
//!
//! The result is oriented away from the root. The search weights are supplied
//! separately from the arc costs; the reported cost is always the sum of the
//! arc costs, saturating at `u64::MAX`.
use vstd::prelude::*;
use crate::graph::types::{ArcId, Cost, NodeId, Arc};
use crate::graph::undirected::UndirectedGraph;
use crate::graph::directed::{DirectedGraph, is_doubling, doubled_pair};
use crate::graph::algorithms::dual_ascent::{ArcIndex, ids_out_of, lemma_ids_out_of, count_true, lemma_count_true_le, lemma_count_true_set, lemma_count_true_zero};
use crate::graph::algorithms::rank_reduction::by_cost;
use crate::graph::algorithms::dijkstra::is_path;

verus! {

/// The partner index of arc `a` in the pair `(2i, 2i + 1)`.
pub open spec fn partner(a: int) -> int {
    if a % 2 == 0 { a + 1 } else { a - 1 }
}

/// The anti-parallel partner of an arc. `DirectedGraph::from_undirected`
/// emits each edge as the consecutive pair `(2i, 2i + 1)`.
pub fn sibling(a: ArcId) -> (r: ArcId)
    ensures
        r == partner(a as int),
{
    let r = a ^ 1;
    proof {
        assert(a ^ 1 == if a % 2 == 0 { (a + 1) as u32 } else { (a - 1) as u32 }) by (bit_vector);
    }
    r
}

/// In the edge-doubling of an undirected graph, the sibling of an arc is the
/// same edge traversed the other way, and taking the sibling twice returns the
/// arc.
pub proof fn lemma_sibling_reverses(graph: &UndirectedGraph, dg: &DirectedGraph, a: int)
    requires
        is_doubling(graph, dg),
        0 <= a < dg.arcs@.len(),
    ensures
        0 <= partner(a) < dg.arcs@.len(),
        dg.arcs@[partner(a)].tail == dg.arcs@[a].head,
        dg.arcs@[partner(a)].head == dg.arcs@[a].tail,
        dg.arcs@[partner(a)].cost == dg.arcs@[a].cost,
        partner(partner(a)) == a,
{
    let j = a / 2;
    assert(graph.edges@.len() > j);
    assert(doubled_pair(graph.edges@[j], dg.arcs@, j));
}

/// The arcs come in anti-parallel pairs `(2i, 2i + 1)` of equal cost, as in
/// an edge-doubling.
pub open spec fn paired(arcs: Seq<Arc>) -> bool {
    forall|a: int| 0 <= a < arcs.len() ==> {
        &&& 0 <= #[trigger] partner(a) < arcs.len()
        &&& arcs[partner(a)].tail == arcs[a].head
        &&& arcs[partner(a)].head == arcs[a].tail
        &&& arcs[partner(a)].cost == arcs[a].cost
    }
}

/// The edge-doubling of an undirected graph pairs its arcs.
pub proof fn lemma_doubling_is_paired(graph: &UndirectedGraph, dg: &DirectedGraph)
    requires
        is_doubling(graph, dg),
    ensures
        paired(dg.arcs@),
{
    assert forall|a: int| 0 <= a < dg.arcs@.len() implies {
        &&& 0 <= #[trigger] partner(a) < dg.arcs@.len()
        &&& dg.arcs@[partner(a)].tail == dg.arcs@[a].head
        &&& dg.arcs@[partner(a)].head == dg.arcs@[a].tail
        &&& dg.arcs@[partner(a)].cost == dg.arcs@[a].cost
    } by {
        lemma_sibling_reverses(graph, dg, a);
    }
}

/// `v` belongs to the vertex set `tree_nodes ∪ {root}`.
pub open spec fn inside(tree_nodes: Seq<NodeId>, root: int, v: int) -> bool {
    v == root || tree_nodes.contains(v as NodeId)
}

/// `out` is an arborescence rooted at `root` inside `tree_nodes ∪ {root}`:
/// each arc leaves the root or the head of an earlier arc, no arc enters the
/// root, no two arcs share a head, and each arc or its partner is active.
pub open spec fn oriented_tree(arcs: Seq<Arc>, active: Seq<bool>, root: int, tree_nodes: Seq<NodeId>, out: Seq<ArcId>) -> bool {
    &&& forall|k: int| 0 <= k < out.len() ==> (#[trigger] out[k] as int) < arcs.len()
    &&& forall|k: int| 0 <= k < out.len() ==> active[#[trigger] out[k] as int] || active[partner(out[k] as int)]
    &&& forall|k: int| 0 <= k < out.len() ==> inside(tree_nodes, root, arcs[#[trigger] out[k] as int].tail as int)
        && inside(tree_nodes, root, arcs[out[k] as int].head as int)
    &&& forall|k: int| 0 <= k < out.len() ==> arcs[#[trigger] out[k] as int].head != root
    &&& forall|j: int, k: int| 0 <= j < k < out.len() ==> arcs[#[trigger] out[j] as int].head != arcs[#[trigger] out[k] as int].head
    &&& forall|k: int| 0 <= k < out.len() ==> arcs[#[trigger] out[k] as int].tail == root
        || exists|j: int| 0 <= j < k && arcs[out[j] as int].head == arcs[out[k] as int].tail
}

/// The cost of the arcs of `out`.
pub open spec fn arc_sum(arcs: Seq<Arc>, out: Seq<ArcId>) -> int
    decreases out.len(),
{
    if out.len() == 0 {
        0
    } else {
        arc_sum(arcs, out.drop_last()) + arcs[out.last() as int].cost
    }
}

/// `x`, or `u64::MAX` when it is larger.
pub open spec fn saturated(x: int) -> int {
    if x > u64::MAX { u64::MAX as int } else { x }
}

/// A feasible arborescence: arcs oriented away from the root, and their cost.
#[derive(Debug, Clone)]
pub struct SphResult {
    pub arcs: Vec<ArcId>,
    pub cost: Cost,
}

/// Scratch buffers reused across runs.
pub struct SphWorkspace {
    pub dist: Vec<Cost>,
    pub parent_arc: Vec<u32>,
    pub in_tree: Vec<bool>,
    pub visited: Vec<bool>,
    pub settled: Vec<bool>,
    /// The single-start results of the last multi-start run, one per start.
    pub runs: Ghost<Seq<Option<SphResult>>>,
}

impl SphWorkspace {
    /// Buffers for `n` vertices.
    pub open spec fn wf(&self, n: int) -> bool {
        &&& self.dist@.len() == n
        &&& self.parent_arc@.len() == n
        &&& self.in_tree@.len() == n
        &&& self.visited@.len() == n
        &&& self.settled@.len() == n
    }

    pub fn new(num_nodes: usize) -> (ws: Self)
        ensures
            ws.wf(num_nodes as int),
    {
        SphWorkspace {
            dist: vec![u64::MAX; num_nodes],
            parent_arc: vec![u32::MAX; num_nodes],
            in_tree: vec![false; num_nodes],
            visited: vec![false; num_nodes],
            settled: vec![false; num_nodes],
            runs: Ghost(Seq::empty()),
        }
    }
}

/// Union-find with path halving. The ghost `level` rises strictly along
/// parent links and stays within `0..=bound`.
pub open spec fn uf_ok(p: Seq<u32>, level: Seq<int>, bound: int) -> bool {
    &&& p.len() == level.len()
    &&& forall|i: int| 0 <= i < p.len() ==> (#[trigger] p[i] as int) < p.len()
    &&& forall|i: int| 0 <= i < p.len() && p[i] != i ==> level[i] < level[#[trigger] p[i] as int]
    &&& forall|i: int| 0 <= i < p.len() ==> 0 <= #[trigger] level[i] <= bound
}

/// The root of `x`, halving the path on the way.
pub(crate) fn find(p: &mut Vec<u32>, x: u32, Ghost(level): Ghost<Seq<int>>, Ghost(bound): Ghost<int>) -> (r: u32)
    requires
        uf_ok(old(p)@, level, bound),
        (x as int) < old(p)@.len(),
    ensures
        uf_ok(final(p)@, level, bound),
        (r as int) < final(p)@.len(),
        final(p)@[r as int] == r,
{
    let mut x = x;
    while p[x as usize] != x
        invariant
            uf_ok(p@, level, bound),
            (x as int) < p@.len(),
        decreases bound - level[x as int],
    {
        let px = p[x as usize];
        let gp = p[px as usize];
        p.set(x as usize, gp);
        proof {
            assert(level[x as int] < level[px as int]);
            if gp != px {
                assert(level[px as int] < level[gp as int]);
            }
            assert forall|i: int| 0 <= i < p@.len() && p@[i] != i implies level[i] < level[#[trigger] p@[i] as int] by {}
        }
        x = gp;
    }
    x
}

/// The sum of a sequence of counts.
pub open spec fn usum(s: Seq<usize>) -> int
    decreases s.len(),
{
    if s.len() == 0 { 0 } else { usum(s.drop_last()) + s.last() }
}

pub(crate) proof fn lemma_usum_update(s: Seq<usize>, i: int, x: usize)
    requires
        0 <= i < s.len(),
    ensures
        usum(s.update(i, x)) == usum(s) - s[i] + x,
    decreases s.len(),
{
    let u = s.update(i, x);
    if i == s.len() - 1 {
        assert(u.drop_last() =~= s.drop_last());
    } else {
        lemma_usum_update(s.drop_last(), i, x);
        assert(u.drop_last() =~= s.drop_last().update(i, x));
    }
}

pub(crate) proof fn lemma_usum_nonneg(s: Seq<usize>)
    ensures
        usum(s) >= 0,
    decreases s.len(),
{
    if s.len() > 0 {
        lemma_usum_nonneg(s.drop_last());
    }
}

/// Every adjacency entry `(x, a)` at `w` names an active arc between `w` and
/// `x`, both in `tree_nodes ∪ {root}`.
pub open spec fn adj_ok(adj: Seq<Vec<(NodeId, ArcId)>>, arcs: Seq<Arc>, active: Seq<bool>, tree_nodes: Seq<NodeId>, root: int) -> bool {
    forall|w: int, k: int| 0 <= w < adj.len() && 0 <= k < adj[w]@.len() ==> {
        let (x, a) = #[trigger] adj[w]@[k];
        &&& (a as int) < arcs.len()
        &&& active[a as int]
        &&& (x as int) < adj.len()
        &&& ((arcs[a as int].tail == w && arcs[a as int].head == x) || (arcs[a as int].head == w && arcs[a as int].tail == x))
        &&& inside(tree_nodes, root, w)
        &&& inside(tree_nodes, root, x as int)
    }
}

/// The arc `a` is active, leaves a vertex of `tree_nodes` for a marked
/// vertex, and goes from the smaller id to the larger.
pub open spec fn candidate(arcs: Seq<Arc>, active: Seq<bool>, tree_nodes: Seq<NodeId>, mark: Seq<bool>, a: int) -> bool {
    &&& active[a]
    &&& tree_nodes.contains(arcs[a].tail)
    &&& mark[arcs[a].head as int]
    &&& arcs[a].tail < arcs[a].head
}

/// The active arcs `(u, w)` with `u` in `tree_nodes`, `w` marked in
/// `inside_mark` and `u < w`, with their costs, in the order met.
fn collect_candidates(
    idx: &ArcIndex,
    active: &[bool],
    tree_nodes: &[NodeId],
    inside_mark: &Vec<bool>,
    Ghost(rt): Ghost<int>,
) -> (r: (Vec<ArcId>, Vec<Cost>))
    requires
        idx.wf(),
        active@.len() >= idx.tails@.len(),
        inside_mark@.len() == idx.num_nodes,
        forall|i: int| 0 <= i < tree_nodes.len() ==> (#[trigger] tree_nodes[i] as int) < idx.num_nodes,
        forall|w: int| 0 <= w < idx.num_nodes && #[trigger] inside_mark@[w] ==> inside(tree_nodes@, rt, w),
    ensures
        r.0@.len() == r.1@.len(),
        forall|c: int| 0 <= c < r.0@.len() ==> {
            &&& (#[trigger] r.0@[c] as int) < idx.arcs().len()
            &&& active@[r.0@[c] as int]
            &&& inside(tree_nodes@, rt, idx.arcs()[r.0@[c] as int].tail as int)
            &&& inside(tree_nodes@, rt, idx.arcs()[r.0@[c] as int].head as int)
            &&& r.1@[c] == idx.arcs()[r.0@[c] as int].cost
        },
        forall|a: int| 0 <= a < idx.tails@.len() && #[trigger] candidate(idx.arcs(), active@, tree_nodes@, inside_mark@, a)
            ==> r.0@.contains(a as ArcId),
{
    let ghost arcs = idx.arcs();
    let ghost tn = tree_nodes@;
    let mut cands: Vec<ArcId> = Vec::new();
    let mut cand_costs: Vec<Cost> = Vec::new();
    let mut i: usize = 0;
    while i < tree_nodes.len()
        invariant
            idx.wf(),
            arcs == idx.arcs(),
            active@.len() >= idx.tails@.len(),
            inside_mark@.len() == idx.num_nodes,
            tn == tree_nodes@,
            forall|j: int| 0 <= j < tree_nodes.len() ==> (#[trigger] tree_nodes[j] as int) < idx.num_nodes,
            forall|w: int| 0 <= w < idx.num_nodes && #[trigger] inside_mark@[w] ==> inside(tn, rt, w),
            i <= tree_nodes.len(),
            forall|a: int| 0 <= a < arcs.len() && #[trigger] candidate(arcs, active@, tn.take(i as int), inside_mark@, a)
                ==> cands@.contains(a as ArcId),
            cands@.len() == cand_costs@.len(),
            forall|c: int| 0 <= c < cands@.len() ==> {
                &&& (#[trigger] cands@[c] as int) < arcs.len()
                &&& active@[cands@[c] as int]
                &&& inside(tn, rt, arcs[cands@[c] as int].tail as int)
                &&& inside(tn, rt, arcs[cands@[c] as int].head as int)
                &&& cand_costs@[c] == arcs[cands@[c] as int].cost
            },
        decreases tree_nodes.len() - i,
    {
        let t = tree_nodes[i];
        proof {
            assert(tn[i as int] == t);
            assert(tn.contains(t));
            lemma_ids_out_of(arcs, t as int);
        }
        let outs = idx.outgoing(t);
        let mut k: usize = 0;
        while k < outs.len()
            invariant
                idx.wf(),
                arcs == idx.arcs(),
                active@.len() >= idx.tails@.len(),
                inside_mark@.len() == idx.num_nodes,
                forall|w: int| 0 <= w < idx.num_nodes && #[trigger] inside_mark@[w] ==> inside(tn, rt, w),
                tn.contains(t),
                forall|j: int| 0 <= j < outs@.len() ==> (#[trigger] outs@[j]) < arcs.len() && arcs[outs@[j] as int].tail == t,
                k <= outs@.len(),
                i < tn.len(),
                t == tn[i as int],
                outs@ == ids_out_of(arcs, t as int),
                forall|a: int| 0 <= a < arcs.len() && #[trigger] candidate(arcs, active@, tn.take(i as int), inside_mark@, a)
                    ==> cands@.contains(a as ArcId),
                forall|q: int| 0 <= q < k && candidate(arcs, active@, tn, inside_mark@, #[trigger] outs@[q] as int)
                    ==> cands@.contains(outs@[q]),
                cands@.len() == cand_costs@.len(),
                forall|c: int| 0 <= c < cands@.len() ==> {
                    &&& (#[trigger] cands@[c] as int) < arcs.len()
                    &&& active@[cands@[c] as int]
                    &&& inside(tn, rt, arcs[cands@[c] as int].tail as int)
                    &&& inside(tn, rt, arcs[cands@[c] as int].head as int)
                    &&& cand_costs@[c] == arcs[cands@[c] as int].cost
                },
            decreases outs@.len() - k,
        {
            let a = outs[k];
            let ghost before = cands@;
            if active[a as usize] {
                let h = idx.head(a);
                if inside_mark[h as usize] && idx.tail(a) < h {
                    cands.push(a);
                    cand_costs.push(idx.cost(a));
                }
            }
            proof {
                assert forall|x: ArcId| #[trigger] before.contains(x) implies cands@.contains(x) by {
                    let q = choose|q: int| 0 <= q < before.len() && before[q] == x;
                    assert(cands@[q] == x);
                }
                if candidate(arcs, active@, tn, inside_mark@, a as int) {
                    assert(cands@[cands@.len() - 1] == a);
                }
            }
            k += 1;
        }
        proof {
            assert forall|b: int| 0 <= b < arcs.len() && #[trigger] candidate(arcs, active@, tn.take(i + 1), inside_mark@, b)
                implies cands@.contains(b as ArcId) by {
                let z = choose|z: int| 0 <= z < i + 1 && #[trigger] tn.take(i + 1)[z] == arcs[b].tail;
                if z == i {
                    assert(arcs[b].id == b);
                    assert(outs@.contains(b as ArcId));
                    let q = choose|q: int| 0 <= q < outs@.len() && outs@[q] == b as ArcId;
                    assert(tn.contains(arcs[b].tail)) by { assert(tn[i as int] == arcs[b].tail); }
                    assert(candidate(arcs, active@, tn, inside_mark@, outs@[q] as int));
                } else {
                    assert(tn.take(i as int)[z] == arcs[b].tail);
                    assert(candidate(arcs, active@, tn.take(i as int), inside_mark@, b));
                }
            }
        }
        i += 1;
    }
    proof {
        assert(tn.take(tn.len() as int) =~= tn);
    }
    (cands, cand_costs)
}

/// Kruskal over the candidates taken cheapest first: the adjacency lists of
/// the spanning forest it keeps.
fn kruskal(idx: &ArcIndex, active: &[bool], cands: &Vec<ArcId>, cand_costs: &Vec<Cost>, Ghost(tn): Ghost<Seq<NodeId>>, Ghost(rt): Ghost<int>)
    -> (adj: Vec<Vec<(NodeId, ArcId)>>)
    requires
        idx.wf(),
        cands@.len() == cand_costs@.len(),
        forall|c: int| 0 <= c < cands@.len() ==> {
            &&& (#[trigger] cands@[c] as int) < idx.arcs().len()
            &&& active@[cands@[c] as int]
            &&& inside(tn, rt, idx.arcs()[cands@[c] as int].tail as int)
            &&& inside(tn, rt, idx.arcs()[cands@[c] as int].head as int)
        },
    ensures
        adj@.len() == idx.num_nodes,
        adj_ok(adj@, idx.arcs(), active@, tn, rt),
{
    let ghost arcs = idx.arcs();
    let n = idx.num_nodes();
    let order = by_cost(cand_costs.as_slice());
    let mut parent: Vec<u32> = Vec::new();
    let mut v: usize = 0;
    while v < n
        invariant
            n == idx.num_nodes,
            n <= u32::MAX,
            v <= n,
            parent@.len() == v,
            forall|w: int| 0 <= w < v ==> #[trigger] parent@[w] == w,
        decreases n - v,
    {
        parent.push(v as u32);
        v += 1;
    }
    let ghost mut level: Seq<int> = Seq::new(n as nat, |w: int| 0int);
    let ghost mut bound: int = 0;
    let mut adj: Vec<Vec<(NodeId, ArcId)>> = Vec::new();
    let mut v: usize = 0;
    while v < n
        invariant
            v <= n,
            adj@.len() == v,
            forall|w: int| 0 <= w < v ==> (#[trigger] adj@[w])@ == Seq::<(NodeId, ArcId)>::empty(),
        decreases n - v,
    {
        adj.push(Vec::new());
        v += 1;
    }
    let mut k: usize = 0;
    while k < order.len()
        invariant
            idx.wf(),
            arcs == idx.arcs(),
            n == idx.num_nodes,
            order@.len() == cands@.len(),
            forall|j: int| 0 <= j < order@.len() ==> (#[trigger] order@[j] as int) < cands@.len(),
            forall|c: int| 0 <= c < cands@.len() ==> {
                &&& (#[trigger] cands@[c] as int) < arcs.len()
                &&& active@[cands@[c] as int]
                &&& inside(tn, rt, arcs[cands@[c] as int].tail as int)
                &&& inside(tn, rt, arcs[cands@[c] as int].head as int)
            },
            uf_ok(parent@, level, bound),
            parent@.len() == n,
            adj@.len() == n,
            adj_ok(adj@, arcs, active@, tn, rt),
            k <= order@.len(),
        decreases order@.len() - k,
    {
        let a = cands[order[k]];
        let u = idx.tail(a);
        let w = idx.head(a);
        let ru = find(&mut parent, u, Ghost(level), Ghost(bound));
        let rv = find(&mut parent, w, Ghost(level), Ghost(bound));
        if ru != rv {
            let ghost old_adj = adj@;
            parent.set(ru as usize, rv);
            proof {
                let lv = if level[rv as int] > level[ru as int] { level[rv as int] } else { level[ru as int] + 1 };
                level = level.update(rv as int, lv);
                bound = bound + 1;
                assert forall|i2: int| 0 <= i2 < parent@.len() && parent@[i2] != i2 implies level[i2] < level[#[trigger] parent@[i2] as int] by {}
            }
            adj[u as usize].push((w, a));
            adj[w as usize].push((u, a));
            proof {
                assert forall|x: int, j: int| 0 <= x < adj@.len() && 0 <= j < adj@[x]@.len() implies {
                    let (y, b) = #[trigger] adj@[x]@[j];
                    &&& (b as int) < arcs.len()
                    &&& active@[b as int]
                    &&& (y as int) < adj@.len()
                    &&& ((arcs[b as int].tail == x && arcs[b as int].head == y) || (arcs[b as int].head == x && arcs[b as int].tail == y))
                    &&& inside(tn, rt, x)
                    &&& inside(tn, rt, y as int)
                } by {
                    if j < old_adj[x]@.len() {
                        assert(adj@[x]@[j] == old_adj[x]@[j]);
                    }
                }
            }
        }
        k += 1;
    }
    adj
}

/// Repeatedly delete the non-terminal leaves other than the root: the
/// vertices of `tree_nodes ∪ {root}` that survive.
fn prune_leaves(
    adj: &Vec<Vec<(NodeId, ArcId)>>,
    tree_nodes: &[NodeId],
    root: NodeId,
    is_terminal: &[bool],
    n: usize,
    Ghost(arcs): Ghost<Seq<Arc>>,
    Ghost(active): Ghost<Seq<bool>>,
) -> (alive: Vec<bool>)
    requires
        adj@.len() == n,
        adj_ok(adj@, arcs, active, tree_nodes@, root as int),
        (root as int) < n,
        is_terminal@.len() >= n,
        forall|i: int| 0 <= i < tree_nodes.len() ==> (#[trigger] tree_nodes[i] as int) < n,
    ensures
        alive@.len() == n,
        alive@[root as int],
        forall|w: int| 0 <= w < n && #[trigger] alive@[w] ==> inside(tree_nodes@, root as int, w),
{
    let ghost tn = tree_nodes@;
    let ghost rt = root as int;
    let mut degree: Vec<usize> = Vec::new();
    let mut v: usize = 0;
    while v < n
        invariant
            v <= n,
            adj@.len() == n,
            degree@.len() == v,
        decreases n - v,
    {
        degree.push(adj[v].len());
        v += 1;
    }
    let mut alive: Vec<bool> = vec![false; n];
    let mut i: usize = 0;
    while i < tree_nodes.len()
        invariant
            tn == tree_nodes@,
            forall|j: int| 0 <= j < tree_nodes.len() ==> (#[trigger] tree_nodes[j] as int) < n,
            i <= tree_nodes.len(),
            alive@.len() == n,
            forall|w: int| 0 <= w < n && #[trigger] alive@[w] ==> inside(tn, rt, w),
        decreases tree_nodes.len() - i,
    {
        let t = tree_nodes[i];
        proof {
            assert(tn[i as int] == t);
            assert(tn.contains(t));
        }
        alive.set(t as usize, true);
        i += 1;
    }
    alive.set(root as usize, true);
    let mut queue: Vec<NodeId> = Vec::new();
    let mut i: usize = 0;
    while i < tree_nodes.len()
        invariant
            forall|j: int| 0 <= j < tree_nodes.len() ==> (#[trigger] tree_nodes[j] as int) < n,
            is_terminal@.len() >= n,
            degree@.len() == n,
            i <= tree_nodes.len(),
            forall|j: int| 0 <= j < queue@.len() ==> (#[trigger] queue@[j] as int) < n,
        decreases tree_nodes.len() - i,
    {
        let t = tree_nodes[i];
        if t != root && !is_terminal[t as usize] && degree[t as usize] <= 1 {
            queue.push(t);
        }
        i += 1;
    }
    loop
        invariant
            rt == root as int,
            is_terminal@.len() >= n,
            (root as int) < n,
            degree@.len() == n,
            alive@.len() == n,
            adj@.len() == n,
            adj_ok(adj@, arcs, active, tn, rt),
            forall|w: int| 0 <= w < n && #[trigger] alive@[w] ==> inside(tn, rt, w),
            alive@[rt],
            forall|j: int| 0 <= j < queue@.len() ==> (#[trigger] queue@[j] as int) < n,
        ensures
            alive@.len() == n,
            alive@[rt],
            forall|w: int| 0 <= w < n && #[trigger] alive@[w] ==> inside(tn, rt, w),
        decreases 2 * usum(degree@) + queue@.len(),
    {
        let ghost start = 2 * usum(degree@) + queue@.len();
        proof {
            lemma_usum_nonneg(degree@);
        }
        let ghost before = queue@;
        let v = match queue.pop() {
            None => break,
            Some(v) => v,
        };
        proof {
            assert(before[before.len() - 1] == v);
            assert(queue@.len() == before.len() - 1);
            assert((v as int) < n);
        }
        if !alive[v as usize] || is_terminal[v as usize] || v == root {
            continue;
        }
        if degree[v as usize] > 1 {
            continue;
        }
        alive.set(v as usize, false);
        proof {
            assert(alive@[rt]);
        }
        let mut k: usize = 0;
        while k < adj[v as usize].len()
            invariant
                rt == root as int,
                is_terminal@.len() >= n,
                (root as int) < n,
                (v as int) < n,
                degree@.len() == n,
                alive@.len() == n,
                adj@.len() == n,
                adj_ok(adj@, arcs, active, tn, rt),
                forall|w: int| 0 <= w < n && #[trigger] alive@[w] ==> inside(tn, rt, w),
                alive@[rt],
                forall|j: int| 0 <= j < queue@.len() ==> (#[trigger] queue@[j] as int) < n,
                2 * usum(degree@) + queue@.len() < start,
                k <= adj@[v as int]@.len(),
            decreases adj@[v as int]@.len() - k,
        {
            let (u, _a) = adj[v as usize][k];
            proof {
                assert(adj@[v as int]@[k as int] == (u, _a));
            }
            if alive[u as usize] && degree[u as usize] > 0 {
                let d = degree[u as usize] - 1;
                proof {
                    lemma_usum_update(degree@, u as int, d);
                }
                degree.set(u as usize, d);
                if !is_terminal[u as usize] && u != root && d <= 1 {
                    queue.push(u);
                }
            }
            k += 1;
        }
        proof {
            lemma_usum_nonneg(degree@);
        }
    }
    alive
}

/// Orient the surviving forest away from `root` by a depth-first walk over
/// the live vertices, summing the arc costs.
pub(crate) fn orient(
    idx: &ArcIndex,
    active: &[bool],
    adj: &Vec<Vec<(NodeId, ArcId)>>,
    alive: &Vec<bool>,
    root: NodeId,
    Ghost(tn): Ghost<Seq<NodeId>>,
) -> (r: SphResult)
    requires
        idx.wf(),
        paired(idx.arcs()),
        (root as int) < idx.num_nodes,
        adj@.len() == idx.num_nodes,
        adj_ok(adj@, idx.arcs(), active@, tn, root as int),
        alive@.len() == idx.num_nodes,
        alive@[root as int],
        forall|w: int| 0 <= w < idx.num_nodes && #[trigger] alive@[w] ==> inside(tn, root as int, w),
    ensures
        oriented_tree(idx.arcs(), active@, root as int, tn, r.arcs@),
        r.cost == saturated(arc_sum(idx.arcs(), r.arcs@)),
{
    let ghost arcs = idx.arcs();
    let ghost rt = root as int;
    let n = idx.num_nodes();
    let mut out: Vec<ArcId> = Vec::new();
    let mut cost: Cost = 0;
    let mut seen: Vec<bool> = vec![false; n];
    let mut stack: Vec<NodeId> = Vec::new();
    proof {
        lemma_count_true_zero(n as nat);
        assert(seen@ == Seq::new(n as nat, |w: int| false));
        lemma_count_true_set(seen@, rt);
    }
    seen.set(root as usize, true);
    stack.push(root);
    let mut count: usize = 1;
    while stack.len() > 0
        invariant
            idx.wf(),
            arcs == idx.arcs(),
            rt == root as int,
            paired(arcs),
            n == idx.num_nodes,
            (root as int) < n,
            alive@.len() == n,
            adj@.len() == n,
            adj_ok(adj@, arcs, active@, tn, rt),
            forall|w: int| 0 <= w < n && #[trigger] alive@[w] ==> inside(tn, rt, w),
            seen@.len() == n,
            count == count_true(seen@),
            seen@[rt],
            forall|j: int| 0 <= j < stack@.len() ==> {
                &&& (#[trigger] stack@[j] as int) < n
                &&& alive@[stack@[j] as int]
                &&& (stack@[j] == root || exists|i2: int| 0 <= i2 < out@.len() && arcs[out@[i2] as int].head == stack@[j])
            },
            forall|i2: int| 0 <= i2 < out@.len() ==> seen@[arcs[#[trigger] out@[i2] as int].head as int],
            oriented_tree(arcs, active@, rt, tn, out@),
            cost == saturated(arc_sum(arcs, out@)),
        decreases 2 * (n - count) + stack@.len(),
    {
        proof {
            lemma_count_true_le(seen@);
        }
        let ghost m0 = 2 * (n - count) + stack@.len();
        let ghost before_pop = stack@;
        let v = stack.pop().unwrap();
        proof {
            assert(before_pop[before_pop.len() - 1] == v);
            assert(stack@ == before_pop.drop_last());
        }
        let mut k: usize = 0;
        while k < adj[v as usize].len()
            invariant
                idx.wf(),
                arcs == idx.arcs(),
                rt == root as int,
                paired(arcs),
                n == idx.num_nodes,
                (root as int) < n,
                (v as int) < n,
                alive@[v as int],
                v == root || exists|i2: int| 0 <= i2 < out@.len() && arcs[out@[i2] as int].head == v,
                alive@.len() == n,
                adj@.len() == n,
                adj_ok(adj@, arcs, active@, tn, rt),
                forall|w: int| 0 <= w < n && #[trigger] alive@[w] ==> inside(tn, rt, w),
                seen@.len() == n,
                count == count_true(seen@),
                count <= n,
                seen@[rt],
                forall|j: int| 0 <= j < stack@.len() ==> {
                    &&& (#[trigger] stack@[j] as int) < n
                    &&& alive@[stack@[j] as int]
                    &&& (stack@[j] == root || exists|i2: int| 0 <= i2 < out@.len() && arcs[out@[i2] as int].head == stack@[j])
                },
                forall|i2: int| 0 <= i2 < out@.len() ==> seen@[arcs[#[trigger] out@[i2] as int].head as int],
                oriented_tree(arcs, active@, rt, tn, out@),
                cost == saturated(arc_sum(arcs, out@)),
                2 * (n - count) + stack@.len() < m0,
                k <= adj@[v as int]@.len(),
            decreases adj@[v as int]@.len() - k,
        {
            let (u, a) = adj[v as usize][k];
            proof {
                assert(adj@[v as int]@[k as int] == (u, a));
            }
            if alive[u as usize] && !seen[u as usize] {
                let oriented = if idx.tail(a) == v { a } else { sibling(a) };
                proof {
                    assert(0 <= partner(a as int) < arcs.len());
                    assert(arcs[oriented as int].tail == v);
                    assert(arcs[oriented as int].head == u);
                    lemma_count_true_set(seen@, u as int);
                    lemma_count_true_le(seen@.update(u as int, true));
                }
                let ghost old_out = out@;
                let ghost old_stack = stack@;
                let ghost old_seen = seen@;
                seen.set(u as usize, true);
                count = count + 1;
                out.push(oriented);
                cost = cost.saturating_add(idx.cost(oriented));
                stack.push(u);
                proof {
                    lemma_push_keeps_tree(arcs, active@, rt, tn, old_out, oriented, v as int, u as int, a as int);
                    assert(out@.drop_last() == old_out);
                    assert forall|j: int| 0 <= j < stack@.len() implies {
                        &&& (#[trigger] stack@[j] as int) < n
                        &&& alive@[stack@[j] as int]
                        &&& (stack@[j] == root || exists|i2: int| 0 <= i2 < out@.len() && arcs[out@[i2] as int].head == stack@[j])
                    } by {
                        if j < old_stack.len() {
                            assert(stack@[j] == old_stack[j]);
                            if old_stack[j] != root {
                                let i2 = choose|i2: int| 0 <= i2 < old_out.len() && arcs[old_out[i2] as int].head == old_stack[j];
                                assert(out@[i2] == old_out[i2]);
                            }
                        } else {
                            assert(out@[old_out.len() as int] == oriented);
                        }
                    }
                    assert forall|i2: int| 0 <= i2 < out@.len() implies seen@[arcs[#[trigger] out@[i2] as int].head as int] by {
                        if i2 < old_out.len() {
                            assert(out@[i2] == old_out[i2]);
                        }
                    }
                    assert(v == root || exists|i2: int| 0 <= i2 < out@.len() && arcs[out@[i2] as int].head == v) by {
                        if v != root {
                            let i2 = choose|i2: int| 0 <= i2 < old_out.len() && arcs[old_out[i2] as int].head == v;
                            assert(out@[i2] == old_out[i2]);
                        }
                    }
                }
            }
            k += 1;
        }
    }
    SphResult { arcs: out, cost }
}

/// Appending an arc from a vertex already reached (the root or the head of
/// an earlier arc) to a vertex not reached yet keeps an oriented tree.
proof fn lemma_push_keeps_tree(
    arcs: Seq<Arc>,
    active: Seq<bool>,
    rt: int,
    tn: Seq<NodeId>,
    out: Seq<ArcId>,
    o: ArcId,
    v: int,
    u: int,
    a: int,
)
    requires
        oriented_tree(arcs, active, rt, tn, out),
        paired(arcs),
        0 <= a < arcs.len(),
        active[a],
        (o as int) == a || (o as int) == partner(a),
        (o as int) < arcs.len(),
        arcs[o as int].tail == v,
        arcs[o as int].head == u,
        inside(tn, rt, v),
        inside(tn, rt, u),
        u != rt,
        forall|j: int| 0 <= j < out.len() ==> arcs[#[trigger] out[j] as int].head != u,
        v == rt || exists|j: int| 0 <= j < out.len() && arcs[out[j] as int].head == v,
    ensures
        oriented_tree(arcs, active, rt, tn, out.push(o)),
{
    let o2 = out.push(o);
    assert(partner(partner(a)) == a);
    assert forall|k: int| 0 <= k < o2.len() implies arcs[#[trigger] o2[k] as int].tail == rt
        || exists|j: int| 0 <= j < k && arcs[o2[j] as int].head == arcs[o2[k] as int].tail by {
        if k < out.len() {
            assert(o2[k] == out[k]);
            if arcs[out[k] as int].tail != rt {
                let j = choose|j: int| 0 <= j < k && arcs[out[j] as int].head == arcs[out[k] as int].tail;
                assert(o2[j] == out[j]);
            }
        } else if v != rt {
            let j = choose|j: int| 0 <= j < out.len() && arcs[out[j] as int].head == v;
            assert(o2[j] == out[j]);
        }
    }
    assert forall|j: int, k: int| 0 <= j < k < o2.len() implies
        arcs[#[trigger] o2[j] as int].head != arcs[#[trigger] o2[k] as int].head by {
        assert(o2[j] == out[j]);
        if k < out.len() {
            assert(o2[k] == out[k]);
        }
    }
    assert forall|k: int| 0 <= k < o2.len() implies (#[trigger] o2[k] as int) < arcs.len()
        && (active[o2[k] as int] || active[partner(o2[k] as int)])
        && inside(tn, rt, arcs[o2[k] as int].tail as int)
        && inside(tn, rt, arcs[o2[k] as int].head as int)
        && arcs[o2[k] as int].head != rt by {
        if k < out.len() {
            assert(o2[k] == out[k]);
        }
    }
}

/// Minimum spanning tree of the subgraph induced on `tree_nodes ∪ {root}`
/// over the active arcs, pruned of non-terminal leaves and oriented away from
/// `root`.
fn finalize(
    idx: &ArcIndex,
    active: &[bool],
    root: NodeId,
    tree_nodes: &[NodeId],
    is_terminal: &[bool],
    ws: &mut SphWorkspace,
) -> (r: SphResult)
    requires
        idx.wf(),
        paired(idx.arcs()),
        active@.len() >= idx.tails@.len(),
        (root as int) < idx.num_nodes,
        is_terminal@.len() >= idx.num_nodes,
        forall|i: int| 0 <= i < tree_nodes.len() ==> (#[trigger] tree_nodes[i] as int) < idx.num_nodes,
        old(ws).wf(idx.num_nodes as int),
    ensures
        final(ws).wf(idx.num_nodes as int),
        oriented_tree(idx.arcs(), active@, root as int, tree_nodes@, r.arcs@),
        r.cost == saturated(arc_sum(idx.arcs(), r.arcs@)),
{
    let n = idx.num_nodes();
    let ghost tn = tree_nodes@;
    let ghost rt = root as int;
    // Mark the induced vertex set.
    let mut v: usize = 0;
    while v < n
        invariant
            n == idx.num_nodes,
            ws.wf(n as int),
            v <= n,
            forall|w: int| 0 <= w < v ==> !#[trigger] ws.visited@[w],
        decreases n - v,
    {
        ws.visited.set(v, false);
        v += 1;
    }
    let mut i: usize = 0;
    while i < tree_nodes.len()
        invariant
            n == idx.num_nodes,
            ws.wf(n as int),
            tn == tree_nodes@,
            forall|j: int| 0 <= j < tree_nodes.len() ==> (#[trigger] tree_nodes[j] as int) < n,
            i <= tree_nodes.len(),
            forall|w: int| 0 <= w < n && #[trigger] ws.visited@[w] ==> inside(tn, rt, w),
        decreases tree_nodes.len() - i,
    {
        let t = tree_nodes[i];
        proof {
            assert(tn[i as int] == t);
            assert(tn.contains(t));
        }
        ws.visited.set(t as usize, true);
        i += 1;
    }
    ws.visited.set(root as usize, true);
    let (cands, cand_costs) = collect_candidates(idx, active, tree_nodes, &ws.visited, Ghost(rt));
    let adj = kruskal(idx, active, &cands, &cand_costs, Ghost(tn), Ghost(rt));
    let alive = prune_leaves(&adj, tree_nodes, root, is_terminal, n, Ghost(idx.arcs()), Ghost(active@));
    orient(idx, active, &adj, &alive, root, Ghost(tn))
}

/// `p` leads from `s` to `v` over active arcs.
pub open spec fn active_path(arcs: Seq<Arc>, active: Seq<bool>, s: int, v: int, p: Seq<ArcId>) -> bool {
    is_path(arcs, s, v, p) && forall|i: int| 0 <= i < p.len() ==> active[#[trigger] p[i] as int]
}

/// `v` is reached from `s` over active arcs.
pub open spec fn reaches(arcs: Seq<Arc>, active: Seq<bool>, s: int, v: int) -> bool {
    exists|p: Seq<ArcId>| active_path(arcs, active, s, v, p)
}

/// The terminal list has no repeats and `is_terminal` marks exactly its
/// members among the vertices `0..n`.
pub open spec fn terminals_consistent(terminals: Seq<NodeId>, is_terminal: Seq<bool>, n: int) -> bool {
    &&& terminals.no_duplicates()
    &&& forall|v: int| 0 <= v < n ==> (#[trigger] is_terminal[v] <==> terminals.contains(v as NodeId))
}

/// The number of list entries other than `start` marked in `in_tree`.
pub open spec fn tcount(terminals: Seq<NodeId>, start: int, in_tree: Seq<bool>) -> int
    decreases terminals.len(),
{
    if terminals.len() == 0 {
        0
    } else {
        tcount(terminals.drop_last(), start, in_tree)
            + if terminals.last() != start && in_tree[terminals.last() as int] { 1int } else { 0int }
    }
}

/// The number of list entries other than `start`.
pub open spec fn others(terminals: Seq<NodeId>, start: int) -> int
    decreases terminals.len(),
{
    if terminals.len() == 0 {
        0
    } else {
        others(terminals.drop_last(), start) + if terminals.last() != start { 1int } else { 0int }
    }
}

proof fn lemma_tcount_le(terminals: Seq<NodeId>, start: int, in_tree: Seq<bool>)
    ensures
        0 <= tcount(terminals, start, in_tree) <= others(terminals, start),
        tcount(terminals, start, in_tree) == others(terminals, start) <==>
            forall|i: int| 0 <= i < terminals.len() && terminals[i] != start ==> in_tree[#[trigger] terminals[i] as int],
    decreases terminals.len(),
{
    if terminals.len() > 0 {
        let pre = terminals.drop_last();
        lemma_tcount_le(pre, start, in_tree);
        assert forall|i: int| 0 <= i < pre.len() implies #[trigger] pre[i] == terminals[i] by {}
        if tcount(terminals, start, in_tree) == others(terminals, start) {
            assert forall|i: int| 0 <= i < terminals.len() && terminals[i] != start implies in_tree[#[trigger] terminals[i] as int] by {
                if i < pre.len() {
                    assert(pre[i] == terminals[i]);
                }
            }
        }
        if forall|i: int| 0 <= i < terminals.len() && terminals[i] != start ==> in_tree[#[trigger] terminals[i] as int] {
            assert forall|i: int| 0 <= i < pre.len() && pre[i] != start implies in_tree[#[trigger] pre[i] as int] by {
                assert(pre[i] == terminals[i]);
            }
            let l = terminals.len() - 1;
            assert(terminals[l] != start ==> in_tree[terminals[l] as int]);
        }
    }
}

/// Marking one more vertex raises the count by one exactly when it is a
/// listed terminal other than `start`, if the list has no repeats.
proof fn lemma_tcount_mark(terminals: Seq<NodeId>, start: int, in_tree: Seq<bool>, v: int)
    requires
        terminals.no_duplicates(),
        0 <= v < in_tree.len(),
        v <= u32::MAX,
        !in_tree[v],
        forall|i: int| 0 <= i < terminals.len() ==> (#[trigger] terminals[i] as int) < in_tree.len(),
    ensures
        tcount(terminals, start, in_tree.update(v, true)) == tcount(terminals, start, in_tree)
            + if v != start && terminals.contains(v as NodeId) { 1int } else { 0int },
    decreases terminals.len(),
{
    if terminals.len() > 0 {
        let pre = terminals.drop_last();
        assert(pre.no_duplicates()) by {
            assert forall|i: int, j: int| 0 <= i < pre.len() && 0 <= j < pre.len() && i != j implies pre[i] != pre[j] by {
                assert(pre[i] == terminals[i] && pre[j] == terminals[j]);
            }
        }
        assert forall|i: int| 0 <= i < pre.len() implies (#[trigger] pre[i] as int) < in_tree.len() by {
            assert(pre[i] == terminals[i]);
        }
        lemma_tcount_mark(pre, start, in_tree, v);
        let l = terminals.len() - 1;
        let t = terminals[l] as int;
        assert(in_tree.update(v, true)[t] == (in_tree[t] || t == v));
        if terminals.contains(v as NodeId) {
            let k = choose|k: int| 0 <= k < terminals.len() && terminals[k] == v as NodeId;
            if k < l {
                assert(pre[k] == terminals[k]);
                assert(pre.contains(v as NodeId));
                assert(terminals[l] != terminals[k]);
            } else {
                if pre.contains(v as NodeId) {
                    let k2 = choose|k2: int| 0 <= k2 < pre.len() && pre[k2] == v as NodeId;
                    assert(terminals[k2] == pre[k2]);
                }
            }
        } else {
            if pre.contains(v as NodeId) {
                let k2 = choose|k2: int| 0 <= k2 < pre.len() && pre[k2] == v as NodeId;
                assert(terminals[k2] == pre[k2]);
            }
            assert(terminals[l] != v as NodeId);
        }
    }
}

proof fn lemma_active_path_push(arcs: Seq<Arc>, active: Seq<bool>, s: int, v: int, p: Seq<ArcId>, a: ArcId)
    requires
        active_path(arcs, active, s, v, p),
        (a as int) < arcs.len(),
        active[a as int],
        arcs[a as int].tail == v,
    ensures
        active_path(arcs, active, s, arcs[a as int].head as int, p.push(a)),
{
    let q = p.push(a);
    assert forall|i: int| 0 <= i < q.len() implies active[#[trigger] q[i] as int] && (q[i] as int) < arcs.len() by {
        if i < p.len() {
            assert(q[i] == p[i]);
        }
    }
    if p.len() > 0 {
        assert(q[0] == p[0]);
        assert forall|i: int| 0 <= i < q.len() - 1 implies arcs[#[trigger] q[i] as int].head == arcs[q[i + 1] as int].tail by {
            assert(q[i] == p[i]);
            if i + 1 < p.len() {
                assert(q[i + 1] == p[i + 1]);
            }
        }
    }
}

/// A vertex set that holds `s` and the head of every active arc leaving one
/// of its members holds every vertex reached from `s`.
proof fn lemma_closed_holds_reach(arcs: Seq<Arc>, active: Seq<bool>, s: int, member: Seq<bool>, v: int, p: Seq<ArcId>)
    requires
        0 <= s < member.len(),
        member[s],
        forall|a: int| 0 <= a < arcs.len() ==> arcs[a].tail < member.len() && arcs[a].head < member.len(),
        forall|a: int| 0 <= a < arcs.len() && active[a] && member[#[trigger] arcs[a].tail as int] ==> member[arcs[a].head as int],
        active_path(arcs, active, s, v, p),
    ensures
        member[v],
    decreases p.len(),
{
    if p.len() > 0 {
        let q = p.drop_last();
        let a = p.last();
        let w = arcs[a as int].tail as int;
        if q.len() > 0 {
            assert forall|i: int| 0 <= i < q.len() implies active[#[trigger] q[i] as int] && (q[i] as int) < arcs.len() by {
                assert(q[i] == p[i]);
            }
            assert forall|i: int| 0 <= i < q.len() - 1 implies arcs[#[trigger] q[i] as int].head == arcs[q[i + 1] as int].tail by {
                assert(q[i] == p[i] && q[i + 1] == p[i + 1]);
            }
            assert(q[0] == p[0]);
            assert(arcs[q[q.len() - 1] as int].head == arcs[p[p.len() - 1] as int].tail);
        }
        assert(active_path(arcs, active, s, w, q));
        lemma_closed_holds_reach(arcs, active, s, member, w, q);
        assert(active[a as int]);
    }
}

/// The first vertex that is reached but not settled with the least tentative
/// distance, if any.
fn select_min(ws: &SphWorkspace, n: usize) -> (r: Option<usize>)
    requires
        ws.wf(n as int),
    ensures
        match r {
            Some(v) => v < n && ws.visited@[v as int] && !ws.settled@[v as int],
            None => forall|w: int| 0 <= w < n ==> !(#[trigger] ws.visited@[w]) || ws.settled@[w],
        },
{
    let mut best: Option<usize> = None;
    let mut v: usize = 0;
    while v < n
        invariant
            ws.wf(n as int),
            v <= n,
            match best {
                Some(b) => b < n && ws.visited@[b as int] && !ws.settled@[b as int],
                None => forall|w: int| 0 <= w < v ==> !(#[trigger] ws.visited@[w]) || ws.settled@[w],
            },
        decreases n - v,
    {
        if ws.visited[v] && !ws.settled[v] {
            match best {
                None => {
                    best = Some(v);
                },
                Some(b) => {
                    if ws.dist[v] < ws.dist[b] {
                        best = Some(v);
                    }
                },
            }
        }
        v += 1;
    }
    best
}

/// The search state: reached vertices are reachable from `start`, settled
/// ones are reached, each reached vertex outside the tree names an active
/// parent arc from a settled vertex settled before it, and the tree is reached.
pub open spec fn search_ok(ws: &SphWorkspace, arcs: Seq<Arc>, active: Seq<bool>, start: int, n: int, ord: Seq<int>, time: int) -> bool {
    &&& ord.len() == n
    &&& forall|v: int| 0 <= v < n && #[trigger] ws.settled@[v] ==> ws.visited@[v] && 0 <= ord[v] < time
    &&& forall|v: int| 0 <= v < n && #[trigger] ws.visited@[v] ==> reaches(arcs, active, start, v)
    &&& forall|v: int| 0 <= v < n && #[trigger] ws.in_tree@[v] ==> ws.visited@[v]
    &&& forall|v: int| 0 <= v < n && #[trigger] ws.visited@[v] && !ws.in_tree@[v] ==> {
        let a = ws.parent_arc@[v] as int;
        &&& 0 <= a < arcs.len()
        &&& active[a]
        &&& arcs[a].head == v
        &&& (arcs[a].tail as int) < n
        &&& ws.settled@[arcs[a].tail as int]
        &&& (ws.settled@[v] ==> ord[arcs[a].tail as int] < ord[v])
    }
}

/// One search outward from the current tree, over active arcs weighted by
/// `weights`, settling the cheapest reached vertex first. Stops at the first
/// settled terminal outside the tree, or when nothing is left to settle.
fn grow_search(
    idx: &ArcIndex,
    active: &[bool],
    weights: &[Cost],
    is_terminal: &[bool],
    tree_nodes: &Vec<NodeId>,
    ws: &mut SphWorkspace,
    Ghost(start): Ghost<int>,
) -> (r: (Option<usize>, Ghost<Seq<int>>))
    requires
        idx.wf(),
        active@.len() >= idx.tails@.len(),
        weights@.len() >= idx.tails@.len(),
        is_terminal@.len() >= idx.num_nodes,
        old(ws).wf(idx.num_nodes as int),
        forall|i: int| 0 <= i < tree_nodes@.len() ==> (#[trigger] tree_nodes@[i] as int) < idx.num_nodes,
        forall|v: int| 0 <= v < idx.num_nodes ==> (#[trigger] old(ws).in_tree@[v] <==> tree_nodes@.contains(v as NodeId)),
        forall|v: int| 0 <= v < idx.num_nodes && #[trigger] old(ws).in_tree@[v] ==> reaches(idx.arcs(), active@, start, v),
    ensures
        final(ws).wf(idx.num_nodes as int),
        final(ws).in_tree == old(ws).in_tree,
        search_ok(final(ws), idx.arcs(), active@, start, idx.num_nodes as int, r.1@, idx.num_nodes as int + 1),
        match r.0 {
            Some(t) => t < idx.num_nodes && is_terminal@[t as int] && !final(ws).in_tree@[t as int] && final(ws).settled@[t as int],
            None => {
                &&& (forall|v: int| 0 <= v < idx.num_nodes && #[trigger] final(ws).visited@[v] ==> final(ws).settled@[v])
                &&& (forall|a: int| 0 <= a < idx.tails@.len() && active@[a] && final(ws).settled@[#[trigger] idx.arcs()[a].tail as int]
                    ==> final(ws).visited@[idx.arcs()[a].head as int])
                &&& (forall|v: int| 0 <= v < idx.num_nodes && #[trigger] final(ws).settled@[v] ==> !(is_terminal@[v] && !final(ws).in_tree@[v]))
            },
        },
{
    let n = idx.num_nodes();
    let ghost arcs = idx.arcs();
    let mut v: usize = 0;
    while v < n
        invariant
            n == idx.num_nodes,
            ws.wf(n as int),
            ws.in_tree == old(ws).in_tree,
            v <= n,
            forall|w: int| 0 <= w < v ==> !#[trigger] ws.visited@[w],
            forall|w: int| 0 <= w < v ==> !#[trigger] ws.settled@[w],
        decreases n - v,
    {
        ws.visited.set(v, false);
        ws.settled.set(v, false);
        v += 1;
    }
    let mut i: usize = 0;
    while i < tree_nodes.len()
        invariant
            n == idx.num_nodes,
            ws.wf(n as int),
            ws.in_tree == old(ws).in_tree,
            forall|j: int| 0 <= j < tree_nodes@.len() ==> (#[trigger] tree_nodes@[j] as int) < n,
            forall|w: int| 0 <= w < n ==> (#[trigger] ws.in_tree@[w] <==> tree_nodes@.contains(w as NodeId)),
            forall|w: int| 0 <= w < n && #[trigger] ws.in_tree@[w] ==> reaches(arcs, active@, start, w),
            i <= tree_nodes@.len(),
            forall|w: int| 0 <= w < n ==> !#[trigger] ws.settled@[w],
            forall|w: int| 0 <= w < n && #[trigger] ws.visited@[w] ==> ws.in_tree@[w],
            forall|j: int| 0 <= j < i ==> ws.visited@[#[trigger] tree_nodes@[j] as int],
        decreases tree_nodes@.len() - i,
    {
        let t = tree_nodes[i] as usize;
        proof {
            assert(tree_nodes@[i as int] == t);
            assert(tree_nodes@.contains(t as NodeId));
        }
        ws.dist.set(t, 0);
        ws.parent_arc.set(t, u32::MAX);
        ws.visited.set(t, true);
        i += 1;
    }
    let ghost mut ord: Seq<int> = Seq::new(n as nat, |w: int| 0int);
    let ghost mut time: int = 0;
    let mut count: usize = 0;
    proof {
        assert forall|w: int| 0 <= w < n && #[trigger] ws.in_tree@[w] implies ws.visited@[w] by {
            assert(tree_nodes@.contains(w as NodeId));
            let j = choose|j: int| 0 <= j < tree_nodes@.len() && tree_nodes@[j] == w as NodeId;
            assert(ws.visited@[tree_nodes@[j] as int]);
        }
        lemma_count_true_zero(n as nat);
        assert(ws.settled@ =~= Seq::new(n as nat, |w: int| false));
    }
    loop
        invariant
            idx.wf(),
            arcs == idx.arcs(),
            n == idx.num_nodes,
            active@.len() >= idx.tails@.len(),
            weights@.len() >= idx.tails@.len(),
            is_terminal@.len() >= n,
            ws.wf(n as int),
            ws.in_tree == old(ws).in_tree,
            search_ok(ws, arcs, active@, start, n as int, ord, time),
            0 <= time <= n,
            count == count_true(ws.settled@),
            count == time,
            forall|a: int| 0 <= a < arcs.len() && active@[a] && ws.settled@[#[trigger] arcs[a].tail as int]
                ==> ws.visited@[arcs[a].head as int],
            forall|w: int| 0 <= w < n && #[trigger] ws.settled@[w] ==> !(is_terminal@[w] && !ws.in_tree@[w]),
        ensures
            ws.wf(n as int),
            ws.in_tree == old(ws).in_tree,
            search_ok(ws, arcs, active@, start, n as int, ord, n as int + 1),
            forall|w: int| 0 <= w < n && #[trigger] ws.visited@[w] ==> ws.settled@[w],
            forall|a: int| 0 <= a < arcs.len() && active@[a] && ws.settled@[#[trigger] arcs[a].tail as int]
                ==> ws.visited@[arcs[a].head as int],
            forall|w: int| 0 <= w < n && #[trigger] ws.settled@[w] ==> !(is_terminal@[w] && !ws.in_tree@[w]),
        decreases n - count,
    {
        proof {
            lemma_count_true_le(ws.settled@);
        }
        let sel = select_min(ws, n);
        let v = match sel {
            None => {
                proof {
                    assert forall|w: int| 0 <= w < n && #[trigger] ws.settled@[w] implies ws.visited@[w] && 0 <= ord[w] < n + 1 by {}
                }
                break;
            },
            Some(v) => v,
        };
        proof {
            lemma_count_true_set(ws.settled@, v as int);
            lemma_count_true_le(ws.settled@.update(v as int, true));
            ord = ord.update(v as int, time);
            time = time + 1;
        }
        ws.settled.set(v, true);
        count = count + 1;
        if is_terminal[v] && !ws.in_tree[v] {
            proof {
                assert forall|w: int| 0 <= w < n && #[trigger] ws.settled@[w] implies ws.visited@[w] && 0 <= ord[w] < n + 1 by {}
                assert forall|w: int| 0 <= w < n && #[trigger] ws.visited@[w] && !ws.in_tree@[w] implies {
                    let a = ws.parent_arc@[w] as int;
                    &&& 0 <= a < arcs.len()
                    &&& active@[a]
                    &&& arcs[a].head == w
                    &&& (arcs[a].tail as int) < n
                    &&& ws.settled@[arcs[a].tail as int]
                    &&& (ws.settled@[w] ==> ord[arcs[a].tail as int] < ord[w])
                } by {}
            }
            return (Some(v), Ghost(ord));
        }
        proof {
            lemma_ids_out_of(arcs, v as int);
        }
        let outs = idx.outgoing(v as NodeId);
        let mut k: usize = 0;
        while k < outs.len()
            invariant
                idx.wf(),
                arcs == idx.arcs(),
                n == idx.num_nodes,
                active@.len() >= idx.tails@.len(),
                weights@.len() >= idx.tails@.len(),
                ws.wf(n as int),
                ws.in_tree == old(ws).in_tree,
                search_ok(ws, arcs, active@, start, n as int, ord, time),
                0 < time <= n,
                v < n,
                ws.settled@[v as int],
                outs@ == ids_out_of(arcs, v as int),
                forall|j: int| 0 <= j < outs@.len() ==> (#[trigger] outs@[j]) < arcs.len() && arcs[outs@[j] as int].tail == v,
                k <= outs@.len(),
                forall|a: int| 0 <= a < arcs.len() && active@[a] && ws.settled@[#[trigger] arcs[a].tail as int] && arcs[a].tail != v
                    ==> ws.visited@[arcs[a].head as int],
                forall|j: int| 0 <= j < k && active@[#[trigger] outs@[j] as int] ==> ws.visited@[arcs[outs@[j] as int].head as int],
                count == time,
                count == count_true(ws.settled@),
                is_terminal@.len() >= n,
                forall|w: int| 0 <= w < n && #[trigger] ws.settled@[w] ==> !(is_terminal@[w] && !ws.in_tree@[w]),
            decreases outs@.len() - k,
        {
            let a = outs[k];
            if active[a as usize] {
                let u = idx.head(a) as usize;
                if !ws.settled[u] {
                    let nd = ws.dist[v].saturating_add(weights[a as usize]);
                    if !ws.visited[u] || nd < ws.dist[u] {
                        proof {
                            let p = choose|p: Seq<ArcId>| active_path(arcs, active@, start, v as int, p);
                            lemma_active_path_push(arcs, active@, start, v as int, p, a);
                        }
                        ws.visited.set(u, true);
                        ws.dist.set(u, nd);
                        ws.parent_arc.set(u, a);
                    }
                }
            }
            k += 1;
        }
        proof {
            assert forall|a: int| 0 <= a < arcs.len() && active@[a] && ws.settled@[#[trigger] arcs[a].tail as int]
                implies ws.visited@[arcs[a].head as int] by {
                if arcs[a].tail == v {
                    assert(outs@.contains(a as ArcId));
                    let j = choose|j: int| 0 <= j < outs@.len() && outs@[j] == a as ArcId;
                    assert(active@[outs@[j] as int]);
                }
            }
        }
    }
    (None, Ghost(ord))
}

/// Some terminal is not reached from `s` over active arcs.
pub open spec fn misses(arcs: Seq<Arc>, active: Seq<bool>, s: int, terminals: Seq<NodeId>) -> bool {
    exists|i: int| 0 <= i < terminals.len() && !reaches(arcs, active, s, #[trigger] terminals[i] as int)
}

/// A result of the heuristic run from `start`: an arborescence rooted at
/// `root`, with its cost, on a vertex set reached from `start` that holds
/// every terminal when the terminal list is consistent.
pub open spec fn sph_tree(
    arcs: Seq<Arc>,
    active: Seq<bool>,
    root: int,
    start: int,
    terminals: Seq<NodeId>,
    is_terminal: Seq<bool>,
    n: int,
    res: SphResult,
) -> bool {
    exists|tn: Seq<NodeId>| {
        &&& #[trigger] oriented_tree(arcs, active, root, tn, res.arcs@)
        &&& res.cost == saturated(arc_sum(arcs, res.arcs@))
        &&& forall|i: int| 0 <= i < tn.len() ==> reaches(arcs, active, start, #[trigger] tn[i] as int)
        &&& terminals_consistent(terminals, is_terminal, n)
            ==> forall|i: int| 0 <= i < terminals.len() ==> tn.contains(#[trigger] terminals[i])
    }
}

/// Run the heuristic once from `start`, with `root` the root of the
/// returned arborescence.
///
/// The tree grows from `start` by attaching, one at a time, the terminal
/// nearest to it under `weights`; its vertex set is then rebuilt by
/// [`mst_prune`]. When the terminal list has no repeats and `is_terminal`
/// marks exactly its members, the result is `None` exactly when some terminal
/// is not reached from `start` over active arcs, and otherwise the grown
/// vertex set holds every terminal.
pub fn shortest_path_heuristic(
    idx: &ArcIndex,
    active: &[bool],
    weights: &[Cost],
    root: NodeId,
    start: NodeId,
    terminals: &[NodeId],
    is_terminal: &[bool],
    ws: &mut SphWorkspace,
) -> (r: Option<SphResult>)
    requires
        idx.wf(),
        paired(idx.arcs()),
        active@.len() >= idx.tails@.len(),
        weights@.len() >= idx.tails@.len(),
        (root as int) < idx.num_nodes,
        (start as int) < idx.num_nodes,
        forall|i: int| 0 <= i < terminals.len() ==> (#[trigger] terminals[i] as int) < idx.num_nodes,
        terminals.len() < usize::MAX,
        is_terminal@.len() >= idx.num_nodes,
        old(ws).wf(idx.num_nodes as int),
    ensures
        final(ws).wf(idx.num_nodes as int),
        r matches Some(res) ==> sph_tree(idx.arcs(), active@, root as int, start as int, terminals@, is_terminal@, idx.num_nodes as int, res),
        terminals_consistent(terminals@, is_terminal@, idx.num_nodes as int) ==> (r is None <==>
            misses(idx.arcs(), active@, start as int, terminals@)),
{
    let n = idx.num_nodes();
    let ghost arcs = idx.arcs();
    let ghost s = start as int;
    let ghost cons = terminals_consistent(terminals@, is_terminal@, n as int);
    let mut v: usize = 0;
    while v < n
        invariant
            n == idx.num_nodes,
            ws.wf(n as int),
            v <= n,
            forall|w: int| 0 <= w < v ==> !#[trigger] ws.in_tree@[w],
        decreases n - v,
    {
        ws.in_tree.set(v, false);
        v += 1;
    }
    proof {
        lemma_count_true_zero(n as nat);
        assert(ws.in_tree@ =~= Seq::new(n as nat, |w: int| false));
        lemma_count_true_set(ws.in_tree@, s);
        assert(active_path(arcs, active@, s, s, Seq::<ArcId>::empty()));
        lemma_tcount_zero(terminals@, s, ws.in_tree@);
        if cons {
            lemma_tcount_mark(terminals@, s, ws.in_tree@, s);
        }
    }
    let mut tree_nodes: Vec<NodeId> = Vec::new();
    tree_nodes.push(start);
    ws.in_tree.set(start as usize, true);
    let mut connected: usize = 1;
    let mut total: usize = 1;
    let mut i: usize = 0;
    while i < terminals.len()
        invariant
            s == start as int,
            terminals.len() < usize::MAX,
            i <= terminals.len(),
            total == 1 + others(terminals@.subrange(0, i as int), s),
            total <= i + 1,
        decreases terminals.len() - i,
    {
        proof {
            assert(terminals@.subrange(0, i + 1).drop_last() == terminals@.subrange(0, i as int));
            assert(terminals@.subrange(0, i + 1).last() == terminals@[i as int]);
        }
        if terminals[i] != start {
            total += 1;
        }
        i += 1;
    }
    proof {
        assert(terminals@.subrange(0, terminals.len() as int) == terminals@);
    }
    let mut i: usize = 0;
    while i < terminals.len()
        invariant
            n == idx.num_nodes,
            ws.wf(n as int),
            forall|j: int| 0 <= j < terminals.len() ==> (#[trigger] terminals[j] as int) < n,
            forall|w: int| 0 <= w < n ==> (#[trigger] ws.in_tree@[w] <==> w == s),
            s == start as int,
            i <= terminals.len(),
            connected == 1,
        decreases terminals.len() - i,
    {
        let t = terminals[i];
        if t != start {
            if ws.in_tree[t as usize] {
                connected += 1;
            }
        }
        i += 1;
    }
    let mut tree_arcs: Vec<ArcId> = Vec::new();
    proof {
        assert(tree_nodes@ == seq![start]);
        assert forall|w: int| 0 <= w < n implies (#[trigger] ws.in_tree@[w] <==> tree_nodes@.contains(w as NodeId)) by {
            if tree_nodes@.contains(w as NodeId) {
                let j = choose|j: int| 0 <= j < tree_nodes@.len() && tree_nodes@[j] == w as NodeId;
            }
            if w == s {
                assert(tree_nodes@[0] == start);
            }
        }
    }
    while connected < total
        invariant
            idx.wf(),
            arcs == idx.arcs(),
            paired(arcs),
            n == idx.num_nodes,
            s == start as int,
            cons == terminals_consistent(terminals@, is_terminal@, n as int),
            active@.len() >= idx.tails@.len(),
            weights@.len() >= idx.tails@.len(),
            (root as int) < n,
            (start as int) < n,
            forall|j: int| 0 <= j < terminals.len() ==> (#[trigger] terminals[j] as int) < n,
            is_terminal@.len() >= n,
            ws.wf(n as int),
            forall|j: int| 0 <= j < tree_nodes@.len() ==> (#[trigger] tree_nodes@[j] as int) < n,
            forall|w: int| 0 <= w < n ==> (#[trigger] ws.in_tree@[w] <==> tree_nodes@.contains(w as NodeId)),
            forall|w: int| 0 <= w < n && #[trigger] ws.in_tree@[w] ==> reaches(arcs, active@, s, w),
            ws.in_tree@[s],
            total == 1 + others(terminals@, s),
            connected <= count_true(ws.in_tree@),
            cons ==> connected == 1 + tcount(terminals@, s, ws.in_tree@),
        decreases n - count_true(ws.in_tree@),
    {
        proof {
            lemma_count_true_le(ws.in_tree@);
        }
        let (found, Ghost(ord)) = grow_search(idx, active, weights, is_terminal, &tree_nodes, ws, Ghost(s));
        let target = match found {
            None => {
                proof {
                    if cons {
                        lemma_tcount_le(terminals@, s, ws.in_tree@);
                        let j = choose|j: int| 0 <= j < terminals.len() && terminals@[j] != s && !ws.in_tree@[#[trigger] terminals@[j] as int];
                        let t = terminals@[j] as int;
                        if reaches(arcs, active@, s, t) {
                            let p = choose|p: Seq<ArcId>| active_path(arcs, active@, s, t, p);
                            lemma_closed_holds_reach(arcs, active@, s, ws.settled@, t, p);
                            assert(terminals@.contains(t as NodeId));
                        }
                    }
                }
                return None;
            },
            Some(t) => t,
        };
        let ghost c0 = count_true(ws.in_tree@);
        let mut v: usize = target;
        while !ws.in_tree[v]
            invariant
                idx.wf(),
                arcs == idx.arcs(),
                n == idx.num_nodes,
                s == start as int,
                cons == terminals_consistent(terminals@, is_terminal@, n as int),
                forall|j: int| 0 <= j < terminals.len() ==> (#[trigger] terminals[j] as int) < n,
                is_terminal@.len() >= n,
                ws.wf(n as int),
                search_ok(ws, arcs, active@, s, n as int, ord, n as int + 1),
                v < n,
                ws.settled@[v as int],
                forall|j: int| 0 <= j < tree_nodes@.len() ==> (#[trigger] tree_nodes@[j] as int) < n,
                forall|w: int| 0 <= w < n ==> (#[trigger] ws.in_tree@[w] <==> tree_nodes@.contains(w as NodeId)),
                forall|w: int| 0 <= w < n && #[trigger] ws.in_tree@[w] ==> reaches(arcs, active@, s, w),
                ws.in_tree@[s],
                connected <= count_true(ws.in_tree@),
                cons ==> connected == 1 + tcount(terminals@, s, ws.in_tree@),
                (v == target && count_true(ws.in_tree@) == c0 && !ws.in_tree@[target as int]) || count_true(ws.in_tree@) > c0,
                count_true(ws.in_tree@) <= n,
            decreases ord[v as int],
        {
            let a = ws.parent_arc[v];
            if a == u32::MAX {
                return None;
            }
            proof {
                lemma_count_true_set(ws.in_tree@, v as int);
                lemma_count_true_le(ws.in_tree@.update(v as int, true));
                if cons {
                    lemma_tcount_mark(terminals@, s, ws.in_tree@, v as int);
                }
            }
            let ghost old_nodes = tree_nodes@;
            tree_arcs.push(a);
            ws.in_tree.set(v, true);
            tree_nodes.push(v as NodeId);
            if is_terminal[v] {
                connected += 1;
            }
            proof {
                assert forall|w: int| 0 <= w < n implies (#[trigger] ws.in_tree@[w] <==> tree_nodes@.contains(w as NodeId)) by {
                    if w == v {
                        assert(tree_nodes@[old_nodes.len() as int] == v as NodeId);
                    } else if old_nodes.contains(w as NodeId) {
                        let j = choose|j: int| 0 <= j < old_nodes.len() && old_nodes[j] == w as NodeId;
                        assert(tree_nodes@[j] == old_nodes[j]);
                    } else if tree_nodes@.contains(w as NodeId) {
                        let j = choose|j: int| 0 <= j < tree_nodes@.len() && tree_nodes@[j] == w as NodeId;
                        if j < old_nodes.len() {
                            assert(tree_nodes@[j] == old_nodes[j]);
                        }
                    }
                }
                assert forall|j: int| 0 <= j < tree_nodes@.len() implies (#[trigger] tree_nodes@[j] as int) < n by {
                    if j < old_nodes.len() {
                        assert(tree_nodes@[j] == old_nodes[j]);
                    }
                }
                if cons {
                    assert(is_terminal@[v as int] <==> terminals@.contains(v as NodeId));
                }
            }
            v = idx.tail(a) as usize;
        }
    }
    let ghost tn = tree_nodes@;
    proof {
        if cons {
            lemma_tcount_le(terminals@, s, ws.in_tree@);
        }
        assert forall|i: int| 0 <= i < tn.len() implies reaches(arcs, active@, s, #[trigger] tn[i] as int) by {
            assert(tn.contains(tn[i]));
            assert(ws.in_tree@[tn[i] as int]);
        }
        if cons {
            assert forall|i: int| 0 <= i < terminals.len() implies tn.contains(#[trigger] terminals@[i]) by {
                let t = terminals@[i] as int;
                if t != s {
                    assert(ws.in_tree@[t]);
                } else {
                    assert(ws.in_tree@[s]);
                }
            }
            assert forall|i: int| 0 <= i < terminals.len() implies reaches(arcs, active@, s, #[trigger] terminals@[i] as int) by {
                assert(tn.contains(terminals@[i]));
                assert(ws.in_tree@[terminals@[i] as int]);
            }
        }
    }
    let r = finalize(idx, active, root, tree_nodes.as_slice(), is_terminal, ws);
    proof {
        assert(oriented_tree(arcs, active@, root as int, tn, r.arcs@));
        assert(r.cost == saturated(arc_sum(idx.arcs(), r.arcs@)));
        assert(forall|i: int| 0 <= i < tn.len() ==> reaches(idx.arcs(), active@, start as int, #[trigger] tn[i] as int));
        assert(terminals_consistent(terminals@, is_terminal@, idx.num_nodes as int)
                ==> forall|i: int| 0 <= i < terminals.len() ==> tn.contains(#[trigger] terminals@[i]));
        assert(sph_tree(idx.arcs(), active@, root as int, start as int, terminals@, is_terminal@, idx.num_nodes as int, r));
    }
    Some(r)
}

proof fn lemma_tcount_zero(terminals: Seq<NodeId>, start: int, in_tree: Seq<bool>)
    requires
        forall|w: int| 0 <= w < in_tree.len() ==> !#[trigger] in_tree[w],
        forall|i: int| 0 <= i < terminals.len() ==> (#[trigger] terminals[i] as int) < in_tree.len(),
    ensures
        tcount(terminals, start, in_tree) == 0,
    decreases terminals.len(),
{
    if terminals.len() > 0 {
        let pre = terminals.drop_last();
        assert forall|i: int| 0 <= i < pre.len() implies (#[trigger] pre[i] as int) < in_tree.len() by {
            assert(pre[i] == terminals[i]);
        }
        lemma_tcount_zero(pre, start, in_tree);
        assert(!in_tree[terminals[terminals.len() - 1] as int]);
    }
}

/// Minimum spanning tree of the subgraph induced on `tree_nodes ∪ {root}`,
/// pruned of non-terminal leaves and oriented away from `root`. Fed the
/// union of the vertex sets of several solutions, it recombines them.
pub fn mst_prune(
    idx: &ArcIndex,
    active: &[bool],
    root: NodeId,
    tree_nodes: &[NodeId],
    is_terminal: &[bool],
    ws: &mut SphWorkspace,
) -> (r: SphResult)
    requires
        idx.wf(),
        paired(idx.arcs()),
        active@.len() >= idx.tails@.len(),
        (root as int) < idx.num_nodes,
        is_terminal@.len() >= idx.num_nodes,
        forall|i: int| 0 <= i < tree_nodes.len() ==> (#[trigger] tree_nodes[i] as int) < idx.num_nodes,
        old(ws).wf(idx.num_nodes as int),
    ensures
        final(ws).wf(idx.num_nodes as int),
        oriented_tree(idx.arcs(), active@, root as int, tree_nodes@, r.arcs@),
        r.cost == saturated(arc_sum(idx.arcs(), r.arcs@)),
{
    finalize(idx, active, root, tree_nodes, is_terminal, ws)
}

/// `o` is what one run of the heuristic from `start` may give: a tree as in
/// [`sph_tree`], and, with a consistent terminal list, `None` exactly when
/// some terminal is not reached from `start`.
pub open spec fn sph_outcome(
    arcs: Seq<Arc>,
    active: Seq<bool>,
    root: int,
    start: int,
    terminals: Seq<NodeId>,
    is_terminal: Seq<bool>,
    n: int,
    o: Option<SphResult>,
) -> bool {
    &&& o matches Some(t) ==> sph_tree(arcs, active, root, start, terminals, is_terminal, n, t)
    &&& terminals_consistent(terminals, is_terminal, n) ==> (o is None <==> misses(arcs, active, start, terminals))
}

/// `r` is the cheapest of the results in `runs`, the first among equals,
/// and `None` only when every run gave `None`.
pub open spec fn first_cheapest(runs: Seq<Option<SphResult>>, r: Option<SphResult>) -> bool {
    &&& r is None <==> forall|i: int| 0 <= i < runs.len() ==> #[trigger] runs[i] is None
    &&& r matches Some(b) ==> exists|j: int| 0 <= j < runs.len() && #[trigger] runs[j] == Some(b)
        && (forall|i: int| 0 <= i < runs.len() && #[trigger] runs[i] is Some ==> b.cost <= runs[i]->Some_0.cost)
        && (forall|i: int| 0 <= i < j && #[trigger] runs[i] is Some ==> b.cost < runs[i]->Some_0.cost)
}

/// The kept result costs no more than any run that gave a tree, and is
/// there whenever one did.
pub proof fn lemma_cheapest_run_bounds(runs: Seq<Option<SphResult>>, r: Option<SphResult>, i: int)
    requires
        first_cheapest(runs, r),
        0 <= i < runs.len(),
        runs[i] is Some,
    ensures
        r is Some,
        r->Some_0.cost <= runs[i]->Some_0.cost,
{
}

/// Run the heuristic from each of `starts` in turn and keep the cheapest
/// result (the first among equals). With a consistent terminal list, the
/// result is `None` exactly when every start misses some terminal.
pub fn best_of_starts(
    idx: &ArcIndex,
    active: &[bool],
    weights: &[Cost],
    root: NodeId,
    terminals: &[NodeId],
    is_terminal: &[bool],
    starts: &[NodeId],
    ws: &mut SphWorkspace,
) -> (r: Option<SphResult>)
    requires
        idx.wf(),
        paired(idx.arcs()),
        active@.len() >= idx.tails@.len(),
        weights@.len() >= idx.tails@.len(),
        (root as int) < idx.num_nodes,
        forall|i: int| 0 <= i < starts.len() ==> (#[trigger] starts[i] as int) < idx.num_nodes,
        forall|i: int| 0 <= i < terminals.len() ==> (#[trigger] terminals[i] as int) < idx.num_nodes,
        terminals.len() < usize::MAX,
        is_terminal@.len() >= idx.num_nodes,
        old(ws).wf(idx.num_nodes as int),
    ensures
        final(ws).wf(idx.num_nodes as int),
        final(ws).runs@.len() == starts.len(),
        forall|i: int| 0 <= i < starts.len() ==> sph_outcome(idx.arcs(), active@, root as int, #[trigger] starts[i] as int,
            terminals@, is_terminal@, idx.num_nodes as int, final(ws).runs@[i]),
        first_cheapest(final(ws).runs@, r),
        r matches Some(res) ==> exists|tn: Seq<NodeId>| {
            &&& #[trigger] oriented_tree(idx.arcs(), active@, root as int, tn, res.arcs@)
            &&& res.cost == saturated(arc_sum(idx.arcs(), res.arcs@))
        },
        terminals_consistent(terminals@, is_terminal@, idx.num_nodes as int) ==> (r is None <==>
            forall|k: int| 0 <= k < starts.len() ==> #[trigger] misses(idx.arcs(), active@, starts[k] as int, terminals@)),
{
    let ghost cons = terminals_consistent(terminals@, is_terminal@, idx.num_nodes as int);
    let ghost mut runs: Seq<Option<SphResult>> = Seq::empty();
    let mut best: Option<SphResult> = None;
    let mut k: usize = 0;
    while k < starts.len()
        invariant
            idx.wf(),
            paired(idx.arcs()),
            active@.len() >= idx.tails@.len(),
            weights@.len() >= idx.tails@.len(),
            (root as int) < idx.num_nodes,
            forall|i: int| 0 <= i < starts.len() ==> (#[trigger] starts[i] as int) < idx.num_nodes,
            forall|i: int| 0 <= i < terminals.len() ==> (#[trigger] terminals[i] as int) < idx.num_nodes,
            terminals.len() < usize::MAX,
            is_terminal@.len() >= idx.num_nodes,
            ws.wf(idx.num_nodes as int),
            cons == terminals_consistent(terminals@, is_terminal@, idx.num_nodes as int),
            k <= starts.len(),
            best matches Some(res) ==> exists|tn: Seq<NodeId>| {
                &&& #[trigger] oriented_tree(idx.arcs(), active@, root as int, tn, res.arcs@)
                &&& res.cost == saturated(arc_sum(idx.arcs(), res.arcs@))
            },
            cons ==> (best is None <==> forall|k2: int| 0 <= k2 < k ==> #[trigger] misses(idx.arcs(), active@, starts[k2] as int, terminals@)),
            runs.len() == k,
            forall|i: int| 0 <= i < k ==> sph_outcome(idx.arcs(), active@, root as int, #[trigger] starts[i] as int,
                terminals@, is_terminal@, idx.num_nodes as int, runs[i]),
            first_cheapest(runs, best),
        decreases starts.len() - k,
    {
        let r = shortest_path_heuristic(idx, active, weights, root, starts[k], terminals, is_terminal, ws);
        let ghost old_runs = runs;
        let ghost old_best = best;
        proof {
            runs = runs.push(r);
        }
        match r {
            Some(res) => {
                let replace = match &best {
                    None => true,
                    Some(b) => res.cost < b.cost,
                };
                if replace {
                    best = Some(res);
                }
            },
            None => {},
        }
        proof {
            lemma_first_cheapest_push(old_runs, old_best, r, best);
        }
        k += 1;
    }
    ws.runs = Ghost(runs);
    best
}

/// Adding a run keeps the cheapest: the new result replaces the old only
/// when strictly cheaper (or when there was none).
pub(crate) proof fn lemma_first_cheapest_push(runs: Seq<Option<SphResult>>, b0: Option<SphResult>, r: Option<SphResult>, b1: Option<SphResult>)
    requires
        first_cheapest(runs, b0),
        b1 == (match r {
            Some(x) => if (match b0 { None => true, Some(b) => x.cost < b.cost }) { Some(x) } else { b0 },
            None => b0,
        }),
    ensures
        first_cheapest(runs.push(r), b1),
{
    let rs = runs.push(r);
    let n = runs.len() as int;
    assert(rs[n] == r);
    assert forall|i: int| 0 <= i < n implies #[trigger] rs[i] == runs[i] by {}
    if b1 is None {
        assert forall|i: int| 0 <= i < rs.len() implies #[trigger] rs[i] is None by {
            if i < n {
                assert(rs[i] == runs[i]);
            }
        }
    } else {
        let b = b1->Some_0;
        if b1 == r && (b0 is None || r->Some_0.cost < b0->Some_0.cost) {
            assert(rs[n] == Some(b));
            assert forall|i: int| 0 <= i < rs.len() && #[trigger] rs[i] is Some implies b.cost <= rs[i]->Some_0.cost by {
                if i < n {
                    assert(rs[i] == runs[i]);
                    if b0 is None {
                        assert(runs[i] is None);
                    } else {
                        let j0 = choose|j0: int| 0 <= j0 < runs.len() && #[trigger] runs[j0] == b0
                            && (forall|i2: int| 0 <= i2 < runs.len() && #[trigger] runs[i2] is Some ==> b0->Some_0.cost <= runs[i2]->Some_0.cost)
                            && (forall|i2: int| 0 <= i2 < j0 && #[trigger] runs[i2] is Some ==> b0->Some_0.cost < runs[i2]->Some_0.cost);
                    }
                }
            }
            assert forall|i: int| 0 <= i < n && #[trigger] rs[i] is Some implies b.cost < rs[i]->Some_0.cost by {
                assert(rs[i] == runs[i]);
                if b0 is None {
                    assert(runs[i] is None);
                } else {
                    let j0 = choose|j0: int| 0 <= j0 < runs.len() && #[trigger] runs[j0] == b0
                        && (forall|i2: int| 0 <= i2 < runs.len() && #[trigger] runs[i2] is Some ==> b0->Some_0.cost <= runs[i2]->Some_0.cost)
                        && (forall|i2: int| 0 <= i2 < j0 && #[trigger] runs[i2] is Some ==> b0->Some_0.cost < runs[i2]->Some_0.cost);
                }
            }
        } else {
            assert(b1 == b0);
            let j0 = choose|j0: int| 0 <= j0 < runs.len() && #[trigger] runs[j0] == b0
                && (forall|i2: int| 0 <= i2 < runs.len() && #[trigger] runs[i2] is Some ==> b0->Some_0.cost <= runs[i2]->Some_0.cost)
                && (forall|i2: int| 0 <= i2 < j0 && #[trigger] runs[i2] is Some ==> b0->Some_0.cost < runs[i2]->Some_0.cost);
            assert(rs[j0] == b1);
            assert forall|i: int| 0 <= i < rs.len() && #[trigger] rs[i] is Some implies b.cost <= rs[i]->Some_0.cost by {
                if i < n {
                    assert(rs[i] == runs[i]);
                }
            }
            assert forall|i: int| 0 <= i < j0 && #[trigger] rs[i] is Some implies b.cost < rs[i]->Some_0.cost by {
                assert(rs[i] == runs[i]);
            }
        }
    }
}

} // verus!
