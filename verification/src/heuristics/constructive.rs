//! Shortest-path constructive heuristic (Takahashi & Matsuyama) over a
//! directed graph, rooted at the instance root.
//!
//! From the root (and, first, the start vertex when it is a terminal), the
//! tree repeatedly takes the shortest path from any of its vertices to the
//! nearest terminal it does not span yet, until every terminal is spanned.
//! Non-terminal leaves are then pruned, repeatedly. Several starts are tried
//! and the cheapest tree kept.
use vstd::prelude::*;
use crate::graph::types::{Arc, ArcId, Cost, NodeId};
use crate::graph::directed::{DirectedGraph, out_arcs, lemma_out_arcs_sound};
use crate::graph::algorithms::dual_ascent::{count_true, lemma_count_true_le, lemma_count_true_set, lemma_count_true_zero};
use crate::model::SteinerSolution;
use super::PrimalHeuristic;
use super::sph::{arc_sum, saturated};

verus! {

/// Marks a vertex no search reached.
pub const UNREACHED: Cost = 0xFFFF_FFFF_FFFF_FFFFu64;

/// Starts tried by default.
pub const DEFAULT_STARTS: u32 = 100;

/// The shortest-path heuristic over `graph`, rooted at `root`.
pub struct ConstructiveHeuristic {
    pub graph: DirectedGraph,
    pub root: NodeId,
    pub terminals: Vec<NodeId>,
    pub num_starts: u32,
}

/// `sol` is made of arcs of `arcs`, costs their sum (saturating), and spans
/// every terminal other than the root.
pub open spec fn solution_ok(arcs: Seq<Arc>, root: NodeId, terminals: Seq<NodeId>, sol: SteinerSolution) -> bool {
    &&& forall|k: int| 0 <= k < sol.arcs@.len() ==> (#[trigger] sol.arcs@[k] as int) < arcs.len()
    &&& sol.objective_value == saturated(arc_sum(arcs, sol.arcs@))
    &&& forall|i: int| 0 <= i < terminals.len() && terminals[i] != root ==> sol.nodes@.contains(#[trigger] terminals[i])
}

/// Setting an entry to `false` never raises the count, and lowers it by one
/// when the entry was `true`.
proof fn lemma_count_true_clear(s: Seq<bool>, i: int)
    requires
        0 <= i < s.len(),
    ensures
        count_true(s.update(i, false)) == count_true(s) - (if s[i] { 1int } else { 0int }),
{
    if s[i] {
        let t = s.update(i, false);
        lemma_count_true_set(t, i);
        assert(t.update(i, true) =~= s);
    } else {
        assert(s.update(i, false) =~= s);
    }
}

/// One search result: distances (or [`UNREACHED`]) and the arc each reached
/// non-source vertex was reached by, from its tail, settled before it.
pub open spec fn tree_search_ok(arcs: Seq<Arc>, n: int, dist: Seq<Cost>, pred: Seq<Option<(NodeId, ArcId)>>, ord: Seq<int>, src: Seq<bool>) -> bool {
    &&& dist.len() == n
    &&& pred.len() == n
    &&& ord.len() == n
    &&& src.len() == n
    &&& forall|x: int| 0 <= x < n && #[trigger] dist[x] != UNREACHED ==> ord[x] >= 0
    &&& forall|x: int| 0 <= x < n && dist[x] != UNREACHED && (#[trigger] pred[x]) is None ==> src[x]
    &&& forall|x: int| 0 <= x < n && dist[x] != UNREACHED && (#[trigger] pred[x]) is Some ==> {
        let (t, a) = pred[x]->Some_0;
        &&& 0 <= a < arcs.len()
        &&& arcs[a as int].tail == t
        &&& arcs[a as int].head == x
        &&& (t as int) < n
        &&& dist[t as int] != UNREACHED
        &&& ord[t as int] < ord[x]
    }
}

/// The search in progress, as in [`tree_search_ok`] with a parent settled
/// before its child only once the child is settled.
pub open spec fn msd_inv(arcs: Seq<Arc>, n: int, dist: Seq<Cost>, pred: Seq<Option<(NodeId, ArcId)>>, settled: Seq<bool>, ord: Seq<int>, time: int, src: Seq<bool>) -> bool {
    &&& dist.len() == n
    &&& pred.len() == n
    &&& settled.len() == n
    &&& ord.len() == n
    &&& src.len() == n
    &&& forall|x: int| 0 <= x < n && #[trigger] settled[x] ==> dist[x] != UNREACHED && 0 <= ord[x] < time
    &&& forall|x: int| 0 <= x < n && dist[x] != UNREACHED && (#[trigger] pred[x]) is None ==> src[x]
    &&& forall|x: int| 0 <= x < n && dist[x] != UNREACHED && (#[trigger] pred[x]) is Some ==> {
        let (t, a) = pred[x]->Some_0;
        &&& 0 <= a < arcs.len()
        &&& arcs[a as int].tail == t
        &&& arcs[a as int].head == x
        &&& (t as int) < n
        &&& settled[t as int]
        &&& (settled[x] ==> ord[t as int] < ord[x])
    }
}

/// Shortest distances from a set of sources, all at distance zero, over the
/// arcs weighted by `costs` (sums saturate). Vertices are settled cheapest
/// first, ties towards the larger id; each improvement records the arc.
fn multi_source_dijkstra(graph: &DirectedGraph, sources: &Vec<NodeId>, costs: &Vec<Cost>)
    -> (r: (Vec<Cost>, Vec<Option<(NodeId, ArcId)>>, Ghost<Seq<int>>, Ghost<Seq<bool>>))
    requires
        graph.wf(),
        costs@.len() >= graph.arcs@.len(),
        forall|j: int| 0 <= j < sources@.len() ==> (#[trigger] sources@[j] as int) < graph.slots(),
    ensures
        tree_search_ok(graph.arcs@, graph.slots(), r.0@, r.1@, r.2@, r.3@),
        forall|x: int| 0 <= x < graph.slots() && #[trigger] r.3@[x] ==> sources@.contains(x as NodeId),
{
    let n = graph.out_adjacency.len();
    let ghost arcs = graph.arcs@;
    let mut dist: Vec<Cost> = Vec::new();
    let mut pred: Vec<Option<(NodeId, ArcId)>> = Vec::new();
    let mut settled: Vec<bool> = Vec::new();
    let mut k: usize = 0;
    while k < n
        invariant
            k <= n,
            dist@.len() == k,
            pred@.len() == k,
            settled@.len() == k,
            forall|x: int| 0 <= x < k ==> #[trigger] dist@[x] == UNREACHED,
            forall|x: int| 0 <= x < k ==> !(#[trigger] settled@[x]),
            forall|x: int| 0 <= x < k ==> (#[trigger] pred@[x]) is None,
        decreases n - k,
    {
        dist.push(UNREACHED);
        pred.push(None);
        settled.push(false);
        k += 1;
    }
    let ghost mut src: Seq<bool> = Seq::new(n as nat, |x: int| false);
    let ghost mut ord: Seq<int> = Seq::new(n as nat, |x: int| 0int);
    let ghost mut time: int = 0;
    let mut s: usize = 0;
    while s < sources.len()
        invariant
            n == graph.slots(),
            forall|j: int| 0 <= j < sources@.len() ==> (#[trigger] sources@[j] as int) < n,
            s <= sources@.len(),
            time == 0,
            forall|x: int| 0 <= x < n ==> !(#[trigger] settled@[x]),
            forall|x: int| 0 <= x < n ==> (#[trigger] pred@[x]) is None,
            msd_inv(arcs, n as int, dist@, pred@, settled@, ord, time, src),
            forall|x: int| 0 <= x < n && #[trigger] src[x] ==> sources@.contains(x as NodeId),
        decreases sources@.len() - s,
    {
        let x = sources[s];
        dist.set(x as usize, 0);
        proof {
            src = src.update(x as int, true);
            assert(sources@[s as int] == x);
        }
        s += 1;
    }
    let mut count: usize = 0;
    proof {
        assert(settled@ =~= Seq::new(n as nat, |x: int| false));
        lemma_count_true_zero(n as nat);
    }
    loop
        invariant
            graph.wf(),
            arcs == graph.arcs@,
            n == graph.slots(),
            costs@.len() >= arcs.len(),
            msd_inv(arcs, n as int, dist@, pred@, settled@, ord, time, src),
            count == count_true(settled@),
            time >= 0,
        ensures
            msd_inv(arcs, n as int, dist@, pred@, settled@, ord, time, src),
            forall|x: int| 0 <= x < n && #[trigger] dist@[x] != UNREACHED ==> settled@[x],
        decreases n - count,
    {
        proof {
            lemma_count_true_le(settled@);
        }
        // The unsettled reached vertex of least distance, larger ids first
        // among equals.
        let mut pick: Option<usize> = None;
        let mut v: usize = 0;
        while v < n
            invariant
                n == dist@.len(),
                n == settled@.len(),
                v <= n,
                match pick {
                    Some(p) => p < n && dist@[p as int] != UNREACHED && !settled@[p as int],
                    None => forall|w: int| 0 <= w < v ==> dist@[w] == UNREACHED || #[trigger] settled@[w],
                },
            decreases n - v,
        {
            if dist[v] != UNREACHED && !settled[v] {
                let better = match pick {
                    None => true,
                    Some(p) => dist[v] <= dist[p],
                };
                if better {
                    pick = Some(v);
                }
            }
            v += 1;
        }
        let x = match pick {
            Some(x) => x,
            None => break,
        };
        proof {
            lemma_count_true_set(settled@, x as int);
            lemma_count_true_le(settled@.update(x as int, true));
        }
        settled.set(x, true);
        count = count + 1;
        proof {
            ord = ord.update(x as int, time);
            time = time + 1;
            assert forall|w: int| 0 <= w < n && dist@[w] != UNREACHED && (#[trigger] pred@[w]) is Some implies {
                let (t, a) = pred@[w]->Some_0;
                &&& 0 <= a < arcs.len()
                &&& arcs[a as int].tail == t
                &&& arcs[a as int].head == w
                &&& (t as int) < n
                &&& settled@[t as int]
                &&& (settled@[w] ==> ord[t as int] < ord[w])
            } by {
                if w == x as int {
                    let (t, a) = pred@[w]->Some_0;
                    assert(t as int != x as int);
                }
            }
        }
        let dx = dist[x];
        let out = graph.delta_plus(x as NodeId);
        let mut i: usize = 0;
        while i < out.len()
            invariant
                graph.wf(),
                arcs == graph.arcs@,
                n == graph.slots(),
                costs@.len() >= arcs.len(),
                (x as int) < n,
                settled@[x as int],
                dx == dist@[x as int],
                dx != UNREACHED,
                out@ == out_arcs(arcs, x as int),
                i <= out@.len(),
                msd_inv(arcs, n as int, dist@, pred@, settled@, ord, time, src),
                count == count_true(settled@),
            decreases out@.len() - i,
        {
            let (head, arc_id) = out[i];
            proof {
                lemma_out_arcs_sound(arcs, x as int, i as int);
            }
            let next_cost = dx.saturating_add(costs[arc_id as usize]);
            if !settled[head as usize] && next_cost < dist[head as usize] {
                dist.set(head as usize, next_cost);
                pred.set(head as usize, Some((x as NodeId, arc_id)));
            }
            i += 1;
        }
    }
    proof {
        assert forall|w: int| 0 <= w < n && #[trigger] dist@[w] != UNREACHED implies ord[w] >= 0 by {
            assert(settled@[w]);
        }
        assert forall|w: int| 0 <= w < n && dist@[w] != UNREACHED && (#[trigger] pred@[w]) is Some implies {
                let (t, a) = pred@[w]->Some_0;
            &&& 0 <= a < arcs.len()
            &&& arcs[a as int].tail == t
            &&& arcs[a as int].head == w
            &&& (t as int) < n
            &&& dist@[t as int] != UNREACHED
            &&& ord[t as int] < ord[w]
        } by {
            assert(settled@[w]);
        }
    }
    (dist, pred, Ghost(ord), Ghost(src))
}

/// The arcs of the search path to `target`, from the sources forward.
fn path_to(graph: &DirectedGraph, dist: &Vec<Cost>, pred: &Vec<Option<(NodeId, ArcId)>>, target: NodeId, Ghost(ord): Ghost<Seq<int>>, Ghost(src): Ghost<Seq<bool>>) -> (path: Vec<ArcId>)
    requires
        graph.wf(),
        tree_search_ok(graph.arcs@, graph.slots(), dist@, pred@, ord, src),
        (target as int) < graph.slots(),
        dist@[target as int] != UNREACHED,
    ensures
        forall|k: int| 0 <= k < path@.len() ==> (#[trigger] path@[k] as int) < graph.arcs@.len(),
        path@.len() == 0 ==> src[target as int],
        path@.len() > 0 ==> graph.arcs@[path@[path@.len() - 1] as int].head == target,
{
    let ghost arcs = graph.arcs@;
    let ghost n = graph.slots();
    let mut back: Vec<ArcId> = Vec::new();
    let mut current = target;
    loop
        invariant
            graph.wf(),
            arcs == graph.arcs@,
            n == graph.slots(),
            tree_search_ok(arcs, n, dist@, pred@, ord, src),
            (current as int) < n,
            dist@[current as int] != UNREACHED,
            forall|k: int| 0 <= k < back@.len() ==> (#[trigger] back@[k] as int) < arcs.len(),
            back@.len() == 0 ==> current == target,
            back@.len() > 0 ==> arcs[back@[0] as int].head == target,
        ensures
            forall|k: int| 0 <= k < back@.len() ==> (#[trigger] back@[k] as int) < arcs.len(),
            back@.len() == 0 ==> src[target as int],
            back@.len() > 0 ==> arcs[back@[0] as int].head == target,
        decreases ord[current as int],
    {
        match pred[current as usize] {
            None => {
                break;
            },
            Some((t, a)) => {
                proof {
                    assert(pred@[current as int] matches Some((t2, a2)) && t2 == t && a2 == a);
                }
                back.push(a);
                current = t;
            },
        }
    }
    // Forward order.
    let mut path: Vec<ArcId> = Vec::new();
    let mut k: usize = back.len();
    while k > 0
        invariant
            k <= back@.len(),
            path@.len() == back@.len() - k,
            forall|j: int| 0 <= j < path@.len() ==> #[trigger] path@[j] == back@[back@.len() - 1 - j],
        decreases k,
    {
        k -= 1;
        path.push(back[k]);
    }
    path
}

/// The tree so far: its vertices (listed once each, the root among them),
/// its arcs (listed once each), and which terminals it spans.
pub open spec fn growth_ok(
    arcs: Seq<Arc>,
    n: int,
    root: NodeId,
    is_term: Seq<bool>,
    unspanned: Seq<bool>,
    in_tree: Seq<bool>,
    tree_nodes: Seq<NodeId>,
    tree_arcs: Seq<ArcId>,
    in_tree_arc: Seq<bool>,
) -> bool {
    &&& is_term.len() == n
    &&& unspanned.len() == n
    &&& in_tree.len() == n
    &&& in_tree_arc.len() == arcs.len()
    &&& (root as int) < n
    &&& in_tree[root as int]
    &&& forall|j: int| 0 <= j < tree_nodes.len() ==> (#[trigger] tree_nodes[j] as int) < n && in_tree[tree_nodes[j] as int]
    &&& forall|x: int| 0 <= x < n && #[trigger] in_tree[x] ==> tree_nodes.contains(x as NodeId)
    &&& forall|x: int| 0 <= x < n && #[trigger] unspanned[x] ==> is_term[x]
    &&& forall|x: int| 0 <= x < n && is_term[x] && !(#[trigger] unspanned[x]) ==> in_tree[x]
    &&& forall|k: int| 0 <= k < tree_arcs.len() ==> (#[trigger] tree_arcs[k] as int) < arcs.len()
    &&& forall|a: int| 0 <= a < arcs.len() && #[trigger] in_tree_arc[a] ==> tree_arcs.contains(a as ArcId)
    &&& forall|x: int| 0 <= x < n && #[trigger] in_tree[x] && x != root ==> touched_by(arcs, tree_arcs, x)
}

/// Some arc of `tree_arcs` has `x` as an end.
pub open spec fn touched_by(arcs: Seq<Arc>, tree_arcs: Seq<ArcId>, x: int) -> bool {
    exists|k: int| 0 <= k < tree_arcs.len() && (arcs[#[trigger] tree_arcs[k] as int].tail == x || arcs[tree_arcs[k] as int].head == x)
}

/// Add the arcs of `path` and their ends to the tree; the ends are spanned.
#[verifier::rlimit(30)]
fn add_path(
    graph: &DirectedGraph,
    path: &Vec<ArcId>,
    root: NodeId,
    is_term: &Vec<bool>,
    unspanned: &mut Vec<bool>,
    in_tree: &mut Vec<bool>,
    tree_nodes: &mut Vec<NodeId>,
    tree_arcs: &mut Vec<ArcId>,
    in_tree_arc: &mut Vec<bool>,
)
    requires
        graph.wf(),
        forall|k: int| 0 <= k < path@.len() ==> (#[trigger] path@[k] as int) < graph.arcs@.len(),
        growth_ok(graph.arcs@, graph.slots(), root, is_term@, old(unspanned)@, old(in_tree)@, old(tree_nodes)@, old(tree_arcs)@, old(in_tree_arc)@),
    ensures
        growth_ok(graph.arcs@, graph.slots(), root, is_term@, final(unspanned)@, final(in_tree)@, final(tree_nodes)@, final(tree_arcs)@, final(in_tree_arc)@),
        count_true(final(unspanned)@) <= count_true(old(unspanned)@),
        forall|x: int| 0 <= x < graph.slots() && #[trigger] final(unspanned)@[x] ==> old(unspanned)@[x],
        path@.len() > 0 ==> final(in_tree)@[graph.arcs@[path@[path@.len() - 1] as int].head as int],
        forall|x: int| 0 <= x < graph.slots() && old(in_tree)@[x] ==> final(in_tree)@[x],
{
    let ghost arcs = graph.arcs@;
    let ghost n = graph.slots();
    let mut k: usize = 0;
    while k < path.len()
        invariant
            graph.wf(),
            arcs == graph.arcs@,
            n == graph.slots(),
            forall|k2: int| 0 <= k2 < path@.len() ==> (#[trigger] path@[k2] as int) < arcs.len(),
            k <= path@.len(),
            growth_ok(arcs, n, root, is_term@, unspanned@, in_tree@, tree_nodes@, tree_arcs@, in_tree_arc@),
            count_true(unspanned@) <= count_true(old(unspanned)@),
            forall|x: int| 0 <= x < n && #[trigger] unspanned@[x] ==> old(unspanned)@[x],
            k > 0 ==> in_tree@[arcs[path@[k - 1] as int].head as int],
            forall|x: int| 0 <= x < n && old(in_tree)@[x] ==> in_tree@[x],
        decreases path@.len() - k,
    {
        let arc_id = path[k];
        let arc = graph.arcs[arc_id as usize];
        proof {
            assert(arcs[arc_id as int].tail < n && arcs[arc_id as int].head < n);
        }
        let ghost ta0 = tree_arcs@;
        if !in_tree_arc[arc_id as usize] {
            in_tree_arc.set(arc_id as usize, true);
            tree_arcs.push(arc_id);
        }
        proof {
            assert(tree_arcs@.contains(arc_id)) by {
                if ta0.len() < tree_arcs@.len() {
                    assert(tree_arcs@[ta0.len() as int] == arc_id);
                } else {
                    assert(in_tree_arc@[arc_id as int]);
                }
            }
            let j = choose|j: int| 0 <= j < tree_arcs@.len() && tree_arcs@[j] == arc_id;
            assert(touched_by(arcs, tree_arcs@, arc.tail as int)) by {
                assert(arcs[tree_arcs@[j] as int].tail == arc.tail);
            }
            assert(touched_by(arcs, tree_arcs@, arc.head as int)) by {
                assert(arcs[tree_arcs@[j] as int].head == arc.head);
            }
            assert forall|x: int| 0 <= x < n && #[trigger] in_tree@[x] && x != root implies touched_by(arcs, tree_arcs@, x) by {
                assert(touched_by(arcs, ta0, x));
                let k2 = choose|k2: int| 0 <= k2 < ta0.len() && (arcs[#[trigger] ta0[k2] as int].tail == x || arcs[ta0[k2] as int].head == x);
                assert(tree_arcs@[k2] == ta0[k2]);
            }
            assert forall|a: int| 0 <= a < arcs.len() && #[trigger] in_tree_arc@[a] implies tree_arcs@.contains(a as ArcId) by {
                if a != arc_id as int {
                    let w = choose|w: int| 0 <= w < ta0.len() && ta0[w] == a as ArcId;
                    assert(tree_arcs@[w] == ta0[w]);
                }
            }
            assert forall|k2: int| 0 <= k2 < tree_arcs@.len() implies (#[trigger] tree_arcs@[k2] as int) < arcs.len() by {
                if k2 < ta0.len() {
                    assert(tree_arcs@[k2] == ta0[k2]);
                }
            }
        }
        let ghost tn0 = tree_nodes@;
        if !in_tree[arc.tail as usize] {
            in_tree.set(arc.tail as usize, true);
            tree_nodes.push(arc.tail);
        }
        proof {
            assert forall|j: int| 0 <= j < tree_nodes@.len() implies (#[trigger] tree_nodes@[j] as int) < n && in_tree@[tree_nodes@[j] as int] by {
                if j < tn0.len() {
                    assert(tree_nodes@[j] == tn0[j]);
                }
            }
            assert forall|x: int| 0 <= x < n && #[trigger] in_tree@[x] implies tree_nodes@.contains(x as NodeId) by {
                if x != arc.tail as int {
                    let w = choose|w: int| 0 <= w < tn0.len() && tn0[w] == x as NodeId;
                    assert(tree_nodes@[w] == tn0[w]);
                } else if tn0.len() < tree_nodes@.len() {
                    assert(tree_nodes@[tn0.len() as int] == arc.tail);
                }
            }
        }
        let ghost tn1 = tree_nodes@;
        if !in_tree[arc.head as usize] {
            in_tree.set(arc.head as usize, true);
            tree_nodes.push(arc.head);
        }
        proof {
            assert forall|j: int| 0 <= j < tree_nodes@.len() implies (#[trigger] tree_nodes@[j] as int) < n && in_tree@[tree_nodes@[j] as int] by {
                if j < tn1.len() {
                    assert(tree_nodes@[j] == tn1[j]);
                }
            }
            assert forall|x: int| 0 <= x < n && #[trigger] in_tree@[x] implies tree_nodes@.contains(x as NodeId) by {
                if x != arc.head as int {
                    let w = choose|w: int| 0 <= w < tn1.len() && tn1[w] == x as NodeId;
                    assert(tree_nodes@[w] == tn1[w]);
                } else if tn1.len() < tree_nodes@.len() {
                    assert(tree_nodes@[tn1.len() as int] == arc.head);
                }
            }
            lemma_count_true_clear(unspanned@, arc.tail as int);
        }
        unspanned.set(arc.tail as usize, false);
        proof {
            lemma_count_true_clear(unspanned@, arc.head as int);
        }
        unspanned.set(arc.head as usize, false);
        k += 1;
    }
}

/// A pointwise smaller list that drops a `true` has fewer `true` entries.
proof fn lemma_count_true_drop(s1: Seq<bool>, s2: Seq<bool>, i: int)
    requires
        s1.len() == s2.len(),
        0 <= i < s1.len(),
        forall|x: int| 0 <= x < s2.len() && #[trigger] s2[x] ==> s1[x],
        s1[i],
        !s2[i],
    ensures
        count_true(s2) < count_true(s1),
    decreases s1.len(),
{
    lemma_count_true_mono(s1.drop_last(), s2.drop_last());
    if i == s1.len() - 1 {
    } else {
        lemma_count_true_drop(s1.drop_last(), s2.drop_last(), i);
    }
}

proof fn lemma_count_true_mono(s1: Seq<bool>, s2: Seq<bool>)
    requires
        s1.len() == s2.len(),
        forall|x: int| 0 <= x < s2.len() && #[trigger] s2[x] ==> s1[x],
    ensures
        count_true(s2) <= count_true(s1),
    decreases s1.len(),
{
    if s1.len() > 0 {
        lemma_count_true_mono(s1.drop_last(), s2.drop_last());
    }
}

/// Remove non-terminal leaves other than the root, repeatedly. The arcs
/// kept and the vertices they still touch.
#[verifier::rlimit(40)]
fn prune_tree(graph: &DirectedGraph, root: NodeId, tree_arcs: &Vec<ArcId>, is_term: &Vec<bool>) -> (r: (Vec<ArcId>, Vec<NodeId>))
    requires
        graph.wf(),
        is_term@.len() == graph.slots(),
        forall|k: int| 0 <= k < tree_arcs@.len() ==> (#[trigger] tree_arcs@[k] as int) < graph.arcs@.len(),
    ensures
        forall|k: int| 0 <= k < r.0@.len() ==> (#[trigger] r.0@[k] as int) < graph.arcs@.len(),
        forall|x: int| 0 <= x < graph.slots() && is_term@[x] && x != root && #[trigger] touched_by(graph.arcs@, tree_arcs@, x)
            ==> r.1@.contains(x as NodeId),
{
    let ghost arcs = graph.arcs@;
    let n = graph.out_adjacency.len();
    let m = graph.arcs.len();
    let mut active_arc: Vec<bool> = Vec::new();
    let mut k: usize = 0;
    while k < m
        invariant
            k <= m,
            active_arc@.len() == k,
        decreases m - k,
    {
        active_arc.push(false);
        k += 1;
    }
    let mut present: Vec<bool> = Vec::new();
    let mut degree: Vec<u32> = Vec::new();
    let mut incident: Vec<Vec<ArcId>> = Vec::new();
    let mut k: usize = 0;
    while k < n
        invariant
            k <= n,
            present@.len() == k,
            degree@.len() == k,
            incident@.len() == k,
            forall|x: int, j: int| 0 <= x < k && 0 <= j < incident@[x]@.len() ==> (#[trigger] incident@[x]@[j] as int) < m,
            forall|x: int| 0 <= x < k ==> !(#[trigger] present@[x]),
        decreases n - k,
    {
        present.push(false);
        degree.push(0);
        incident.push(Vec::new());
        k += 1;
    }
    let mut nodes: Vec<NodeId> = Vec::new();
    let mut k: usize = 0;
    while k < tree_arcs.len()
        invariant
            graph.wf(),
            arcs == graph.arcs@,
            n == graph.slots(),
            m == arcs.len(),
            forall|k2: int| 0 <= k2 < tree_arcs@.len() ==> (#[trigger] tree_arcs@[k2] as int) < m,
            active_arc@.len() == m,
            present@.len() == n,
            degree@.len() == n,
            incident@.len() == n,
            forall|x: int, j: int| 0 <= x < n && 0 <= j < incident@[x]@.len() ==> (#[trigger] incident@[x]@[j] as int) < m,
            k <= tree_arcs@.len(),
            forall|j: int| 0 <= j < nodes@.len() ==> (#[trigger] nodes@[j] as int) < n,
            forall|x: int| 0 <= x < n && #[trigger] present@[x] ==> nodes@.contains(x as NodeId),
            forall|j: int| 0 <= j < k ==> present@[arcs[#[trigger] tree_arcs@[j] as int].tail as int]
                && present@[arcs[tree_arcs@[j] as int].head as int],
        decreases tree_arcs@.len() - k,
    {
        let a = tree_arcs[k];
        let arc = graph.arcs[a as usize];
        proof {
            assert((arc.tail as int) < n && (arc.head as int) < n);
        }
        active_arc.set(a as usize, true);
        let ghost nd0 = nodes@;
        if !present[arc.tail as usize] {
            present.set(arc.tail as usize, true);
            nodes.push(arc.tail);
        }
        proof {
            assert forall|x: int| 0 <= x < n && #[trigger] present@[x] implies nodes@.contains(x as NodeId) by {
                if x != arc.tail as int {
                    let w = choose|w: int| 0 <= w < nd0.len() && nd0[w] == x as NodeId;
                    assert(nodes@[w] == nd0[w]);
                } else if nd0.len() < nodes@.len() {
                    assert(nodes@[nd0.len() as int] == arc.tail);
                }
            }
        }
        let ghost nd1 = nodes@;
        if !present[arc.head as usize] {
            present.set(arc.head as usize, true);
            nodes.push(arc.head);
        }
        proof {
            assert forall|x: int| 0 <= x < n && #[trigger] present@[x] implies nodes@.contains(x as NodeId) by {
                if x != arc.head as int {
                    let w = choose|w: int| 0 <= w < nd1.len() && nd1[w] == x as NodeId;
                    assert(nodes@[w] == nd1[w]);
                } else if nd1.len() < nodes@.len() {
                    assert(nodes@[nd1.len() as int] == arc.head);
                }
            }
            assert forall|j: int| 0 <= j < nodes@.len() implies (#[trigger] nodes@[j] as int) < n by {
                if j < nd0.len() {
                    assert(nodes@[j] == nd0[j]);
                } else if j < nd1.len() {
                    assert(nodes@[j] == nd1[j]);
                }
            }
        }
        let dt = degree[arc.tail as usize];
        degree.set(arc.tail as usize, dt.saturating_add(1));
        let dh = degree[arc.head as usize];
        degree.set(arc.head as usize, dh.saturating_add(1));
        let ghost inc0 = incident@;
        incident[arc.tail as usize].push(a);
        incident[arc.head as usize].push(a);
        proof {
            assert forall|x: int, j: int| 0 <= x < n && 0 <= j < incident@[x]@.len() implies (#[trigger] incident@[x]@[j] as int) < m by {
                if x != arc.tail as int && x != arc.head as int {
                    assert(incident@[x] == inc0[x]);
                } else if j < inc0[x]@.len() {
                    assert(incident@[x]@[j] == inc0[x]@[j]);
                }
            }
        }
        k += 1;
    }
    // Every touched terminal is present, and stays so.
    proof {
        assert forall|x: int| 0 <= x < n && is_term@[x] && x != root && #[trigger] touched_by(arcs, tree_arcs@, x) implies present@[x] by {
            let k2 = choose|k2: int| 0 <= k2 < tree_arcs@.len() && (arcs[#[trigger] tree_arcs@[k2] as int].tail == x || arcs[tree_arcs@[k2] as int].head == x);
            assert(present@[arcs[tree_arcs@[k2] as int].tail as int] && present@[arcs[tree_arcs@[k2] as int].head as int]);
        }
    }
    let mut leaves: Vec<NodeId> = Vec::new();
    let mut j: usize = 0;
    while j < nodes.len()
        invariant
            n == graph.slots(),
            is_term@.len() == n,
            degree@.len() == n,
            forall|i: int| 0 <= i < nodes@.len() ==> (#[trigger] nodes@[i] as int) < n,
            forall|i: int| 0 <= i < leaves@.len() ==> (#[trigger] leaves@[i] as int) < n,
            j <= nodes@.len(),
        decreases nodes@.len() - j,
    {
        let node = nodes[j];
        if !is_term[node as usize] && node != root && degree[node as usize] <= 1 {
            leaves.push(node);
        }
        j += 1;
    }
    proof {
        lemma_count_true_le(active_arc@);
    }
    while leaves.len() > 0
        invariant
            graph.wf(),
            arcs == graph.arcs@,
            n == graph.slots(),
            m == arcs.len(),
            is_term@.len() == n,
            active_arc@.len() == m,
            present@.len() == n,
            degree@.len() == n,
            incident@.len() == n,
            forall|x: int, j2: int| 0 <= x < n && 0 <= j2 < incident@[x]@.len() ==> (#[trigger] incident@[x]@[j2] as int) < m,
            forall|i: int| 0 <= i < leaves@.len() ==> (#[trigger] leaves@[i] as int) < n,
            forall|x: int| 0 <= x < n && is_term@[x] && x != root && #[trigger] touched_by(arcs, tree_arcs@, x) ==> present@[x],
            count_true(active_arc@) <= m,
        decreases 2 * count_true(active_arc@) + leaves@.len(),
    {
        let ghost before = leaves@;
        let node = match leaves.pop() {
            Some(x) => x,
            None => break,
        };
        proof {
            assert(leaves@ == before.drop_last());
            assert(node == before[before.len() - 1]);
        }
        if is_term[node as usize] || node == root || degree[node as usize] != 1 {
            continue;
        }
        let mut found: Option<ArcId> = None;
        let mut q: usize = 0;
        while q < incident[node as usize].len()
            invariant
                n == graph.slots(),
                m == arcs.len(),
                (node as int) < n,
                incident@.len() == n,
                active_arc@.len() == m,
                forall|x: int, j2: int| 0 <= x < n && 0 <= j2 < incident@[x]@.len() ==> (#[trigger] incident@[x]@[j2] as int) < m,
                q <= incident@[node as int]@.len(),
                found matches Some(a) ==> (a as int) < m && active_arc@[a as int],
            decreases incident@[node as int]@.len() - q,
        {
            let a = incident[node as usize][q];
            proof {
                assert((incident@[node as int]@[q as int] as int) < m);
            }
            if active_arc[a as usize] {
                found = Some(a);
                break;
            }
            q += 1;
        }
        let a = match found {
            Some(a) => a,
            None => {
                degree.set(node as usize, 0);
                present.set(node as usize, false);
                continue;
            },
        };
        proof {
            let t = active_arc@.update(a as int, false);
            lemma_count_true_set(t, a as int);
            assert(t.update(a as int, true) =~= active_arc@);
            lemma_count_true_le(t);
        }
        active_arc.set(a as usize, false);
        degree.set(node as usize, 0);
        present.set(node as usize, false);
        let arc = graph.arcs[a as usize];
        let other = if arc.tail == node { arc.head } else { arc.tail };
        proof {
            assert((arc.tail as int) < n && (arc.head as int) < n);
        }
        let d = degree[other as usize];
        degree.set(other as usize, d.saturating_sub(1));
        if !is_term[other as usize] && other != root && degree[other as usize] <= 1 {
            leaves.push(other);
        }
    }
    let mut kept: Vec<ArcId> = Vec::new();
    let mut k: usize = 0;
    while k < tree_arcs.len()
        invariant
            m == arcs.len(),
            active_arc@.len() == m,
            forall|k2: int| 0 <= k2 < tree_arcs@.len() ==> (#[trigger] tree_arcs@[k2] as int) < m,
            forall|k2: int| 0 <= k2 < kept@.len() ==> (#[trigger] kept@[k2] as int) < m,
            k <= tree_arcs@.len(),
        decreases tree_arcs@.len() - k,
    {
        let a = tree_arcs[k];
        if active_arc[a as usize] {
            kept.push(a);
        }
        k += 1;
    }
    let mut left: Vec<NodeId> = Vec::new();
    let mut j: usize = 0;
    while j < nodes.len()
        invariant
            n == graph.slots(),
            present@.len() == n,
            forall|i: int| 0 <= i < nodes@.len() ==> (#[trigger] nodes@[i] as int) < n,
            j <= nodes@.len(),
            forall|i: int| 0 <= i < j && present@[nodes@[i] as int] ==> left@.contains(#[trigger] nodes@[i]),
        decreases nodes@.len() - j,
    {
        let x = nodes[j];
        let ghost l0 = left@;
        if present[x as usize] {
            left.push(x);
        }
        proof {
            assert forall|i: int| 0 <= i < j + 1 && present@[nodes@[i] as int] implies left@.contains(#[trigger] nodes@[i]) by {
                if i < j {
                    let w = choose|w: int| 0 <= w < l0.len() && l0[w] == nodes@[i];
                    assert(left@[w] == l0[w]);
                } else {
                    assert(left@[l0.len() as int] == x);
                }
            }
        }
        j += 1;
    }
    proof {
        assert forall|x: int| 0 <= x < n && is_term@[x] && x != root && #[trigger] touched_by(arcs, tree_arcs@, x)
            implies left@.contains(x as NodeId) by {
            assert(present@[x]);
            let w = choose|w: int| 0 <= w < nodes@.len() && nodes@[w] == x as NodeId;
            assert(present@[nodes@[w] as int]);
        }
    }
    (kept, left)
}

/// `is_term` marks exactly the vertices of `terminals`.
pub open spec fn marks(is_term: Seq<bool>, terminals: Seq<NodeId>) -> bool {
    &&& forall|i: int| 0 <= i < terminals.len() ==> (#[trigger] terminals[i] as int) < is_term.len() && is_term[terminals[i] as int]
    &&& forall|x: int| 0 <= x < is_term.len() && #[trigger] is_term[x] ==> terminals.contains(x as NodeId)
}

impl ConstructiveHeuristic {
    /// The heuristic over `graph`, rooted at `root`, trying up to
    /// [`DEFAULT_STARTS`] starts.
    pub fn new(graph: DirectedGraph, root: NodeId, terminals: Vec<NodeId>) -> (h: Self)
        ensures
            h.graph == graph,
            h.root == root,
            h.terminals@ == terminals@,
            h.num_starts == DEFAULT_STARTS,
    {
        ConstructiveHeuristic { graph, root, terminals, num_starts: DEFAULT_STARTS }
    }

    /// The same heuristic trying up to `n` starts.
    pub fn with_num_starts(self, n: u32) -> (h: Self)
        ensures
            h.graph == self.graph,
            h.root == self.root,
            h.terminals@ == self.terminals@,
            h.num_starts == n,
    {
        ConstructiveHeuristic { graph: self.graph, root: self.root, terminals: self.terminals, num_starts: n }
    }

    /// The arc costs the construction follows.
    fn effective_costs(&self) -> (c: Vec<Cost>)
        ensures
            c@.len() == self.graph.arcs@.len(),
            forall|i: int| 0 <= i < c@.len() ==> #[trigger] c@[i] == self.graph.arcs@[i].cost,
    {
        let mut c: Vec<Cost> = Vec::new();
        let mut i: usize = 0;
        while i < self.graph.arcs.len()
            invariant
                i <= self.graph.arcs@.len(),
                c@.len() == i,
                forall|j: int| 0 <= j < i ==> #[trigger] c@[j] == self.graph.arcs@[j].cost,
            decreases self.graph.arcs@.len() - i,
        {
            c.push(self.graph.arcs[i].cost);
            i += 1;
        }
        c
    }

    /// One tree grown from the root (after connecting `start` first, when it
    /// is a terminal other than the root), attaching the nearest unspanned
    /// terminal by a shortest path under `costs` until all are spanned, then
    /// pruned. `None` when some terminal cannot be reached.
    #[verifier::rlimit(30)]
    fn construct_from(&self, start: NodeId, costs: &Vec<Cost>, terminals: &Vec<NodeId>, is_term: &Vec<bool>) -> (r: Option<SteinerSolution>)
        requires
            self.graph.wf(),
            (self.root as int) < self.graph.slots(),
            (start as int) < self.graph.slots(),
            costs@.len() >= self.graph.arcs@.len(),
            is_term@.len() == self.graph.slots(),
            marks(is_term@, terminals@),
        ensures
            r matches Some(sol) ==> solution_ok(self.graph.arcs@, self.root, terminals@, sol),
    {
        let graph = &self.graph;
        let root = self.root;
        let ghost arcs = graph.arcs@;
        let n = graph.out_adjacency.len();
        let m = graph.arcs.len();
        if terminals.len() == 0 {
            return None;
        }
        let mut unspanned: Vec<bool> = Vec::new();
        let mut in_tree: Vec<bool> = Vec::new();
        let mut k: usize = 0;
        while k < n
            invariant
                n == graph.slots(),
                is_term@.len() == n,
                k <= n,
                unspanned@.len() == k,
                in_tree@.len() == k,
                forall|x: int| 0 <= x < k ==> #[trigger] unspanned@[x] == is_term@[x],
                forall|x: int| 0 <= x < k ==> !(#[trigger] in_tree@[x]),
            decreases n - k,
        {
            unspanned.push(is_term[k]);
            in_tree.push(false);
            k += 1;
        }
        let mut in_tree_arc: Vec<bool> = Vec::new();
        let mut k: usize = 0;
        while k < m
            invariant
                k <= m,
                in_tree_arc@.len() == k,
                forall|a: int| 0 <= a < k ==> !(#[trigger] in_tree_arc@[a]),
            decreases m - k,
        {
            in_tree_arc.push(false);
            k += 1;
        }
        let mut tree_nodes: Vec<NodeId> = Vec::new();
        let mut tree_arcs: Vec<ArcId> = Vec::new();
        // Always from the root, so the result is an arborescence.
        in_tree.set(root as usize, true);
        tree_nodes.push(root);
        unspanned.set(root as usize, false);
        proof {
            assert forall|x: int| 0 <= x < n && #[trigger] in_tree@[x] implies tree_nodes@.contains(x as NodeId) by {
                assert(x == root as int);
                assert(tree_nodes@[0] == root);
            }
            assert forall|x: int| 0 <= x < n && is_term@[x] && !(#[trigger] unspanned@[x]) implies in_tree@[x] by {
                assert(x == root as int);
            }
            assert forall|x: int| 0 <= x < n && #[trigger] in_tree@[x] && x != root implies touched_by(arcs, tree_arcs@, x) by {
                assert(false);
            }
        }
        if start != root && unspanned[start as usize] {
            let (dist, pred, Ghost(ord), Ghost(src)) = multi_source_dijkstra(graph, &tree_nodes, costs);
            if dist[start as usize] != UNREACHED {
                let path = path_to(graph, &dist, &pred, start, Ghost(ord), Ghost(src));
                add_path(graph, &path, root, is_term, &mut unspanned, &mut in_tree, &mut tree_nodes, &mut tree_arcs, &mut in_tree_arc);
            }
        }
        loop
            invariant
                graph.wf(),
                arcs == graph.arcs@,
                n == graph.slots(),
                m == arcs.len(),
                costs@.len() >= m,
                is_term@.len() == n,
                marks(is_term@, terminals@),
                growth_ok(arcs, n as int, root, is_term@, unspanned@, in_tree@, tree_nodes@, tree_arcs@, in_tree_arc@),
            ensures
                growth_ok(arcs, n as int, root, is_term@, unspanned@, in_tree@, tree_nodes@, tree_arcs@, in_tree_arc@),
                forall|x: int| 0 <= x < n ==> !(#[trigger] unspanned@[x]),
            decreases count_true(unspanned@),
        {
            // Anything left to span?
            let mut any = false;
            let mut i: usize = 0;
            while i < terminals.len()
                invariant
                    n == graph.slots(),
                    unspanned@.len() == n,
                    marks(is_term@, terminals@),
                    is_term@.len() == n,
                    i <= terminals@.len(),
                    !any ==> forall|j: int| 0 <= j < i ==> !unspanned@[#[trigger] terminals@[j] as int],
                decreases terminals@.len() - i,
            {
                if unspanned[terminals[i] as usize] {
                    any = true;
                }
                i += 1;
            }
            if !any {
                proof {
                    assert forall|x: int| 0 <= x < n implies !(#[trigger] unspanned@[x]) by {
                        if unspanned@[x] {
                            assert(is_term@[x]);
                            let j = choose|j: int| 0 <= j < terminals@.len() && terminals@[j] == x as NodeId;
                            assert(!unspanned@[terminals@[j] as int]);
                        }
                    }
                }
                break;
            }
            let (dist, pred, Ghost(ord), Ghost(src)) = multi_source_dijkstra(graph, &tree_nodes, costs);
            // The nearest unspanned terminal.
            let mut best: Option<(NodeId, Cost)> = None;
            let mut i: usize = 0;
            while i < terminals.len()
                invariant
                    n == graph.slots(),
                    unspanned@.len() == n,
                    dist@.len() == n,
                    marks(is_term@, terminals@),
                    is_term@.len() == n,
                    i <= terminals@.len(),
                    best matches Some((t, d)) ==> (t as int) < n && unspanned@[t as int] && dist@[t as int] == d && d != UNREACHED,
                decreases terminals@.len() - i,
            {
                let t = terminals[i];
                if unspanned[t as usize] {
                    let d = dist[t as usize];
                    let better = match best {
                        None => d != UNREACHED,
                        Some((_, bd)) => d < bd,
                    };
                    if better {
                        best = Some((t, d));
                    }
                }
                i += 1;
            }
            let t = match best {
                Some((t, _)) => t,
                // A terminal cannot be reached from this start.
                None => return None,
            };
            let path = path_to(graph, &dist, &pred, t, Ghost(ord), Ghost(src));
            let ghost u0 = unspanned@;
            add_path(graph, &path, root, is_term, &mut unspanned, &mut in_tree, &mut tree_nodes, &mut tree_arcs, &mut in_tree_arc);
            proof {
                if path@.len() == 0 {
                    assert(src[t as int]);
                    assert(tree_nodes@.contains(t));
                }
                assert(in_tree@[t as int]) by {
                    if path@.len() == 0 {
                        let w = choose|w: int| 0 <= w < tree_nodes@.len() && tree_nodes@[w] == t;
                        assert(in_tree@[tree_nodes@[w] as int]);
                    }
                }
                lemma_count_true_clear(unspanned@, t as int);
            }
            unspanned.set(t as usize, false);
            proof {
                assert forall|x: int| 0 <= x < n && #[trigger] unspanned@[x] implies u0[x] by {}
                lemma_count_true_drop(u0, unspanned@, t as int);
            }
        }
        let (pruned_arcs, pruned_nodes) = prune_tree(graph, root, &tree_arcs, is_term);
        let mut obj: Cost = 0;
        let mut k: usize = 0;
        proof {
            assert(pruned_arcs@.take(0) =~= Seq::<ArcId>::empty());
        }
        while k < pruned_arcs.len()
            invariant
                graph.wf(),
                arcs == graph.arcs@,
                forall|k2: int| 0 <= k2 < pruned_arcs@.len() ==> (#[trigger] pruned_arcs@[k2] as int) < arcs.len(),
                k <= pruned_arcs@.len(),
                obj == saturated(arc_sum(arcs, pruned_arcs@.take(k as int))),
            decreases pruned_arcs@.len() - k,
        {
            proof {
                assert(pruned_arcs@.take(k + 1).drop_last() =~= pruned_arcs@.take(k as int));
            }
            obj = obj.saturating_add(graph.arcs[pruned_arcs[k] as usize].cost);
            k += 1;
        }
        proof {
            assert(pruned_arcs@.take(pruned_arcs@.len() as int) =~= pruned_arcs@);
            assert forall|i: int| 0 <= i < terminals@.len() && terminals@[i] != root implies pruned_nodes@.contains(#[trigger] terminals@[i]) by {
                let x = terminals@[i] as int;
                assert(is_term@[x]);
                assert(!unspanned@[x]);
                assert(in_tree@[x]);
                assert(touched_by(arcs, tree_arcs@, x));
            }
        }
        Some(SteinerSolution::new(pruned_arcs, pruned_nodes, obj))
    }
}

impl PrimalHeuristic for ConstructiveHeuristic {
    open spec fn ready(&self) -> bool {
        self.graph.wf()
    }

    /// The cheapest tree over the starts tried (the first among equals):
    /// the terminals in order, the root first when it is not one of them, at
    /// most `num_starts` of them. `None` without terminals, with the root or
    /// a terminal outside the graph, or when no start spans every terminal.
    fn run(&mut self) -> (r: Option<SteinerSolution>)
        ensures
            *final(self) == *old(self),
            r matches Some(sol) ==> solution_ok(old(self).graph.arcs@, old(self).root, old(self).terminals@, sol),
            exists|runs: Seq<Option<SteinerSolution>>| {
                &&& runs.len() <= old(self).num_starts
                &&& forall|i: int| 0 <= i < runs.len() && (#[trigger] runs[i]) is Some ==>
                    solution_ok(old(self).graph.arcs@, old(self).root, old(self).terminals@, runs[i]->Some_0)
                &&& #[trigger] cheapest_solution(runs, r)
            },
    {
        let costs = self.effective_costs();
        let n = self.graph.out_adjacency.len();
        if (self.root as usize) >= n {
            proof {
                assert(cheapest_solution(Seq::<Option<SteinerSolution>>::empty(), None));
            }
            return None;
        }
        let mut is_term: Vec<bool> = Vec::new();
        let mut k: usize = 0;
        while k < n
            invariant
                k <= n,
                is_term@.len() == k,
                forall|x: int| 0 <= x < k ==> !(#[trigger] is_term@[x]),
            decreases n - k,
        {
            is_term.push(false);
            k += 1;
        }
        let mut i: usize = 0;
        while i < self.terminals.len()
            invariant
                n == self.graph.slots(),
                is_term@.len() == n,
                i <= self.terminals@.len(),
                forall|j: int| 0 <= j < i ==> (#[trigger] self.terminals@[j] as int) < n && is_term@[self.terminals@[j] as int],
                forall|x: int| 0 <= x < n && #[trigger] is_term@[x] ==> self.terminals@.take(i as int).contains(x as NodeId),
            decreases self.terminals@.len() - i,
        {
            let t = self.terminals[i];
            if (t as usize) >= n {
                proof {
                    assert(cheapest_solution(Seq::<Option<SteinerSolution>>::empty(), None));
                }
                return None;
            }
            is_term.set(t as usize, true);
            proof {
                assert forall|x: int| 0 <= x < n && #[trigger] is_term@[x] implies self.terminals@.take(i + 1).contains(x as NodeId) by {
                    if x == t as int {
                        assert(self.terminals@.take(i + 1)[i as int] == t);
                    } else {
                        let w = choose|w: int| 0 <= w < i && self.terminals@.take(i as int)[w] == x as NodeId;
                        assert(self.terminals@.take(i + 1)[w] == x as NodeId);
                    }
                }
            }
            i += 1;
        }
        proof {
            assert(self.terminals@.take(self.terminals@.len() as int) =~= self.terminals@);
        }
        if self.terminals.len() == 0 {
            proof {
                assert(cheapest_solution(Seq::<Option<SteinerSolution>>::empty(), None));
            }
            return None;
        }
        // Terminals first, the root in front when it is not one of them.
        let mut starts: Vec<NodeId> = Vec::new();
        let mut root_listed = false;
        let mut i: usize = 0;
        while i < self.terminals.len()
            invariant
                i <= self.terminals@.len(),
            decreases self.terminals@.len() - i,
        {
            if self.terminals[i] == self.root {
                root_listed = true;
            }
            i += 1;
        }
        if !root_listed {
            starts.push(self.root);
        }
        let mut i: usize = 0;
        while i < self.terminals.len()
            invariant
                n == self.graph.slots(),
                (self.root as int) < n,
                forall|j: int| 0 <= j < self.terminals@.len() ==> (#[trigger] self.terminals@[j] as int) < n,
                i <= self.terminals@.len(),
                forall|j: int| 0 <= j < starts@.len() ==> (#[trigger] starts@[j] as int) < n,
            decreases self.terminals@.len() - i,
        {
            starts.push(self.terminals[i]);
            i += 1;
        }
        let (best, Ghost(runs)) = self.best_over_starts(&starts, &costs, &is_term);
        proof {
            assert(cheapest_solution(runs, best));
        }
        best
    }
}

impl ConstructiveHeuristic {
    /// The construction from each of the first `num_starts` of `starts` in
    /// turn, keeping the cheapest solution (the first among equals); with
    /// the single-start results, one per start tried.
    fn best_over_starts(&self, starts: &Vec<NodeId>, costs: &Vec<Cost>, is_term: &Vec<bool>)
        -> (r: (Option<SteinerSolution>, Ghost<Seq<Option<SteinerSolution>>>))
        requires
            self.graph.wf(),
            (self.root as int) < self.graph.slots(),
            costs@.len() == self.graph.arcs@.len(),
            is_term@.len() == self.graph.slots(),
            marks(is_term@, self.terminals@),
            forall|j: int| 0 <= j < starts@.len() ==> (#[trigger] starts@[j] as int) < self.graph.slots(),
        ensures
            r.1@.len() == (if starts@.len() < self.num_starts as int { starts@.len() as int } else { self.num_starts as int }),
            forall|i: int| 0 <= i < r.1@.len() && (#[trigger] r.1@[i]) is Some ==>
                solution_ok(self.graph.arcs@, self.root, self.terminals@, r.1@[i]->Some_0),
            cheapest_solution(r.1@, r.0),
    {
        let n = self.graph.out_adjacency.len();
        let limit = self.num_starts as usize;
        let ghost mut runs: Seq<Option<SteinerSolution>> = Seq::empty();
        let mut best: Option<SteinerSolution> = None;
        let mut i: usize = 0;
        while i < starts.len() && i < limit
            invariant
                self.graph.wf(),
                n == self.graph.slots(),
                (self.root as int) < n,
                costs@.len() == self.graph.arcs@.len(),
                is_term@.len() == n,
                marks(is_term@, self.terminals@),
                forall|j: int| 0 <= j < starts@.len() ==> (#[trigger] starts@[j] as int) < n,
                best matches Some(sol) ==> solution_ok(self.graph.arcs@, self.root, self.terminals@, sol),
                limit == self.num_starts as usize,
                i <= starts@.len(),
                i <= limit,
                runs.len() == i,
                forall|j: int| 0 <= j < i && (#[trigger] runs[j]) is Some ==>
                    solution_ok(self.graph.arcs@, self.root, self.terminals@, runs[j]->Some_0),
                cheapest_solution(runs, best),
            decreases starts@.len() - i,
        {
            let ghost old_runs = runs;
            let ghost old_best = best;
            let ghost mut got: Option<SteinerSolution> = None;
            match self.construct_from(starts[i], costs, &self.terminals, is_term) {
                Some(sol) => {
                    let replace = match &best {
                        None => true,
                        Some(b) => sol.objective_value < b.objective_value,
                    };
                    proof {
                        got = Some(sol);
                    }
                    if replace {
                        best = Some(sol);
                    }
                },
                None => {},
            }
            proof {
                runs = runs.push(got);
                lemma_cheapest_solution_push(old_runs, old_best, got, best);
                assert forall|j: int| 0 <= j < i + 1 && (#[trigger] runs[j]) is Some implies
                    solution_ok(self.graph.arcs@, self.root, self.terminals@, runs[j]->Some_0) by {
                    if j < i {
                        assert(runs[j] == old_runs[j]);
                    }
                }
            }
            i += 1;
        }
        (best, Ghost(runs))
    }
}

/// `r` is the solution of least objective in `runs`, the first among
/// equals, and `None` only when every run gave `None`.
pub open spec fn cheapest_solution(runs: Seq<Option<SteinerSolution>>, r: Option<SteinerSolution>) -> bool {
    &&& r is None <==> forall|i: int| 0 <= i < runs.len() ==> #[trigger] runs[i] is None
    &&& r matches Some(b) ==> exists|j: int| 0 <= j < runs.len() && #[trigger] runs[j] == Some(b)
        && (forall|i: int| 0 <= i < runs.len() && #[trigger] runs[i] is Some ==> b.objective_value <= runs[i]->Some_0.objective_value)
        && (forall|i: int| 0 <= i < j && #[trigger] runs[i] is Some ==> b.objective_value < runs[i]->Some_0.objective_value)
}

/// The kept solution has an objective no greater than any run that gave a
/// solution, and is there whenever one did.
pub proof fn lemma_cheapest_solution_bounds(runs: Seq<Option<SteinerSolution>>, r: Option<SteinerSolution>, i: int)
    requires
        cheapest_solution(runs, r),
        0 <= i < runs.len(),
        runs[i] is Some,
    ensures
        r is Some,
        r->Some_0.objective_value <= runs[i]->Some_0.objective_value,
{
}

/// Adding a run keeps the cheapest: the new solution replaces the old only
/// when strictly cheaper (or when there was none).
proof fn lemma_cheapest_solution_push(runs: Seq<Option<SteinerSolution>>, b0: Option<SteinerSolution>, r: Option<SteinerSolution>, b1: Option<SteinerSolution>)
    requires
        cheapest_solution(runs, b0),
        b1 == (match r {
            Some(x) => if (match b0 { None => true, Some(b) => x.objective_value < b.objective_value }) { Some(x) } else { b0 },
            None => b0,
        }),
    ensures
        cheapest_solution(runs.push(r), b1),
{
    let rs = runs.push(r);
    let n = runs.len() as int;
    assert(rs[n] == r);
    assert forall|i: int| 0 <= i < n implies #[trigger] rs[i] == runs[i] by {}
    if b1 is None {
        assert forall|i: int| 0 <= i < rs.len() implies #[trigger] rs[i] is None by {
            if i < n {
                assert(rs[i] == runs[i]);
            }
        }
    } else {
        let b = b1->Some_0;
        if b1 == r && (b0 is None || r->Some_0.objective_value < b0->Some_0.objective_value) {
            assert(rs[n] == Some(b));
            assert forall|i: int| 0 <= i < rs.len() && #[trigger] rs[i] is Some implies b.objective_value <= rs[i]->Some_0.objective_value by {
                if i < n {
                    assert(rs[i] == runs[i]);
                    if b0 is None {
                        assert(runs[i] is None);
                    } else {
                        let j0 = choose|j0: int| 0 <= j0 < runs.len() && #[trigger] runs[j0] == b0
                            && (forall|i2: int| 0 <= i2 < runs.len() && #[trigger] runs[i2] is Some ==> b0->Some_0.objective_value <= runs[i2]->Some_0.objective_value)
                            && (forall|i2: int| 0 <= i2 < j0 && #[trigger] runs[i2] is Some ==> b0->Some_0.objective_value < runs[i2]->Some_0.objective_value);
                    }
                }
            }
            assert forall|i: int| 0 <= i < n && #[trigger] rs[i] is Some implies b.objective_value < rs[i]->Some_0.objective_value by {
                assert(rs[i] == runs[i]);
                if b0 is None {
                    assert(runs[i] is None);
                } else {
                    let j0 = choose|j0: int| 0 <= j0 < runs.len() && #[trigger] runs[j0] == b0
                        && (forall|i2: int| 0 <= i2 < runs.len() && #[trigger] runs[i2] is Some ==> b0->Some_0.objective_value <= runs[i2]->Some_0.objective_value)
                        && (forall|i2: int| 0 <= i2 < j0 && #[trigger] runs[i2] is Some ==> b0->Some_0.objective_value < runs[i2]->Some_0.objective_value);
                }
            }
        } else {
            assert(b1 == b0);
            let j0 = choose|j0: int| 0 <= j0 < runs.len() && #[trigger] runs[j0] == b0
                && (forall|i2: int| 0 <= i2 < runs.len() && #[trigger] runs[i2] is Some ==> b0->Some_0.objective_value <= runs[i2]->Some_0.objective_value)
                && (forall|i2: int| 0 <= i2 < j0 && #[trigger] runs[i2] is Some ==> b0->Some_0.objective_value < runs[i2]->Some_0.objective_value);
            assert(rs[j0] == b1);
            assert forall|i: int| 0 <= i < rs.len() && #[trigger] rs[i] is Some implies b.objective_value <= rs[i]->Some_0.objective_value by {
                if i < n {
                    assert(rs[i] == runs[i]);
                }
            }
            assert forall|i: int| 0 <= i < j0 && #[trigger] rs[i] is Some implies b.objective_value < rs[i]->Some_0.objective_value by {
                assert(rs[i] == runs[i]);
            }
        }
    }
}

} // verus!
