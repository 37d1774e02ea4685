//! Key-path exchange: the local search that turns a construction heuristic
//! into a competitive one.
//!
//! A vertex of a tree `T` is a **key vertex** if it is a terminal, the root,
//! or has at least three tree edges. Cutting `T` at its key vertices leaves
//! the **key paths**: maximal paths whose interior vertices have two tree
//! edges and are not key vertices.
//!
//! The move removes a key path `P`, which leaves two subtrees `A` and `B`, and
//! reconnects them by a cheapest path `Q` from `A` to `B`, found by a
//! multi-source search seeded with every vertex of `A` and stopped at the
//! first vertex of `B` it settles, cut off at `c(P)`. The exchange is applied
//! when `c(Q) < c(P)`. Each applied exchange strictly lowers the summed cost of
//! the arcs held, so a sweep ends; the result is rebuilt by [`mst_prune`] over
//! the vertices it touches and returned only when strictly cheaper than the
//! tree given.
use vstd::prelude::*;
use crate::graph::types::{Arc, ArcId, Cost, NodeId};
use crate::graph::algorithms::dual_ascent::{ArcIndex, ids_out_of, lemma_ids_out_of, count_true, lemma_count_true_le, lemma_count_true_set, lemma_count_true_zero};
use crate::graph::algorithms::vertex_sets::{sorted_set, list_copy};
use crate::graph::algorithms::rank_reduction::by_cost;
use crate::deadline::{DeadlineCell, expired};
use super::sph::{mst_prune, paired, oriented_tree, arc_sum, saturated, SphResult, SphWorkspace};
use super::key_vertex::{rebuilt, select_open};

verus! {

/// Marks a seed of the search, which has no parent arc.
pub const NO_ARC: u32 = 0xFFFF_FFFFu32;

/// Key paths between reads of the clock.
pub const CLOCK_EVERY: usize = 64;

/// The current tree as undirected adjacency lists, reused across calls.
pub struct KeyPathWorkspace {
    pub adj: Vec<Vec<(NodeId, ArcId)>>,
    pub degree: Vec<u32>,
}

impl KeyPathWorkspace {
    /// Room for `n` vertices.
    pub open spec fn sized(&self, n: int) -> bool {
        &&& self.adj@.len() == n
        &&& self.degree@.len() == n
    }

    pub fn new(num_nodes: usize) -> (ws: Self)
        ensures
            ws.sized(num_nodes as int),
    {
        let mut adj: Vec<Vec<(NodeId, ArcId)>> = Vec::new();
        let mut degree: Vec<u32> = Vec::new();
        let mut k: usize = 0;
        while k < num_nodes
            invariant
                k <= num_nodes,
                adj@.len() == k,
                degree@.len() == k,
            decreases num_nodes - k,
        {
            adj.push(Vec::new());
            degree.push(0);
            k += 1;
        }
        KeyPathWorkspace { adj, degree }
    }
}

/// The adjacency lists hold, for each arc of `edges`, its two ends, and
/// nothing else: every entry names a vertex and an arc of `edges` leaving or
/// entering the vertex it is listed under.
pub open spec fn tree_view(ws: &KeyPathWorkspace, arcs: Seq<Arc>, n: int, edges: Seq<ArcId>) -> bool {
    &&& ws.sized(n)
    &&& forall|x: int, j: int| 0 <= x < n && 0 <= j < ws.adj@[x]@.len() ==> {
        let (y, a) = #[trigger] ws.adj@[x]@[j];
        &&& (y as int) < n
        &&& (a as int) < arcs.len()
        &&& edges.contains(a)
    }
}

/// A path between two key vertices: its arcs, their summed cost (saturating)
/// and its two ends.
pub struct KeyPath {
    pub arcs: Vec<ArcId>,
    pub cost: Cost,
    pub ends: (NodeId, NodeId),
}

/// The arcs of `p` are distinct arcs of `edges`, and its cost is their sum,
/// saturating.
pub open spec fn path_ok(p: KeyPath, arcs: Seq<Arc>, n: int, edges: Seq<ArcId>) -> bool {
    &&& p.arcs@.no_duplicates()
    &&& forall|k: int| 0 <= k < p.arcs@.len() ==> (#[trigger] p.arcs@[k] as int) < arcs.len() && edges.contains(p.arcs@[k])
    &&& p.cost == saturated(arc_sum(arcs, p.arcs@))
    &&& (p.ends.0 as int) < n
    &&& (p.ends.1 as int) < n
}

proof fn lemma_arc_sum_push(arcs: Seq<Arc>, s: Seq<ArcId>, a: ArcId)
    ensures
        arc_sum(arcs, s.push(a)) == arc_sum(arcs, s) + arcs[a as int].cost,
{
    assert(s.push(a).drop_last() =~= s);
}

proof fn lemma_arc_sum_nonneg(arcs: Seq<Arc>, s: Seq<ArcId>)
    ensures
        arc_sum(arcs, s) >= 0,
    decreases s.len(),
{
    if s.len() > 0 {
        lemma_arc_sum_nonneg(arcs, s.drop_last());
    }
}

proof fn lemma_arc_sum_concat(arcs: Seq<Arc>, s: Seq<ArcId>, t: Seq<ArcId>)
    ensures
        arc_sum(arcs, s + t) == arc_sum(arcs, s) + arc_sum(arcs, t),
    decreases t.len(),
{
    if t.len() == 0 {
        assert(s + t =~= s);
    } else {
        lemma_arc_sum_concat(arcs, s, t.drop_last());
        assert((s + t).drop_last() =~= s + t.drop_last());
        assert((s + t).last() == t.last());
    }
}

proof fn lemma_arc_sum_remove(arcs: Seq<Arc>, s: Seq<ArcId>, i: int)
    requires
        0 <= i < s.len(),
    ensures
        arc_sum(arcs, s) == arc_sum(arcs, s.remove(i)) + arcs[s[i] as int].cost,
    decreases s.len(),
{
    if i == s.len() - 1 {
        assert(s.remove(i) =~= s.drop_last());
    } else {
        lemma_arc_sum_remove(arcs, s.drop_last(), i);
        assert(s.remove(i).drop_last() =~= s.drop_last().remove(i));
        assert(s.remove(i).last() == s.last());
    }
}

/// Distinct arcs, all among `d`, cost no more than `d`.
proof fn lemma_sum_dominates(arcs: Seq<Arc>, p: Seq<ArcId>, d: Seq<ArcId>)
    requires
        p.no_duplicates(),
        forall|k: int| 0 <= k < p.len() ==> d.contains(#[trigger] p[k]),
    ensures
        arc_sum(arcs, p) <= arc_sum(arcs, d),
    decreases p.len(),
{
    if p.len() == 0 {
        lemma_arc_sum_nonneg(arcs, d);
    } else {
        let last = p.last();
        assert(d.contains(p[p.len() - 1]));
        let i = choose|i: int| 0 <= i < d.len() && d[i] == last;
        let d2 = d.remove(i);
        let p2 = p.drop_last();
        assert forall|k: int| 0 <= k < p2.len() implies d2.contains(#[trigger] p2[k]) by {
            assert(p2[k] == p[k]);
            assert(d.contains(p[k]));
            let j = choose|j: int| 0 <= j < d.len() && d[j] == p[k];
            assert(p[k] != p[p.len() - 1]);
            if j < i {
                assert(d2[j] == d[j]);
            } else {
                assert(j != i);
                assert(d2[j - 1] == d[j]);
            }
        }
        lemma_sum_dominates(arcs, p2, d2);
        lemma_arc_sum_remove(arcs, d, i);
    }
}

/// The undirected adjacency lists and degrees of the tree `edges`.
fn build_tree(idx: &ArcIndex, edges: &Vec<ArcId>, ws: &mut KeyPathWorkspace)
    requires
        idx.wf(),
        old(ws).sized(idx.num_nodes as int),
        forall|k: int| 0 <= k < edges@.len() ==> (#[trigger] edges@[k] as int) < idx.tails@.len(),
    ensures
        tree_view(final(ws), idx.arcs(), idx.num_nodes as int, edges@),
{
    let n = idx.num_nodes();
    let ghost arcs = idx.arcs();
    let mut x: usize = 0;
    while x < n
        invariant
            n == idx.num_nodes,
            ws.sized(n as int),
            x <= n,
            forall|y: int, j: int| 0 <= y < x && 0 <= j < ws.adj@[y]@.len() ==> {
                let (z, a) = #[trigger] ws.adj@[y]@[j];
                &&& (z as int) < n
                &&& (a as int) < arcs.len()
                &&& edges@.contains(a)
            },
        decreases n - x,
    {
        ws.adj[x] = Vec::new();
        ws.degree.set(x, 0);
        x += 1;
    }
    let mut k: usize = 0;
    while k < edges.len()
        invariant
            idx.wf(),
            arcs == idx.arcs(),
            n == idx.num_nodes,
            forall|k2: int| 0 <= k2 < edges@.len() ==> (#[trigger] edges@[k2] as int) < idx.tails@.len(),
            tree_view(ws, arcs, n as int, edges@),
            k <= edges@.len(),
        decreases edges@.len() - k,
    {
        let a = edges[k];
        let t = idx.tail(a);
        let h = idx.head(a);
        let ghost before = ws.adj@;
        proof {
            assert(edges@.contains(edges@[k as int]));
        }
        ws.adj[t as usize].push((h, a));
        ws.adj[h as usize].push((t, a));
        proof {
            assert forall|y: int, j: int| 0 <= y < n && 0 <= j < ws.adj@[y]@.len() implies {
                let (z, b) = #[trigger] ws.adj@[y]@[j];
                &&& (z as int) < n
                &&& (b as int) < arcs.len()
                &&& edges@.contains(b)
            } by {
                if y != t as int && y != h as int {
                    assert(ws.adj@[y] == before[y]);
                } else if j < before[y]@.len() {
                    assert(ws.adj@[y]@[j] == before[y]@[j]);
                }
            }
        }
        let dt = ws.degree[t as usize];
        ws.degree.set(t as usize, dt.saturating_add(1));
        let dh = ws.degree[h as usize];
        ws.degree.set(h as usize, dh.saturating_add(1));
        k += 1;
    }
}

/// A key vertex: the root, a terminal, or a vertex of three or more tree
/// edges.
fn is_key(v: NodeId, root: NodeId, is_terminal: &[bool], ws: &KeyPathWorkspace) -> (r: bool)
    requires
        (v as int) < is_terminal@.len(),
        (v as int) < ws.degree@.len(),
    ensures
        r == (v == root || is_terminal@[v as int] || ws.degree@[v as int] >= 3),
{
    v == root || is_terminal[v as usize] || ws.degree[v as usize] >= 3
}

/// The vertex `x` is a key vertex (see [`is_key`]).
pub open spec fn key_spec(x: int, root: NodeId, is_terminal: Seq<bool>, ws: &KeyPathWorkspace) -> bool {
    x == root || is_terminal[x] || ws.degree@[x] >= 3
}

/// Some path of `ps` holds the arc `a`.
pub open spec fn on_paths(ps: Seq<KeyPath>, a: ArcId) -> bool {
    exists|i: int| 0 <= i < ps.len() && (#[trigger] ps[i]).arcs@.contains(a)
}

/// `x` is the root or an end of an arc of `edges`.
pub open spec fn tree_vertex(arcs: Seq<Arc>, edges: Seq<ArcId>, root: NodeId, x: int) -> bool {
    x == root || exists|k: int| 0 <= k < edges.len() && (arcs[#[trigger] edges[k] as int].tail == x || arcs[edges[k] as int].head == x)
}

/// The tree cut at its key vertices: from each key vertex, in increasing
/// order, along each incident arc not walked yet, until the next key vertex
/// (or a vertex with no other arc).
fn key_paths(
    root: NodeId,
    edges: &Vec<ArcId>,
    idx: &ArcIndex,
    is_terminal: &[bool],
    ws: &KeyPathWorkspace,
) -> (r: Vec<KeyPath>)
    requires
        idx.wf(),
        (root as int) < idx.num_nodes,
        is_terminal@.len() >= idx.num_nodes,
        forall|k: int| 0 <= k < edges@.len() ==> (#[trigger] edges@[k] as int) < idx.tails@.len(),
        tree_view(ws, idx.arcs(), idx.num_nodes as int, edges@),
    ensures
        forall|i: int| 0 <= i < r@.len() ==> path_ok(#[trigger] r@[i], idx.arcs(), idx.num_nodes as int, edges@),
        forall|x: int, j: int| 0 <= x < idx.num_nodes && 0 <= j < ws.adj@[x]@.len() && tree_vertex(idx.arcs(), edges@, root, x)
            && key_spec(x, root, is_terminal@, ws) ==> on_paths(r@, (#[trigger] ws.adj@[x]@[j]).1),
{
    let n = idx.num_nodes();
    let m = idx.num_arcs();
    let ghost arcs = idx.arcs();
    let mut seen: Vec<bool> = Vec::new();
    let mut k: usize = 0;
    while k < m
        invariant
            k <= m,
            seen@.len() == k,
            forall|j: int| 0 <= j < k ==> !(#[trigger] seen@[j]),
        decreases m - k,
    {
        seen.push(false);
        k += 1;
    }
    proof {
        assert(seen@ =~= Seq::new(m as nat, |j: int| false));
        lemma_count_true_zero(m as nat);
    }
    let mut count: usize = 0;
    let mut out: Vec<KeyPath> = Vec::new();
    let mut vertices: Vec<NodeId> = Vec::new();
    vertices.push(root);
    let mut k: usize = 0;
    while k < edges.len()
        invariant
            idx.wf(),
            arcs == idx.arcs(),
            n == idx.num_nodes,
            forall|k2: int| 0 <= k2 < edges@.len() ==> (#[trigger] edges@[k2] as int) < idx.tails@.len(),
            k <= edges@.len(),
            forall|j: int| 0 <= j < vertices@.len() ==> (#[trigger] vertices@[j] as int) < n,
            vertices@.len() == 1 + 2 * k,
            vertices@[0] == root,
            forall|k2: int| 0 <= k2 < k ==> vertices@[1 + 2 * k2] == arcs[#[trigger] edges@[k2] as int].tail
                && vertices@[2 + 2 * k2] == arcs[edges@[k2] as int].head,
        decreases edges@.len() - k,
    {
        vertices.push(idx.tail(edges[k]));
        vertices.push(idx.head(edges[k]));
        k += 1;
    }
    let vs = sorted_set(&vertices);
    proof {
        assert forall|j: int| 0 <= j < vs@.len() implies (#[trigger] vs@[j] as int) < n by {
            assert(vs@.to_set().contains(vs@[j]));
            assert(vertices@.to_set().contains(vs@[j]));
            let i = choose|i: int| 0 <= i < vertices@.len() && vertices@[i] == vs@[j];
        }
        assert(seen@ =~= Seq::new(m as nat, |j: int| false));
    }
    let mut s: usize = 0;
    while s < vs.len()
        invariant
            idx.wf(),
            arcs == idx.arcs(),
            n == idx.num_nodes,
            m == arcs.len(),
            is_terminal@.len() >= n,
            tree_view(ws, arcs, n as int, edges@),
            forall|j: int| 0 <= j < vs@.len() ==> (#[trigger] vs@[j] as int) < n,
            seen@.len() == m,
            count == count_true(seen@),
            s <= vs@.len(),
            forall|i: int| 0 <= i < out@.len() ==> path_ok(#[trigger] out@[i], arcs, n as int, edges@),
            forall|a: int| 0 <= a < m && #[trigger] seen@[a] ==> on_paths(out@, a as ArcId),
            forall|s2: int, j: int| 0 <= s2 < s && 0 <= j < ws.adj@[vs@[s2] as int]@.len() && key_spec(vs@[s2] as int, root, is_terminal@, ws)
                ==> seen@[(#[trigger] ws.adj@[vs@[s2] as int]@[j]).1 as int],
        decreases vs@.len() - s,
    {
        let start = vs[s];
        if is_key(start, root, is_terminal, ws) {
            let mut q: usize = 0;
            while q < ws.adj[start as usize].len()
                invariant
                    idx.wf(),
                    arcs == idx.arcs(),
                    n == idx.num_nodes,
                    m == arcs.len(),
                    is_terminal@.len() >= n,
                    tree_view(ws, arcs, n as int, edges@),
                    (start as int) < n,
                    seen@.len() == m,
                    count == count_true(seen@),
                    q <= ws.adj@[start as int]@.len(),
                    forall|i: int| 0 <= i < out@.len() ==> path_ok(#[trigger] out@[i], arcs, n as int, edges@),
                    s < vs@.len(),
                    start == vs@[s as int],
                    key_spec(start as int, root, is_terminal@, ws),
                    forall|j: int| 0 <= j < vs@.len() ==> (#[trigger] vs@[j] as int) < n,
                    forall|a: int| 0 <= a < m && #[trigger] seen@[a] ==> on_paths(out@, a as ArcId),
                    forall|s2: int, j: int| 0 <= s2 < s && 0 <= j < ws.adj@[vs@[s2] as int]@.len() && key_spec(vs@[s2] as int, root, is_terminal@, ws)
                        ==> seen@[(#[trigger] ws.adj@[vs@[s2] as int]@[j]).1 as int],
                    forall|q2: int| 0 <= q2 < q ==> seen@[(#[trigger] ws.adj@[start as int]@[q2]).1 as int],
                decreases ws.adj@[start as int]@.len() - q,
            {
                let (first_next, first_arc) = ws.adj[start as usize][q];
                proof {
                    let e = ws.adj@[start as int]@[q as int];
                    assert((e.0 as int) < n && (e.1 as int) < arcs.len() && edges@.contains(e.1));
                }
                if !seen[first_arc as usize] {
                    let mut next = first_next;
                    let mut arc = first_arc;
                    let mut path_arcs: Vec<ArcId> = Vec::new();
                    path_arcs.push(arc);
                    let mut cost: Cost = idx.cost(arc);
                    proof {
                        lemma_count_true_set(seen@, arc as int);
                        lemma_count_true_le(seen@.update(arc as int, true));
                        lemma_arc_sum_push(arcs, Seq::empty(), arc);
                        assert(Seq::<ArcId>::empty().push(arc) =~= path_arcs@);
                    }
                    let ghost seen0 = seen@;
                    seen.set(arc as usize, true);
                    count = count + 1;
                    proof {
                        assert(path_arcs@[0] == arc);
                        assert forall|a: int| 0 <= a < m && #[trigger] seen@[a] implies on_paths(out@, a as ArcId) || path_arcs@.contains(a as ArcId) by {
                            if a != arc as int {
                                assert(seen0[a]);
                            }
                        }
                        assert forall|s2: int, j: int| 0 <= s2 < s && 0 <= j < ws.adj@[vs@[s2] as int]@.len() && key_spec(vs@[s2] as int, root, is_terminal@, ws)
                            implies seen@[(#[trigger] ws.adj@[vs@[s2] as int]@[j]).1 as int] by {
                            assert(seen0[ws.adj@[vs@[s2] as int]@[j].1 as int]);
                        }
                        assert forall|q2: int| 0 <= q2 <= q implies seen@[(#[trigger] ws.adj@[start as int]@[q2]).1 as int] by {
                            if q2 < q {
                                assert(seen0[ws.adj@[start as int]@[q2].1 as int]);
                            }
                        }
                    }
                    loop
                        invariant
                            idx.wf(),
                            arcs == idx.arcs(),
                            n == idx.num_nodes,
                            m == arcs.len(),
                            is_terminal@.len() >= n,
                            tree_view(ws, arcs, n as int, edges@),
                            (next as int) < n,
                            seen@.len() == m,
                            count == count_true(seen@),
                            count <= m,
                            path_arcs@.no_duplicates(),
                            forall|k2: int| 0 <= k2 < path_arcs@.len() ==> (#[trigger] path_arcs@[k2] as int) < arcs.len()
                                && edges@.contains(path_arcs@[k2]) && seen@[path_arcs@[k2] as int],
                            cost == saturated(arc_sum(arcs, path_arcs@)),
                            s < vs@.len(),
                            start == vs@[s as int],
                            (start as int) < n,
                            q < ws.adj@[start as int]@.len(),
                            forall|j: int| 0 <= j < vs@.len() ==> (#[trigger] vs@[j] as int) < n,
                            forall|a: int| 0 <= a < m && #[trigger] seen@[a] ==> on_paths(out@, a as ArcId) || path_arcs@.contains(a as ArcId),
                            forall|s2: int, j: int| 0 <= s2 < s && 0 <= j < ws.adj@[vs@[s2] as int]@.len() && key_spec(vs@[s2] as int, root, is_terminal@, ws)
                                ==> seen@[(#[trigger] ws.adj@[vs@[s2] as int]@[j]).1 as int],
                            forall|q2: int| 0 <= q2 <= q ==> seen@[(#[trigger] ws.adj@[start as int]@[q2]).1 as int],
                        decreases m - count,
                    {
                        if is_key(next, root, is_terminal, ws) {
                            break;
                        }
                        // Interior of a key path: the one tree arc other
                        // than the one arrived by.
                        let mut found: Option<(NodeId, ArcId)> = None;
                        let mut j: usize = 0;
                        while j < ws.adj[next as usize].len()
                            invariant
                                tree_view(ws, arcs, n as int, edges@),
                                (next as int) < n,
                                j <= ws.adj@[next as int]@.len(),
                                found matches Some((y, b)) ==> (y as int) < n && (b as int) < arcs.len() && edges@.contains(b),
                            decreases ws.adj@[next as int]@.len() - j,
                        {
                            let (y, b) = ws.adj[next as usize][j];
                            proof {
                                let e = ws.adj@[next as int]@[j as int];
                                assert((e.0 as int) < n && (e.1 as int) < arcs.len() && edges@.contains(e.1));
                            }
                            if b != arc {
                                found = Some((y, b));
                                break;
                            }
                            j += 1;
                        }
                        let (further, a2) = match found {
                            Some(x) => x,
                            None => break,
                        };
                        if seen[a2 as usize] {
                            break;
                        }
                        proof {
                            lemma_count_true_set(seen@, a2 as int);
                            lemma_count_true_le(seen@.update(a2 as int, true));
                            lemma_arc_sum_push(arcs, path_arcs@, a2);
                            assert(!path_arcs@.contains(a2));
                        }
                        let ghost seen1 = seen@;
                        seen.set(a2 as usize, true);
                        count = count + 1;
                        let ghost pa0 = path_arcs@;
                        path_arcs.push(a2);
                        proof {
                            assert(path_arcs@[pa0.len() as int] == a2);
                            assert forall|a: int| 0 <= a < m && #[trigger] seen@[a] implies on_paths(out@, a as ArcId) || path_arcs@.contains(a as ArcId) by {
                                if a != a2 as int {
                                    assert(seen1[a]);
                                    if pa0.contains(a as ArcId) {
                                        let z = choose|z: int| 0 <= z < pa0.len() && pa0[z] == a as ArcId;
                                        assert(path_arcs@[z] == a as ArcId);
                                    }
                                }
                            }
                            assert forall|s2: int, j: int| 0 <= s2 < s && 0 <= j < ws.adj@[vs@[s2] as int]@.len() && key_spec(vs@[s2] as int, root, is_terminal@, ws)
                                implies seen@[(#[trigger] ws.adj@[vs@[s2] as int]@[j]).1 as int] by {
                                assert(seen1[ws.adj@[vs@[s2] as int]@[j].1 as int]);
                            }
                            assert forall|q2: int| 0 <= q2 <= q implies seen@[(#[trigger] ws.adj@[start as int]@[q2]).1 as int] by {
                                assert(seen1[ws.adj@[start as int]@[q2].1 as int]);
                            }
                            assert forall|x1: int, x2: int| 0 <= x1 < x2 < path_arcs@.len() implies path_arcs@[x1] != path_arcs@[x2] by {
                                if x2 == pa0.len() {
                                    assert(pa0.contains(pa0[x1]));
                                }
                            }
                        }
                        cost = cost.saturating_add(idx.cost(a2));
                        next = further;
                        arc = a2;
                    }
                    let ghost out0 = out@;
                    let ghost pa = path_arcs@;
                    out.push(KeyPath { arcs: path_arcs, cost, ends: (start, next) });
                    proof {
                        assert forall|a: int| 0 <= a < m && #[trigger] seen@[a] implies on_paths(out@, a as ArcId) by {
                            if on_paths(out0, a as ArcId) {
                                let i = choose|i: int| 0 <= i < out0.len() && (#[trigger] out0[i]).arcs@.contains(a as ArcId);
                                assert(out@[i] == out0[i]);
                            } else {
                                assert(out@[out0.len() as int].arcs@ == pa);
                            }
                        }
                    }
                }
                q += 1;
            }
        }
        proof {
            assert forall|s2: int, j: int| 0 <= s2 < s + 1 && 0 <= j < ws.adj@[vs@[s2] as int]@.len() && key_spec(vs@[s2] as int, root, is_terminal@, ws)
                implies seen@[(#[trigger] ws.adj@[vs@[s2] as int]@[j]).1 as int] by {
                if s2 == s as int {
                    assert(ws.adj@[start as int]@[j] == ws.adj@[vs@[s2] as int]@[j]);
                }
            }
        }
        s += 1;
    }
    proof {
        assert forall|x: int, j: int| 0 <= x < n && 0 <= j < ws.adj@[x]@.len() && tree_vertex(arcs, edges@, root, x)
            && key_spec(x, root, is_terminal@, ws) implies on_paths(out@, (#[trigger] ws.adj@[x]@[j]).1) by {
            let i: int = if x == root as int {
                0
            } else {
                let k2 = choose|k2: int| 0 <= k2 < edges@.len() && (arcs[#[trigger] edges@[k2] as int].tail == x || arcs[edges@[k2] as int].head == x);
                if arcs[edges@[k2] as int].tail == x { 1 + 2 * k2 } else { 2 + 2 * k2 }
            };
            assert(vertices@[i] as int == x);
            assert(vertices@.to_set().contains(vertices@[i]));
            assert(vs@.to_set().contains(vertices@[i]));
            let s2 = choose|s2: int| 0 <= s2 < vs@.len() && vs@[s2] == vertices@[i];
            let e = ws.adj@[x]@[j];
            assert(ws.adj@[vs@[s2] as int]@[j] == e);
            assert((e.1 as int) < m);
            assert(seen@[e.1 as int]);
        }
    }
    out
}

/// The arcs of `path` and their partners, marked.
fn removal_mask(idx: &ArcIndex, path: &KeyPath) -> (r: Vec<bool>)
    requires
        idx.wf(),
        forall|k: int| 0 <= k < path.arcs@.len() ==> (#[trigger] path.arcs@[k] as int) < idx.tails@.len(),
    ensures
        r@.len() == idx.tails@.len(),
        forall|k: int| 0 <= k < path.arcs@.len() ==> r@[#[trigger] path.arcs@[k] as int],
{
    let m = idx.num_arcs();
    let mut mask: Vec<bool> = Vec::new();
    let mut k: usize = 0;
    while k < m
        invariant
            k <= m,
            mask@.len() == k,
        decreases m - k,
    {
        mask.push(false);
        k += 1;
    }
    let mut k: usize = 0;
    while k < path.arcs.len()
        invariant
            m == idx.tails@.len(),
            mask@.len() == m,
            forall|k2: int| 0 <= k2 < path.arcs@.len() ==> (#[trigger] path.arcs@[k2] as int) < m,
            k <= path.arcs@.len(),
            forall|k2: int| 0 <= k2 < k ==> mask@[#[trigger] path.arcs@[k2] as int],
        decreases path.arcs@.len() - k,
    {
        let a = path.arcs[k];
        mask.set(a as usize, true);
        let twin = a ^ 1;
        if (twin as usize) < m {
            mask.set(twin as usize, true);
        }
        proof {
            assert forall|k2: int| 0 <= k2 < k + 1 implies mask@[#[trigger] path.arcs@[k2] as int] by {
                if k2 < k {
                    if path.arcs@[k2] == twin {
                    }
                }
            }
        }
        k += 1;
    }
    mask
}

/// The search from side `A`: seeds have distance zero and no parent; every
/// other reached vertex names an active arc outside the removed path from a
/// settled vertex, settled before it when it is settled, and its distance is
/// that vertex's plus the arc's cost (saturating).
pub open spec fn reconnect_inv(
    arcs: Seq<Arc>,
    active: Seq<bool>,
    removed: Seq<bool>,
    n: int,
    dist: Seq<Cost>,
    parent: Seq<u32>,
    reached: Seq<bool>,
    settled: Seq<bool>,
    touched: Seq<NodeId>,
    ord: Seq<int>,
    time: int,
) -> bool {
    &&& dist.len() == n
    &&& parent.len() == n
    &&& reached.len() == n
    &&& settled.len() == n
    &&& ord.len() == n
    &&& forall|j: int| 0 <= j < touched.len() ==> (#[trigger] touched[j] as int) < n && reached[touched[j] as int]
    &&& forall|x: int| 0 <= x < n && #[trigger] reached[x] ==> touched.contains(x as NodeId)
    &&& forall|x: int| 0 <= x < n && #[trigger] settled[x] ==> reached[x] && 0 <= ord[x] < time
    &&& forall|x: int| 0 <= x < n && reached[x] && #[trigger] parent[x] == NO_ARC ==> dist[x] == 0
    &&& forall|x: int| 0 <= x < n && reached[x] && #[trigger] parent[x] != NO_ARC ==> {
        let a = parent[x] as int;
        &&& 0 <= a < arcs.len()
        &&& active[a]
        &&& !removed[a]
        &&& arcs[a].head == x
        &&& (arcs[a].tail as int) < n
        &&& settled[arcs[a].tail as int]
        &&& dist[x] as int == saturated(dist[arcs[a].tail as int] + arcs[a].cost)
        &&& (settled[x] ==> ord[arcs[a].tail as int] < ord[x])
    }
}

/// The cheapest path, over active arcs outside `path` (and their partners),
/// from the side of the tree left at the first end of `path` to the side left
/// at the other, found by a search from the first side stopped at the first
/// vertex of the other side it settles at a positive distance, and cut off at
/// `path`'s cost. The path's arcs, from that vertex back, and its cost.
#[verifier::rlimit(30)]
fn cheapest_reconnect(
    idx: &ArcIndex,
    active: &[bool],
    path: &KeyPath,
    ws: &KeyPathWorkspace,
) -> (r: Option<(Vec<ArcId>, Cost)>)
    requires
        idx.wf(),
        active@.len() >= idx.tails@.len(),
        (path.ends.0 as int) < idx.num_nodes,
        (path.ends.1 as int) < idx.num_nodes,
        forall|k: int| 0 <= k < path.arcs@.len() ==> (#[trigger] path.arcs@[k] as int) < idx.tails@.len(),
        ws.sized(idx.num_nodes as int),
        forall|x: int, j: int| 0 <= x < idx.num_nodes && 0 <= j < ws.adj@[x]@.len() ==>
            ((#[trigger] ws.adj@[x]@[j]).0 as int) < idx.num_nodes && (ws.adj@[x]@[j].1 as int) < idx.tails@.len(),
    ensures
        r matches Some((rs, c)) ==> (forall|k: int| 0 <= k < rs@.len() ==> (#[trigger] rs@[k] as int) < idx.tails@.len())
            && (c < u64::MAX ==> arc_sum(idx.arcs(), rs@) == c),
{
    let n = idx.num_nodes();
    let m = idx.num_arcs();
    let ghost arcs = idx.arcs();
    let removed = removal_mask(idx, path);
    let (anchor_a, anchor_b) = path.ends;
    if anchor_a == anchor_b {
        return None;
    }
    // Side 1 is the component of the first end, side 2 of the other.
    let mut side: Vec<u8> = Vec::new();
    let mut stamp: Vec<bool> = Vec::new();
    let mut k: usize = 0;
    while k < n
        invariant
            k <= n,
            side@.len() == k,
            stamp@.len() == k,
        decreases n - k,
    {
        side.push(0);
        stamp.push(false);
        k += 1;
    }
    let mut first_side: Vec<NodeId> = Vec::new();
    let mut which: u8 = 1;
    while which <= 2
        invariant
            idx.wf(),
            n == idx.num_nodes,
            m == idx.tails@.len(),
            removed@.len() == m,
            (anchor_a as int) < n,
            (anchor_b as int) < n,
            ws.sized(n as int),
            forall|x: int, j: int| 0 <= x < n && 0 <= j < ws.adj@[x]@.len() ==>
                ((#[trigger] ws.adj@[x]@[j]).0 as int) < n && (ws.adj@[x]@[j].1 as int) < m,
            side@.len() == n,
            stamp@.len() == n,
            1 <= which <= 3,
            forall|j: int| 0 <= j < first_side@.len() ==> (#[trigger] first_side@[j] as int) < n,
        decreases 3 - which,
    {
        let anchor = if which == 1 { anchor_a } else { anchor_b };
        let mut stack: Vec<NodeId> = Vec::new();
        stack.push(anchor);
        proof {
            if !stamp@[anchor as int] {
                lemma_count_true_set(stamp@, anchor as int);
            }
        }
        stamp.set(anchor as usize, true);
        side.set(anchor as usize, which);
        proof {
            lemma_count_true_le(stamp@);
        }
        while stack.len() > 0
            invariant
                idx.wf(),
                n == idx.num_nodes,
                m == idx.tails@.len(),
                removed@.len() == m,
                ws.sized(n as int),
                forall|x: int, j: int| 0 <= x < n && 0 <= j < ws.adj@[x]@.len() ==>
                    ((#[trigger] ws.adj@[x]@[j]).0 as int) < n && (ws.adj@[x]@[j].1 as int) < m,
                side@.len() == n,
                stamp@.len() == n,
                count_true(stamp@) <= n,
                forall|j: int| 0 <= j < stack@.len() ==> (#[trigger] stack@[j] as int) < n,
                forall|j: int| 0 <= j < first_side@.len() ==> (#[trigger] first_side@[j] as int) < n,
            decreases 2 * (n - count_true(stamp@)) + stack@.len(),
        {
            let ghost before = stack@;
            let ghost c0 = count_true(stamp@);
            let v = match stack.pop() {
                Some(v) => v,
                None => break,
            };
            proof {
                assert(stack@ == before.drop_last());
                assert(v == before[before.len() - 1]);
            }
            if which == 1 {
                first_side.push(v);
            }
            let mut q: usize = 0;
            while q < ws.adj[v as usize].len()
                invariant
                    n == idx.num_nodes,
                    m == idx.tails@.len(),
                    removed@.len() == m,
                    ws.sized(n as int),
                    forall|x: int, j: int| 0 <= x < n && 0 <= j < ws.adj@[x]@.len() ==>
                        ((#[trigger] ws.adj@[x]@[j]).0 as int) < n && (ws.adj@[x]@[j].1 as int) < m,
                    (v as int) < n,
                    side@.len() == n,
                    stamp@.len() == n,
                    count_true(stamp@) <= n,
                    forall|j: int| 0 <= j < stack@.len() ==> (#[trigger] stack@[j] as int) < n,
                    q <= ws.adj@[v as int]@.len(),
                    before.len() >= 1,
                    2 * (n - count_true(stamp@)) + stack@.len() <= 2 * (n - c0) + before.len() - 1,
                decreases ws.adj@[v as int]@.len() - q,
            {
                let (u, a) = ws.adj[v as usize][q];
                proof {
                    assert((ws.adj@[v as int]@[q as int].0 as int) < n);
                    assert((ws.adj@[v as int]@[q as int].1 as int) < m);
                }
                if !removed[a as usize] && !stamp[u as usize] {
                    proof {
                        lemma_count_true_set(stamp@, u as int);
                        lemma_count_true_le(stamp@.update(u as int, true));
                    }
                    stamp.set(u as usize, true);
                    side.set(u as usize, which);
                    stack.push(u);
                }
                q += 1;
            }
        }
        which += 1;
    }
    // The search from side 1, cut off at the path's cost.
    let mut dist: Vec<Cost> = Vec::new();
    let mut parent: Vec<ArcId> = Vec::new();
    let mut reached: Vec<bool> = Vec::new();
    let mut settled: Vec<bool> = Vec::new();
    let mut k: usize = 0;
    while k < n
        invariant
            k <= n,
            dist@.len() == k,
            parent@.len() == k,
            reached@.len() == k,
            settled@.len() == k,
            forall|x: int| 0 <= x < k ==> !(#[trigger] reached@[x]),
            forall|x: int| 0 <= x < k ==> !(#[trigger] settled@[x]),
        decreases n - k,
    {
        dist.push(0);
        parent.push(NO_ARC);
        reached.push(false);
        settled.push(false);
        k += 1;
    }
    let ghost mut ord: Seq<int> = Seq::new(n as nat, |x: int| 0int);
    let ghost mut time: int = 0;
    let mut touched: Vec<NodeId> = Vec::new();
    let mut s: usize = 0;
    while s < first_side.len()
        invariant
            n == idx.num_nodes,
            forall|j: int| 0 <= j < first_side@.len() ==> (#[trigger] first_side@[j] as int) < n,
            s <= first_side@.len(),
            time == 0,
            forall|x: int| 0 <= x < n ==> !(#[trigger] settled@[x]),
            reconnect_inv(arcs, active@, removed@, n as int, dist@, parent@, reached@, settled@, touched@, ord, time),
        decreases first_side@.len() - s,
    {
        let x = first_side[s];
        let ghost t0 = touched@;
        dist.set(x as usize, 0);
        parent.set(x as usize, NO_ARC);
        reached.set(x as usize, true);
        touched.push(x);
        proof {
            assert(touched@.last() == x);
            assert forall|w: int| 0 <= w < n && #[trigger] reached@[w] implies touched@.contains(w as NodeId) by {
                if w != x as int {
                    let j = choose|j: int| 0 <= j < t0.len() && t0[j] == w as NodeId;
                    assert(touched@[j] == t0[j]);
                }
            }
            assert forall|j: int| 0 <= j < touched@.len() implies (#[trigger] touched@[j] as int) < n && reached@[touched@[j] as int] by {
                if j < t0.len() {
                    assert(touched@[j] == t0[j]);
                }
            }
        }
        s += 1;
    }
    proof {
        assert(settled@ =~= Seq::new(n as nat, |x: int| false));
        lemma_count_true_zero(n as nat);
    }
    let mut count: usize = 0;
    let mut target: Option<(NodeId, Cost)> = None;
    loop
        invariant_except_break
            target is None,
        invariant
            idx.wf(),
            arcs == idx.arcs(),
            n == idx.num_nodes,
            m == arcs.len(),
            active@.len() >= m,
            removed@.len() == m,
            side@.len() == n,
            reconnect_inv(arcs, active@, removed@, n as int, dist@, parent@, reached@, settled@, touched@, ord, time),
            count == count_true(settled@),
            time >= 0,
        ensures
            reconnect_inv(arcs, active@, removed@, n as int, dist@, parent@, reached@, settled@, touched@, ord, time),
            target matches Some((x, d)) ==> (x as int) < n && reached@[x as int] && settled@[x as int] && dist@[x as int] == d,
        decreases n - count,
    {
        proof {
            lemma_count_true_le(settled@);
        }
        let x = match select_open(&dist, &settled, &touched) {
            Some(x) => x,
            None => break,
        };
        proof {
            let j = choose|j: int| 0 <= j < touched@.len() && touched@[j] == x;
            assert((touched@[j] as int) < n);
            lemma_count_true_set(settled@, x as int);
            lemma_count_true_le(settled@.update(x as int, true));
        }
        settled.set(x as usize, true);
        count = count + 1;
        proof {
            ord = ord.update(x as int, time);
            time = time + 1;
            assert forall|w: int| 0 <= w < n && reached@[w] && #[trigger] parent@[w] != NO_ARC implies {
                let a = parent@[w] as int;
                &&& 0 <= a < arcs.len()
                &&& active@[a]
                &&& !removed@[a]
                &&& arcs[a].head == w
                &&& (arcs[a].tail as int) < n
                &&& settled@[arcs[a].tail as int]
                &&& dist@[w] as int == saturated(dist@[arcs[a].tail as int] + arcs[a].cost)
                &&& (settled@[w] ==> ord[arcs[a].tail as int] < ord[w])
            } by {
                let a = parent@[w] as int;
                if w == x as int {
                    assert(arcs[a].tail != x);
                }
            }
        }
        let d = dist[x as usize];
        if side[x as usize] == 2 && d > 0 {
            target = Some((x, d));
            break;
        }
        if d >= path.cost {
            break;
        }
        let out = idx.outgoing(x);
        proof {
            lemma_ids_out_of(arcs, x as int);
        }
        let mut i: usize = 0;
        while i < out.len()
            invariant
                idx.wf(),
                arcs == idx.arcs(),
                n == idx.num_nodes,
                m == arcs.len(),
                active@.len() >= m,
                removed@.len() == m,
                (x as int) < n,
                settled@[x as int],
                d == dist@[x as int],
                out@ == ids_out_of(arcs, x as int),
                forall|k2: int| 0 <= k2 < out@.len() ==> (#[trigger] out@[k2]) < arcs.len() && arcs[out@[k2] as int].tail == x,
                i <= out@.len(),
                reconnect_inv(arcs, active@, removed@, n as int, dist@, parent@, reached@, settled@, touched@, ord, time),
                count == count_true(settled@),
            decreases out@.len() - i,
        {
            let a = out[i];
            if active[a as usize] && !removed[a as usize] {
                let u = idx.head(a);
                let nd = d.saturating_add(idx.cost(a));
                if nd <= path.cost && !settled[u as usize] && (!reached[u as usize] || nd < dist[u as usize]) {
                    let ghost t0 = touched@;
                    if !reached[u as usize] {
                        touched.push(u);
                    }
                    reached.set(u as usize, true);
                    dist.set(u as usize, nd);
                    parent.set(u as usize, a);
                    proof {
                        assert forall|w: int| 0 <= w < n && #[trigger] reached@[w] implies touched@.contains(w as NodeId) by {
                            if w != u as int {
                                let j = choose|j: int| 0 <= j < t0.len() && t0[j] == w as NodeId;
                                if touched@.len() > t0.len() {
                                    assert(touched@[j] == t0[j]);
                                }
                            } else if touched@.len() > t0.len() {
                                assert(touched@[t0.len() as int] == u);
                            }
                        }
                        assert forall|j: int| 0 <= j < touched@.len() implies (#[trigger] touched@[j] as int) < n && reached@[touched@[j] as int] by {
                            if j < t0.len() {
                                assert(touched@[j] == t0[j]);
                            }
                        }
                    }
                }
            }
            i += 1;
        }
    }
    let (t, d) = match target {
        Some(x) => x,
        None => return None,
    };
    // The path, from the target back to side 1.
    let mut rs: Vec<ArcId> = Vec::new();
    let mut cur = t;
    while parent[cur as usize] != NO_ARC
        invariant
            idx.wf(),
            arcs == idx.arcs(),
            n == idx.num_nodes,
            m == arcs.len(),
            reconnect_inv(arcs, active@, removed@, n as int, dist@, parent@, reached@, settled@, touched@, ord, time),
            (cur as int) < n,
            reached@[cur as int],
            settled@[cur as int],
            dist@[cur as int] <= d,
            forall|k2: int| 0 <= k2 < rs@.len() ==> (#[trigger] rs@[k2] as int) < m,
            d < u64::MAX ==> arc_sum(arcs, rs@) + dist@[cur as int] == d,
        decreases ord[cur as int],
    {
        let a = parent[cur as usize];
        proof {
            assert(parent@[cur as int] != NO_ARC);
            lemma_arc_sum_push(arcs, rs@, a);
        }
        rs.push(a);
        let next = idx.tail(a);
        proof {
            assert(ord[next as int] < ord[cur as int]);
            assert(settled@[next as int]);
            assert(ord[next as int] >= 0);
        }
        cur = next;
    }
    proof {
        assert(parent@[cur as int] == NO_ARC);
    }
    Some((rs, d))
}

/// Sweeps over the key paths of the tree, most expensive first (ties in the
/// order found), applying the first improving exchange and starting again
/// on the new tree, until a sweep finds none or the installed deadline
/// passes (read every [`CLOCK_EVERY`] paths). The new arc set, or `None` if
/// nothing improved.
fn one_pass(
    idx: &ArcIndex,
    active: &[bool],
    root: NodeId,
    edges: &Vec<ArcId>,
    is_terminal: &[bool],
    ws: &mut KeyPathWorkspace,
    cell: &DeadlineCell,
) -> (r: Option<Vec<ArcId>>)
    requires
        idx.wf(),
        active@.len() >= idx.tails@.len(),
        (root as int) < idx.num_nodes,
        is_terminal@.len() >= idx.num_nodes,
        forall|k: int| 0 <= k < edges@.len() ==> (#[trigger] edges@[k] as int) < idx.tails@.len(),
        old(ws).sized(idx.num_nodes as int),
    ensures
        final(ws).sized(idx.num_nodes as int),
        r matches Some(es) ==> (forall|k: int| 0 <= k < es@.len() ==> (#[trigger] es@[k] as int) < idx.tails@.len())
            && arc_sum(idx.arcs(), es@) < arc_sum(idx.arcs(), edges@),
{
    let ghost arcs = idx.arcs();
    let ghost orig = edges@;
    let n = idx.num_nodes();
    let mut edges = list_copy(edges);
    let mut any = false;
    loop
        invariant
            idx.wf(),
            arcs == idx.arcs(),
            n == idx.num_nodes,
            active@.len() >= idx.tails@.len(),
            (root as int) < n,
            is_terminal@.len() >= n,
            forall|k: int| 0 <= k < edges@.len() ==> (#[trigger] edges@[k] as int) < idx.tails@.len(),
            ws.sized(n as int),
            arc_sum(arcs, edges@) <= arc_sum(arcs, orig),
            any ==> arc_sum(arcs, edges@) < arc_sum(arcs, orig),
        decreases arc_sum(arcs, edges@),
    {
        build_tree(idx, &edges, ws);
        let paths = key_paths(root, &edges, idx, is_terminal, ws);
        // Most expensive first: those have the most room to be beaten.
        let mut keys: Vec<u64> = Vec::new();
        let mut k: usize = 0;
        while k < paths.len()
            invariant
                k <= paths@.len(),
                keys@.len() == k,
            decreases paths@.len() - k,
        {
            keys.push(u64::MAX - paths[k].cost);
            k += 1;
        }
        let order = by_cost(keys.as_slice());
        let mut applied = false;
        let mut next_edges: Vec<ArcId> = Vec::new();
        let mut pi: usize = 0;
        while pi < order.len()
            invariant_except_break
                !applied,
            invariant
                idx.wf(),
                arcs == idx.arcs(),
                n == idx.num_nodes,
                active@.len() >= idx.tails@.len(),
                forall|k2: int| 0 <= k2 < edges@.len() ==> (#[trigger] edges@[k2] as int) < idx.tails@.len(),
                tree_view(ws, arcs, n as int, edges@),
                forall|i: int| 0 <= i < paths@.len() ==> path_ok(#[trigger] paths@[i], arcs, n as int, edges@),
                order@.len() == paths@.len(),
                forall|i: int| 0 <= i < order@.len() ==> (#[trigger] order@[i] as int) < paths@.len(),
                pi <= order@.len(),
            ensures
                applied ==> (forall|k2: int| 0 <= k2 < next_edges@.len() ==> (#[trigger] next_edges@[k2] as int) < idx.tails@.len())
                    && arc_sum(arcs, next_edges@) < arc_sum(arcs, edges@),
            decreases order@.len() - pi,
        {
            if pi % CLOCK_EVERY == 0 && expired(cell) {
                break;
            }
            let path = &paths[order[pi]];
            proof {
                assert(path_ok(paths@[order@[pi as int] as int], arcs, n as int, edges@));
            }
            if path.cost > 0 {
                match cheapest_reconnect(idx, active, path, ws) {
                    None => {},
                    Some((repl, rc)) => {
                        if rc < path.cost {
                            // Drop the path's arcs (and their partners),
                            // then add the reconnection.
                            let mask = removal_mask(idx, path);
                            let mut kept: Vec<ArcId> = Vec::new();
                            let ghost mut dropped: Seq<ArcId> = Seq::empty();
                            let mut j: usize = 0;
                            while j < edges.len()
                                invariant
                                    idx.wf(),
                                    arcs == idx.arcs(),
                                    forall|k2: int| 0 <= k2 < edges@.len() ==> (#[trigger] edges@[k2] as int) < idx.tails@.len(),
                                    mask@.len() == idx.tails@.len(),
                                    j <= edges@.len(),
                                    arc_sum(arcs, edges@.take(j as int)) == arc_sum(arcs, kept@) + arc_sum(arcs, dropped),
                                    forall|k2: int| 0 <= k2 < kept@.len() ==> (#[trigger] kept@[k2] as int) < idx.tails@.len(),
                                    forall|k2: int| 0 <= k2 < j && mask@[edges@[k2] as int] ==> dropped.contains(#[trigger] edges@[k2]),
                                decreases edges@.len() - j,
                            {
                                let a = edges[j];
                                proof {
                                    assert(edges@.take(j + 1).drop_last() =~= edges@.take(j as int));
                                    assert(edges@.take(j + 1).last() == a);
                                }
                                if mask[a as usize] {
                                    proof {
                                        lemma_arc_sum_push(arcs, dropped, a);
                                        let d0 = dropped;
                                        dropped = dropped.push(a);
                                        assert forall|k2: int| 0 <= k2 < j + 1 && mask@[edges@[k2] as int] implies dropped.contains(#[trigger] edges@[k2]) by {
                                            if k2 < j {
                                                let w = choose|w: int| 0 <= w < d0.len() && d0[w] == edges@[k2];
                                                assert(dropped[w] == d0[w]);
                                            } else {
                                                assert(dropped[d0.len() as int] == a);
                                            }
                                        }
                                    }
                                } else {
                                    proof {
                                        lemma_arc_sum_push(arcs, kept@, a);
                                    }
                                    kept.push(a);
                                }
                                j += 1;
                            }
                            proof {
                                assert(edges@.take(edges@.len() as int) =~= edges@);
                                let p = path.arcs@;
                                assert forall|k2: int| 0 <= k2 < p.len() implies dropped.contains(#[trigger] p[k2]) by {
                                    assert(edges@.contains(p[k2]));
                                    let w = choose|w: int| 0 <= w < edges@.len() && edges@[w] == p[k2];
                                    assert(mask@[p[k2] as int]);
                                    assert(mask@[edges@[w] as int]);
                                }
                                lemma_sum_dominates(arcs, p, dropped);
                                lemma_arc_sum_concat(arcs, kept@, repl@);
                            }
                            let mut r2 = repl;
                            let ghost kept_view = kept@;
                            kept.append(&mut r2);
                            proof {
                                assert(kept@ =~= kept_view + repl@);
                            }
                            next_edges = kept;
                            applied = true;
                            break;
                        }
                    },
                }
            }
            pi += 1;
        }
        if !applied {
            break;
        }
        proof {
            lemma_arc_sum_nonneg(arcs, next_edges@);
        }
        edges = next_edges;
        any = true;
    }
    if any {
        Some(edges)
    } else {
        None
    }
}

/// Improve `solution` by key-path exchange, for at most `max_passes` sweeps
/// and while the installed deadline has not passed: the tree rebuilt over
/// the vertices the improved arcs touch (and the root), when strictly
/// cheaper than `solution`; `None` when no exchange applied or the rebuilt
/// tree is no cheaper.
pub fn key_path_exchange(
    idx: &ArcIndex,
    active: &[bool],
    root: NodeId,
    solution: &SphResult,
    is_terminal: &[bool],
    max_passes: u32,
    kws: &mut KeyPathWorkspace,
    sws: &mut SphWorkspace,
    cell: &DeadlineCell,
) -> (r: Option<SphResult>)
    requires
        idx.wf(),
        paired(idx.arcs()),
        active@.len() >= idx.tails@.len(),
        (root as int) < idx.num_nodes,
        is_terminal@.len() >= idx.num_nodes,
        forall|k: int| 0 <= k < solution.arcs@.len() ==> (#[trigger] solution.arcs@[k] as int) < idx.tails@.len(),
        old(kws).sized(idx.num_nodes as int),
        old(sws).wf(idx.num_nodes as int),
    ensures
        final(kws).sized(idx.num_nodes as int),
        final(sws).wf(idx.num_nodes as int),
        r matches Some(res) ==> rebuilt(idx.arcs(), active@, root as int, res) && res.cost < solution.cost,
{
    let n = idx.num_nodes();
    let mut edges = list_copy(&solution.arcs);
    let mut improved = false;
    let mut pass: u32 = 0;
    while pass < max_passes
        invariant
            idx.wf(),
            n == idx.num_nodes,
            active@.len() >= idx.tails@.len(),
            (root as int) < n,
            is_terminal@.len() >= n,
            forall|k: int| 0 <= k < edges@.len() ==> (#[trigger] edges@[k] as int) < idx.tails@.len(),
            kws.sized(n as int),
        decreases max_passes - pass,
    {
        // Stopping keeps every exchange already applied.
        if expired(cell) {
            break;
        }
        match one_pass(idx, active, root, &edges, is_terminal, kws, cell) {
            None => break,
            Some(next) => {
                edges = next;
                improved = true;
            },
        }
        pass += 1;
    }
    if !improved {
        return None;
    }
    // Rebuilt from its vertex set: the spanning tree of the induced subgraph
    // is no worse than the exchanges that produced it, and pruning drops any
    // Steiner leaf they left.
    let mut nodes: Vec<NodeId> = Vec::new();
    nodes.push(root);
    let mut k: usize = 0;
    while k < edges.len()
        invariant
            idx.wf(),
            n == idx.num_nodes,
            forall|k2: int| 0 <= k2 < edges@.len() ==> (#[trigger] edges@[k2] as int) < idx.tails@.len(),
            k <= edges@.len(),
            forall|j: int| 0 <= j < nodes@.len() ==> (#[trigger] nodes@[j] as int) < n,
        decreases edges@.len() - k,
    {
        nodes.push(idx.tail(edges[k]));
        nodes.push(idx.head(edges[k]));
        k += 1;
    }
    let set = sorted_set(&nodes);
    proof {
        assert forall|j: int| 0 <= j < set@.len() implies (#[trigger] set@[j] as int) < n by {
            assert(set@.to_set().contains(set@[j]));
            assert(nodes@.to_set().contains(set@[j]));
            let i = choose|i: int| 0 <= i < nodes@.len() && nodes@[i] == set@[j];
        }
    }
    let res = mst_prune(idx, active, root, set.as_slice(), is_terminal, sws);
    if res.cost < solution.cost {
        Some(res)
    } else {
        None
    }
}

} // verus!
