//! Exact recombination: the cheapest tree inside a ground set, by the
//! dynamic programme over a tree decomposition.
//!
//! A ground set is a list of arcs of the (edge-doubled) graph, one
//! orientation each; its vertices are their ends and the root. Parallel arcs
//! between one pair of vertices keep the cheapest (the first among equals).
//! The ground set is decomposed, refused when its width exceeds the cap or
//! the programme's estimated work exceeds the allowance, and solved; the tree
//! read back is oriented away from the root.
//!
//! The ground sets offered are the union of some solutions' arcs (all arcs
//! between their vertices first, then only the arcs they use), or a seed
//! grown by the rest of the graph in the order of a guide, as far as the cap
//! admits, by a doubling then bisecting search over prefixes.
use vstd::prelude::*;
use std::time::Instant;
use crate::graph::types::{Arc, ArcId, Cost, NodeId, NodeType};
use crate::graph::undirected::UndirectedGraph;
use crate::graph::algorithms::dual_ascent::{ArcIndex, ids_out_of, lemma_ids_out_of};
use crate::graph::algorithms::vertex_sets::{sorted_set, strictly_sorted};
use crate::graph::algorithms::tree_decomposition::{decompose_portfolio, orderings};
use crate::graph::algorithms::steiner_td::steiner_tree_over_decomposition;
use crate::graph::algorithms::rank_reduction::by_cost;
use crate::deadline::passed;
use super::sph::{orient, paired, partner, adj_ok, inside, oriented_tree, SphResult};
use super::key_vertex::rebuilt;

verus! {

/// Signatures the programme may hold across its nodes: a memory guard.
pub const STATE_CAP: usize = 3_000_000;

/// What one exact attempt did.
#[derive(Debug, Clone, Copy)]
pub struct ExactRecombStat {
    /// Vertices of the ground set.
    pub nodes: u32,
    pub edges: u32,
    /// Width of the decomposition solved over.
    pub width: u32,
    /// Whether the ground set was every arc between the vertices.
    pub induced: bool,
    pub cost: Cost,
}

/// Every arc counts as active.
pub open spec fn all_active(m: nat) -> Seq<bool> {
    Seq::new(m, |i: int| true)
}

/// `v` is an end of arc `a`.
pub open spec fn ends_at(arcs: Seq<Arc>, a: ArcId, v: int) -> bool {
    arcs[a as int].tail == v || arcs[a as int].head == v
}

/// `v` belongs to the ground set `ground`: it is the root or an end of one
/// of its arcs.
pub open spec fn touched(arcs: Seq<Arc>, ground: Seq<ArcId>, root: int, v: int) -> bool {
    v == root || exists|k: int| 0 <= k < ground.len() && #[trigger] ends_at(arcs, ground[k], v)
}

/// The vertices of `edges` and the root, in increasing order.
fn ground_vertices(idx: &ArcIndex, root: NodeId, edges: &Vec<ArcId>) -> (verts: Vec<NodeId>)
    requires
        idx.wf(),
        (root as int) < idx.num_nodes,
        forall|k: int| 0 <= k < edges@.len() ==> (#[trigger] edges@[k] as int) < idx.tails@.len(),
    ensures
        verts@.contains(root),
        strictly_sorted(verts@),
        forall|j: int| 0 <= j < verts@.len() ==> (#[trigger] verts@[j] as int) < idx.num_nodes,
        forall|j: int| 0 <= j < verts@.len() ==> touched(idx.arcs(), edges@, root as int, #[trigger] verts@[j] as int),
        forall|k: int| 0 <= k < edges@.len() ==> verts@.contains(idx.arcs()[#[trigger] edges@[k] as int].tail)
            && verts@.contains(idx.arcs()[edges@[k] as int].head),
{
    let ghost arcs = idx.arcs();
    let mut all: Vec<NodeId> = Vec::new();
    all.push(root);
    let mut k: usize = 0;
    while k < edges.len()
        invariant
            idx.wf(),
            arcs == idx.arcs(),
            forall|k2: int| 0 <= k2 < edges@.len() ==> (#[trigger] edges@[k2] as int) < idx.tails@.len(),
            k <= edges@.len(),
            all@.len() == 1 + 2 * k,
            all@[0] == root,
            forall|j: int| 0 <= j < all@.len() ==> (#[trigger] all@[j] as int) < idx.num_nodes,
            forall|k2: int| 0 <= k2 < k ==> all@[1 + 2 * k2] == arcs[#[trigger] edges@[k2] as int].tail
                && all@[2 + 2 * k2] == arcs[edges@[k2] as int].head,
        decreases edges@.len() - k,
    {
        all.push(idx.tail(edges[k]));
        all.push(idx.head(edges[k]));
        k += 1;
    }
    let verts = sorted_set(&all);
    proof {
        assert(all@.to_set().contains(root));
        assert(verts@.to_set().contains(root));
        assert forall|j: int| 0 <= j < verts@.len() implies (#[trigger] verts@[j] as int) < idx.num_nodes by {
            assert(verts@.to_set().contains(verts@[j]));
            assert(all@.to_set().contains(verts@[j]));
            let i = choose|i: int| 0 <= i < all@.len() && all@[i] == verts@[j];
        }
        assert forall|j: int| 0 <= j < verts@.len() implies touched(arcs, edges@, root as int, #[trigger] verts@[j] as int) by {
            assert(verts@.to_set().contains(verts@[j]));
            assert(all@.to_set().contains(verts@[j]));
            let i = choose|i: int| 0 <= i < all@.len() && all@[i] == verts@[j];
            if i > 0 {
                let k2 = (i - 1) / 2;
                assert(all@[1 + 2 * k2] == arcs[edges@[k2] as int].tail);
                assert(ends_at(arcs, edges@[k2], verts@[j] as int));
            }
        }
        assert forall|k2: int| 0 <= k2 < edges@.len() implies verts@.contains(arcs[#[trigger] edges@[k2] as int].tail)
            && verts@.contains(arcs[edges@[k2] as int].head) by {
            assert(all@[1 + 2 * k2] == arcs[edges@[k2] as int].tail);
            assert(all@[2 + 2 * k2] == arcs[edges@[k2] as int].head);
            assert(all@.to_set().contains(all@[1 + 2 * k2]));
            assert(all@.to_set().contains(all@[2 + 2 * k2]));
            assert(verts@.to_set().contains(arcs[edges@[k2] as int].tail));
            assert(verts@.to_set().contains(arcs[edges@[k2] as int].head));
        }
    }
    verts
}

/// One past the position of each vertex of `verts` in it, `0` for the
/// vertices not in it.
fn positions(verts: &Vec<NodeId>, n: usize) -> (pos: Vec<u32>)
    requires
        strictly_sorted(verts@),
        verts@.len() < 0x100000,
        n <= u32::MAX,
        forall|j: int| 0 <= j < verts@.len() ==> (#[trigger] verts@[j] as int) < n,
    ensures
        pos@.len() == n,
        forall|v: int| 0 <= v < n ==> (#[trigger] pos@[v] != 0 <==> verts@.contains(v as NodeId)),
        forall|v: int| 0 <= v < n && #[trigger] pos@[v] != 0 ==> pos@[v] <= verts@.len() && verts@[pos@[v] - 1] == v,
{
    let mut pos: Vec<u32> = vec![0; n];
    let mut i: usize = 0;
    while i < verts.len()
        invariant
            strictly_sorted(verts@),
            verts@.len() < 0x100000,
            n <= u32::MAX,
            forall|j: int| 0 <= j < verts@.len() ==> (#[trigger] verts@[j] as int) < n,
            i <= verts@.len(),
            pos@.len() == n,
            forall|v: int| 0 <= v < n ==> (#[trigger] pos@[v] != 0 <==> verts@.take(i as int).contains(v as NodeId)),
            forall|v: int| 0 <= v < n && #[trigger] pos@[v] != 0 ==> pos@[v] <= i && verts@[pos@[v] - 1] == v,
        decreases verts@.len() - i,
    {
        let v = verts[i];
        pos.set(v as usize, (i + 1) as u32);
        proof {
            assert forall|w: int| 0 <= w < n implies (#[trigger] pos@[w] != 0 <==> verts@.take(i + 1).contains(w as NodeId)) by {
                if w == v as int {
                    assert(verts@.take(i + 1)[i as int] == v);
                } else {
                    if verts@.take(i + 1).contains(w as NodeId) {
                        let j = choose|j: int| 0 <= j < i + 1 && #[trigger] verts@.take(i + 1)[j] == w as NodeId;
                        assert(j != i);
                        assert(verts@.take(i as int)[j] == w as NodeId);
                    }
                    if verts@.take(i as int).contains(w as NodeId) {
                        let j = choose|j: int| 0 <= j < i && #[trigger] verts@.take(i as int)[j] == w as NodeId;
                        assert(verts@.take(i + 1)[j] == w as NodeId);
                    }
                }
            }
        }
        i += 1;
    }
    proof {
        assert(verts@.take(verts@.len() as int) =~= verts@);
    }
    pos
}

/// The positions of the ends of arc `a`, smaller first.
pub open spec fn pair_of(pos: Seq<u32>, arcs: Seq<Arc>, a: ArcId) -> (u32, u32) {
    let p = pos[arcs[a as int].tail as int];
    let q = pos[arcs[a as int].head as int];
    if p < q { (p, q) } else { (q, p) }
}

/// Each arc of `back` is listed, by its position, at the smaller position
/// of its pair, with the larger.
pub open spec fn indexed(pos: Seq<u32>, arcs: Seq<Arc>, back: Seq<ArcId>, at: Seq<Vec<(u32, usize)>>) -> bool {
    forall|e: int| 0 <= e < back.len() ==> #[trigger] listed_at(at, pair_of(pos, arcs, back[e]), e)
}

/// `at` lists `(pair.1, e)` under `pair.0`.
pub open spec fn listed_at(at: Seq<Vec<(u32, usize)>>, pair: (u32, u32), e: int) -> bool {
    exists|j: int| 0 <= j < at[pair.0 as int]@.len() && #[trigger] at[pair.0 as int]@[j] == (pair.1, e as usize)
}

/// Among `back`, an arc of the pair of `a` that costs no more than `a`.
pub open spec fn cheap_witness(pos: Seq<u32>, arcs: Seq<Arc>, back: Seq<ArcId>, a: ArcId) -> bool {
    exists|e: int| 0 <= e < back.len() && pair_of(pos, arcs, #[trigger] back[e]) == pair_of(pos, arcs, a)
        && arcs[back[e] as int].cost <= arcs[a as int].cost
}

/// One arc of `edges` per pair of distinct vertices joined by any: the
/// cheapest, the first met among equals, in the order the pairs are first
/// met. Parallel arcs never help a tree, and keeping a dearer one could lose
/// the very arc a solution uses.
#[verifier::rlimit(60)]
fn cheapest_arcs(idx: &ArcIndex, edges: &Vec<ArcId>, pos: &Vec<u32>, nv: usize) -> (back: Vec<ArcId>)
    requires
        idx.wf(),
        pos@.len() == idx.num_nodes,
        forall|v: int| 0 <= v < idx.num_nodes ==> (#[trigger] pos@[v] as int) <= nv,
        nv < usize::MAX,
        forall|k: int| 0 <= k < edges@.len() ==> (#[trigger] edges@[k] as int) < idx.tails@.len(),
    ensures
        back@.len() <= edges@.len(),
        forall|e: int| 0 <= e < back@.len() ==> edges@.contains(#[trigger] back@[e]),
        forall|e: int| 0 <= e < back@.len() ==> idx.arcs()[#[trigger] back@[e] as int].tail != idx.arcs()[back@[e] as int].head,
        forall|e1: int, e2: int| 0 <= e1 < e2 < back@.len() ==>
            pair_of(pos@, idx.arcs(), #[trigger] back@[e1]) != pair_of(pos@, idx.arcs(), #[trigger] back@[e2]),
        forall|k: int| 0 <= k < edges@.len() && idx.arcs()[#[trigger] edges@[k] as int].tail != idx.arcs()[edges@[k] as int].head
            ==> cheap_witness(pos@, idx.arcs(), back@, edges@[k]),
{
    let ghost arcs = idx.arcs();
    let mut at: Vec<Vec<(u32, usize)>> = Vec::new();
    let mut i: usize = 0;
    while i <= nv
        invariant
            nv < usize::MAX,
            i <= nv + 1,
            at@.len() == i,
            forall|l: int| 0 <= l < at@.len() ==> (#[trigger] at@[l])@.len() == 0,
        decreases nv + 1 - i,
    {
        at.push(Vec::new());
        i += 1;
    }
    let mut back: Vec<ArcId> = Vec::new();
    let mut k: usize = 0;
    while k < edges.len()
        invariant
            idx.wf(),
            arcs == idx.arcs(),
            pos@.len() == idx.num_nodes,
            forall|v: int| 0 <= v < idx.num_nodes ==> (#[trigger] pos@[v] as int) <= nv,
            forall|k2: int| 0 <= k2 < edges@.len() ==> (#[trigger] edges@[k2] as int) < idx.tails@.len(),
            at@.len() == nv + 1,
            k <= edges@.len(),
            back@.len() <= k,
            forall|l: int, j: int| 0 <= l < at@.len() && 0 <= j < at@[l]@.len() ==> {
                let (h, e) = #[trigger] at@[l]@[j];
                e < back@.len() && pair_of(pos@, arcs, back@[e as int]).0 as int == l && pair_of(pos@, arcs, back@[e as int]).1 == h
            },
            indexed(pos@, arcs, back@, at@),
            forall|e: int| 0 <= e < back@.len() ==> edges@.contains(#[trigger] back@[e]),
            forall|e: int| 0 <= e < back@.len() ==> (#[trigger] back@[e] as int) < arcs.len(),
            forall|e: int| 0 <= e < back@.len() ==> arcs[#[trigger] back@[e] as int].tail != arcs[back@[e] as int].head,
            forall|e1: int, e2: int| 0 <= e1 < e2 < back@.len() ==>
                pair_of(pos@, arcs, #[trigger] back@[e1]) != pair_of(pos@, arcs, #[trigger] back@[e2]),
            forall|k2: int| 0 <= k2 < k && arcs[#[trigger] edges@[k2] as int].tail != arcs[edges@[k2] as int].head
                ==> cheap_witness(pos@, arcs, back@, edges@[k2]),
        decreases edges@.len() - k,
    {
        let a = edges[k];
        let u = idx.tail(a);
        let w = idx.head(a);
        proof {
            assert(edges@[k as int] == a);
            assert(arcs[a as int].tail == u && arcs[a as int].head == w);
        }
        if u != w {
            let pu = pos[u as usize];
            let pw = pos[w as usize];
            let (lo, hi) = if pu < pw { (pu, pw) } else { (pw, pu) };
            assert(pair_of(pos@, arcs, a) == (lo, hi));
            let mut found: Option<usize> = None;
            let mut j: usize = 0;
            while j < at[lo as usize].len()
                invariant
                    at@.len() == nv + 1,
                    (lo as int) <= nv,
                    j <= at@[lo as int]@.len(),
                    forall|l: int, j2: int| 0 <= l < at@.len() && 0 <= j2 < at@[l]@.len() ==> {
                        let (h, e) = #[trigger] at@[l]@[j2];
                        e < back@.len() && pair_of(pos@, arcs, back@[e as int]).0 as int == l && pair_of(pos@, arcs, back@[e as int]).1 == h
                    },
                    found is None ==> forall|j2: int| 0 <= j2 < j ==> (#[trigger] at@[lo as int]@[j2]).0 != hi,
                    found matches Some(s) ==> s < back@.len() && pair_of(pos@, arcs, back@[s as int]) == (lo, hi),
                ensures
                    found is None ==> forall|j2: int| 0 <= j2 < at@[lo as int]@.len() ==> (#[trigger] at@[lo as int]@[j2]).0 != hi,
                    found matches Some(s) ==> s < back@.len() && pair_of(pos@, arcs, back@[s as int]) == (lo, hi),
                decreases at@[lo as int]@.len() - j,
            {
                if at[lo as usize][j].0 == hi {
                    found = Some(at[lo as usize][j].1);
                    break;
                }
                j += 1;
            }
            let ghost old_back = back@;
            match found {
                Some(s) => {
                    if idx.cost(a) < idx.cost(back[s]) {
                        back.set(s, a);
                        proof {
                            assert forall|e: int| 0 <= e < back@.len() implies edges@.contains(#[trigger] back@[e]) by {
                                if e != s as int {
                                    assert(back@[e] == old_back[e]);
                                }
                            }
                            assert forall|k2: int| 0 <= k2 < k + 1 && arcs[#[trigger] edges@[k2] as int].tail != arcs[edges@[k2] as int].head
                                implies cheap_witness(pos@, arcs, back@, edges@[k2]) by {
                                if k2 == k as int {
                                    assert(pair_of(pos@, arcs, back@[s as int]) == pair_of(pos@, arcs, a));
                                } else {
                                    let e = choose|e: int| 0 <= e < old_back.len() && pair_of(pos@, arcs, #[trigger] old_back[e]) == pair_of(pos@, arcs, edges@[k2])
                                        && arcs[old_back[e] as int].cost <= arcs[edges@[k2] as int].cost;
                                    assert(pair_of(pos@, arcs, back@[e]) == pair_of(pos@, arcs, edges@[k2]));
                                }
                            }
                            assert forall|e: int| 0 <= e < back@.len() implies #[trigger] listed_at(at@, pair_of(pos@, arcs, back@[e]), e) by {
                                assert(pair_of(pos@, arcs, back@[e]) == pair_of(pos@, arcs, old_back[e]));
                                assert(listed_at(at@, pair_of(pos@, arcs, old_back[e]), e));
                            }
                            assert forall|e1: int, e2: int| 0 <= e1 < e2 < back@.len() implies
                                pair_of(pos@, arcs, #[trigger] back@[e1]) != pair_of(pos@, arcs, #[trigger] back@[e2]) by {
                                assert(pair_of(pos@, arcs, back@[e1]) == pair_of(pos@, arcs, old_back[e1]));
                                assert(pair_of(pos@, arcs, back@[e2]) == pair_of(pos@, arcs, old_back[e2]));
                            }
                        }
                    } else {
                        proof {
                            assert(cheap_witness(pos@, arcs, back@, a)) by {
                                assert(pair_of(pos@, arcs, back@[s as int]) == pair_of(pos@, arcs, a));
                            }
                        }
                    }
                },
                None => {
                    let ghost old_at = at@;
                    let slot = back.len();
                    proof {
                        assert forall|e: int| 0 <= e < old_back.len() implies pair_of(pos@, arcs, #[trigger] old_back[e]) != (lo, hi) by {
                            if pair_of(pos@, arcs, old_back[e]) == (lo, hi) {
                                assert(listed_at(at@, pair_of(pos@, arcs, old_back[e]), e));
                                let j2 = choose|j2: int| 0 <= j2 < at@[lo as int]@.len() && #[trigger] at@[lo as int]@[j2] == (hi, e as usize);
                                assert(at@[lo as int]@[j2].0 != hi);
                            }
                        }
                    }
                    back.push(a);
                    at[lo as usize].push((hi, slot));
                    proof {
                        assert(back@[slot as int] == a);
                        assert forall|l: int, j2: int| 0 <= l < at@.len() && 0 <= j2 < at@[l]@.len() implies {
                            let (h, e) = #[trigger] at@[l]@[j2];
                            e < back@.len() && pair_of(pos@, arcs, back@[e as int]).0 as int == l && pair_of(pos@, arcs, back@[e as int]).1 == h
                        } by {
                            if l != lo as int || j2 < old_at[l]@.len() {
                                assert(at@[l]@[j2] == old_at[l]@[j2]);
                                assert(back@[old_at[l]@[j2].1 as int] == old_back[old_at[l]@[j2].1 as int]);
                            }
                        }
                        assert forall|e: int| 0 <= e < back@.len() implies #[trigger] listed_at(at@, pair_of(pos@, arcs, back@[e]), e) by {
                            if e == slot as int {
                                assert(at@[lo as int]@[old_at[lo as int]@.len() as int] == (hi, slot));
                            } else {
                                assert(back@[e] == old_back[e]);
                                let pr = pair_of(pos@, arcs, old_back[e]);
                                assert(listed_at(old_at, pr, e));
                                let j2 = choose|j2: int| 0 <= j2 < old_at[pr.0 as int]@.len() && #[trigger] old_at[pr.0 as int]@[j2] == (pr.1, e as usize);
                                assert(at@[pr.0 as int]@[j2] == old_at[pr.0 as int]@[j2]);
                            }
                        }
                        assert forall|e: int| 0 <= e < back@.len() implies edges@.contains(#[trigger] back@[e]) by {
                            if e < old_back.len() {
                                assert(back@[e] == old_back[e]);
                            }
                        }
                        assert forall|e1: int, e2: int| 0 <= e1 < e2 < back@.len() implies
                            pair_of(pos@, arcs, #[trigger] back@[e1]) != pair_of(pos@, arcs, #[trigger] back@[e2]) by {
                            assert(back@[e1] == old_back[e1]);
                            if e2 < old_back.len() {
                                assert(back@[e2] == old_back[e2]);
                            }
                        }
                        assert forall|k2: int| 0 <= k2 < k + 1 && arcs[#[trigger] edges@[k2] as int].tail != arcs[edges@[k2] as int].head
                            implies cheap_witness(pos@, arcs, back@, edges@[k2]) by {
                            if k2 == k as int {
                                assert(back@[slot as int] == edges@[k2]);
                            } else {
                                let e = choose|e: int| 0 <= e < old_back.len() && pair_of(pos@, arcs, #[trigger] old_back[e]) == pair_of(pos@, arcs, edges@[k2])
                                    && arcs[old_back[e] as int].cost <= arcs[edges@[k2] as int].cost;
                                assert(back@[e] == old_back[e]);
                            }
                        }
                    }
                },
            }
        }
        k += 1;
    }
    back
}

/// Each arc of `out`, or its partner, is an arc of `ground`.
pub open spec fn within(ground: Seq<ArcId>, out: Seq<ArcId>) -> bool {
    forall|k: int| 0 <= k < out.len() ==> ground.contains(#[trigger] out[k]) || ground.contains(partner(out[k] as int) as ArcId)
}

/// Every terminal belongs to the ground set `ground`.
pub open spec fn covers(arcs: Seq<Arc>, ground: Seq<ArcId>, root: int, terminals: Seq<NodeId>) -> bool {
    forall|t: int| 0 <= t < terminals.len() ==> touched(arcs, ground, root, #[trigger] terminals[t] as int)
}

/// What the arc-level preconditions of the exact step ask of the index.
pub open spec fn ground_ok(idx: &ArcIndex, root: NodeId, edges: Seq<ArcId>, terminals: Seq<NodeId>, is_terminal: Seq<bool>) -> bool {
    &&& idx.wf()
    &&& paired(idx.arcs())
    &&& (root as int) < idx.num_nodes
    &&& is_terminal.len() >= idx.num_nodes
    &&& forall|k: int| 0 <= k < edges.len() ==> (#[trigger] edges[k] as int) < idx.tails@.len()
    &&& forall|t: int| 0 <= t < terminals.len() ==> (#[trigger] terminals[t] as int) < idx.num_nodes
}

/// The cheapest tree spanning `terminals` inside the ground set `edges`, by
/// the programme over a decomposition of it. `None` when a terminal lies
/// outside the ground set, when it does not decompose inside `max_width`,
/// when the decomposition's estimated work exceeds `max_work`, when the
/// programme gives up (state cap, deadline), or when the tree read back does
/// not orient from the root.
fn solve_ground_set(
    idx: &ArcIndex,
    root: NodeId,
    edges: &Vec<ArcId>,
    terminals: &[NodeId],
    is_terminal: &[bool],
    max_width: usize,
    max_work: u128,
    induced: bool,
    deadline: Option<Instant>,
) -> (r: Option<(SphResult, ExactRecombStat)>)
    requires
        ground_ok(idx, root, edges@, terminals@, is_terminal@),
    ensures
        !covers(idx.arcs(), edges@, root as int, terminals@) ==> r is None,
        r matches Some((res, stat)) ==> {
            &&& rebuilt(idx.arcs(), all_active(idx.tails@.len() as nat), root as int, res)
            &&& within(edges@, res.arcs@)
            &&& stat.cost == res.cost
            &&& stat.induced == induced
        },
{
    let ghost arcs = idx.arcs();
    let n = idx.num_nodes();
    let verts = ground_vertices(idx, root, edges);
    let nv = verts.len();
    if nv >= 0x100000 {
        return None;
    }
    let pos = positions(&verts, n);
    proof {
        assert forall|v: int| 0 <= v < n implies (#[trigger] pos@[v] as int) <= nv by {}
    }
    // Every terminal inside the ground set, or the answer solves nothing.
    let mut local: Vec<NodeId> = Vec::new();
    let mut t: usize = 0;
    while t < terminals.len()
        invariant
            ground_ok(idx, root, edges@, terminals@, is_terminal@),
            arcs == idx.arcs(),
            n == idx.num_nodes,
            pos@.len() == n,
            forall|v: int| 0 <= v < n ==> (#[trigger] pos@[v] != 0 <==> verts@.contains(v as NodeId)),
            forall|j: int| 0 <= j < verts@.len() ==> touched(arcs, edges@, root as int, #[trigger] verts@[j] as int),
            verts@.contains(root),
            forall|k: int| 0 <= k < edges@.len() ==> verts@.contains(arcs[#[trigger] edges@[k] as int].tail)
                && verts@.contains(arcs[edges@[k] as int].head),
            t <= terminals@.len(),
            local@.len() == t,
            forall|j: int| 0 <= j < t ==> touched(arcs, edges@, root as int, #[trigger] terminals@[j] as int),
        decreases terminals@.len() - t,
    {
        let p = pos[terminals[t] as usize];
        if p == 0 {
            proof {
                let v = terminals@[t as int];
                assert(!verts@.contains(v));
                if touched(arcs, edges@, root as int, v as int) {
                    if v as int != root as int {
                        let k = choose|k: int| 0 <= k < edges@.len() && #[trigger] ends_at(arcs, edges@[k], v as int);
                        assert(verts@.contains(arcs[edges@[k] as int].tail) && verts@.contains(arcs[edges@[k] as int].head));
                    }
                }
                assert(!touched(arcs, edges@, root as int, v as int));
            }
            return None;
        }
        proof {
            let v = terminals@[t as int];
            assert(verts@.contains(v));
            let j = choose|j: int| 0 <= j < verts@.len() && verts@[j] == v;
            assert(touched(arcs, edges@, root as int, verts@[j] as int));
        }
        local.push(p);
        t += 1;
    }
    let back = cheapest_arcs(idx, edges, &pos, nv);
    if back.len() >= 0xffff_ffff {
        return None;
    }
    let mut g = UndirectedGraph::new(nv as u32);
    let mut i: usize = 0;
    while i < nv
        invariant
            g.wf(),
            i <= nv,
            nv < 0x100000,
            nv == verts@.len(),
            g.nodes@.len() == i,
            g.edges@.len() == 0,
            forall|j: int| 0 <= j < verts@.len() ==> (#[trigger] verts@[j] as int) < idx.num_nodes,
            is_terminal@.len() >= idx.num_nodes,
        decreases nv - i,
    {
        let node_type = if is_terminal[verts[i] as usize] { NodeType::Terminal } else { NodeType::Steiner };
        g.add_node((i + 1) as u32, node_type, 0);
        i += 1;
    }
    let mut e: usize = 0;
    while e < back.len()
        invariant
            g.wf(),
            g.nodes@.len() == nv,
            nv < 0x100000,
            e <= back@.len(),
            back@.len() < 0xffff_ffff,
            g.edges@.len() == e,
            idx.wf(),
            forall|k: int| 0 <= k < back@.len() ==> edges@.contains(#[trigger] back@[k]),
            forall|k: int| 0 <= k < edges@.len() ==> (#[trigger] edges@[k] as int) < idx.tails@.len(),
            pos@.len() == idx.num_nodes,
            forall|v: int| 0 <= v < idx.num_nodes ==> (#[trigger] pos@[v] as int) <= nv,
        decreases back@.len() - e,
    {
        let a = back[e];
        proof {
            let k = choose|k: int| 0 <= k < edges@.len() && edges@[k] == a;
            assert((edges@[k] as int) < idx.tails@.len());
        }
        let u = pos[idx.tail(a) as usize];
        let w = pos[idx.head(a) as usize];
        g.add_edge(u, w, idx.cost(a));
        e += 1;
    }
    let all = orderings();
    let (td, work) = match decompose_portfolio(&g, max_width, deadline, &all) {
        Some(found) => found,
        None => return None,
    };
    if td.index_to_node.len() > 0xffff_ffff {
        return None;
    }
    if !td.verify(&g) {
        return None;
    }
    // Refused when this decomposition would touch more table entries than allowed.
    if work > max_work {
        return None;
    }
    let (_, used) = match steiner_tree_over_decomposition(&g, local.as_slice(), &td, STATE_CAP, true, deadline) {
        Some(found) => found,
        None => return None,
    };
    let mut active: Vec<bool> = vec![false; idx.num_arcs()];
    let mut k: usize = 0;
    while k < edges.len()
        invariant
            idx.wf(),
            active@.len() == idx.tails@.len(),
            forall|k2: int| 0 <= k2 < edges@.len() ==> (#[trigger] edges@[k2] as int) < idx.tails@.len(),
            k <= edges@.len(),
            forall|a: int| 0 <= a < active@.len() && #[trigger] active@[a] ==> edges@.contains(a as ArcId),
            forall|j: int| 0 <= j < k ==> active@[#[trigger] edges@[j] as int],
        decreases edges@.len() - k,
    {
        active.set(edges[k] as usize, true);
        k += 1;
    }
    let mut adj: Vec<Vec<(NodeId, ArcId)>> = Vec::new();
    let mut v: usize = 0;
    while v < n
        invariant
            v <= n,
            adj@.len() == v,
            forall|w: int| 0 <= w < v ==> (#[trigger] adj@[w])@ == Seq::<(NodeId, ArcId)>::empty(),
        decreases n - v,
    {
        adj.push(Vec::new());
        v += 1;
    }
    let mut j: usize = 0;
    while j < used.len()
        invariant
            idx.wf(),
            arcs == idx.arcs(),
            n == idx.num_nodes,
            adj@.len() == n,
            adj_ok(adj@, arcs, active@, verts@, root as int),
            j <= used@.len(),
            back@.len() == g.edges@.len(),
            forall|i2: int| 0 <= i2 < used@.len() ==> (#[trigger] used@[i2] as int) < g.edges@.len(),
            forall|k2: int| 0 <= k2 < back@.len() ==> edges@.contains(#[trigger] back@[k2]),
            forall|k2: int| 0 <= k2 < edges@.len() ==> (#[trigger] edges@[k2] as int) < idx.tails@.len(),
            forall|k2: int| 0 <= k2 < edges@.len() ==> active@[#[trigger] edges@[k2] as int],
            active@.len() == idx.tails@.len(),
            forall|k2: int| 0 <= k2 < edges@.len() ==> verts@.contains(arcs[#[trigger] edges@[k2] as int].tail)
                && verts@.contains(arcs[edges@[k2] as int].head),
        decreases used@.len() - j,
    {
        let a = back[used[j] as usize];
        let u = idx.tail(a);
        let w = idx.head(a);
        let ghost old_adj = adj@;
        proof {
            let k2 = choose|k2: int| 0 <= k2 < edges@.len() && edges@[k2] == a;
            assert((edges@[k2] as int) < idx.tails@.len());
            assert(active@[edges@[k2] as int]);
            assert(verts@.contains(arcs[edges@[k2] as int].tail) && verts@.contains(arcs[edges@[k2] as int].head));
        }
        adj[u as usize].push((w, a));
        adj[w as usize].push((u, a));
        proof {
            assert forall|x: int, j2: int| 0 <= x < adj@.len() && 0 <= j2 < adj@[x]@.len() implies {
                let (y, b) = #[trigger] adj@[x]@[j2];
                &&& (b as int) < arcs.len()
                &&& active@[b as int]
                &&& (y as int) < adj@.len()
                &&& ((arcs[b as int].tail == x && arcs[b as int].head == y) || (arcs[b as int].head == x && arcs[b as int].tail == y))
                &&& inside(verts@, root as int, x)
                &&& inside(verts@, root as int, y as int)
            } by {
                if j2 < old_adj[x]@.len() {
                    assert(adj@[x]@[j2] == old_adj[x]@[j2]);
                }
            }
        }
        j += 1;
    }
    let mut alive: Vec<bool> = Vec::new();
    let mut v: usize = 0;
    while v < n
        invariant
            v <= n,
            pos@.len() == n,
            alive@.len() == v,
            forall|w: int| 0 <= w < v ==> (#[trigger] alive@[w] <==> pos@[w] != 0),
        decreases n - v,
    {
        alive.push(pos[v] != 0);
        v += 1;
    }
    proof {
        assert(alive@[root as int]);
        assert forall|w: int| 0 <= w < n && #[trigger] alive@[w] implies inside(verts@, root as int, w) by {
            assert(verts@.contains(w as NodeId));
        }
    }
    let res = orient(idx, active.as_slice(), &adj, &alive, root, Ghost(verts@));
    if res.arcs.len() != used.len() {
        return None;
    }
    proof {
        let m = idx.tails@.len() as nat;
        assert(oriented_tree(arcs, all_active(m), root as int, verts@, res.arcs@));
        assert forall|q: int| 0 <= q < res.arcs@.len() implies edges@.contains(#[trigger] res.arcs@[q])
            || edges@.contains(partner(res.arcs@[q] as int) as ArcId) by {
            if active@[res.arcs@[q] as int] {
                assert(edges@.contains(res.arcs@[q] as int as ArcId));
            } else {
                assert(active@[partner(res.arcs@[q] as int)]);
            }
        }
    }
    let stat = ExactRecombStat {
        nodes: nv as u32,
        edges: back.len() as u32,
        width: if td.width > 0xffff_ffff { 0xffff_ffff } else { td.width as u32 },
        induced,
        cost: res.cost,
    };
    Some((res, stat))
}

/// The arc `a` joins two vertices of `verts`, from the smaller id to the
/// larger.
pub open spec fn induced_by(arcs: Seq<Arc>, verts: Seq<NodeId>, a: int) -> bool {
    &&& arcs[a].tail < arcs[a].head
    &&& verts.contains(arcs[a].tail)
    &&& verts.contains(arcs[a].head)
}

/// Every arc between two vertices of `verts`, one orientation each (from the
/// smaller id), in the order of `verts` and then of the arcs.
fn induced_arcs(idx: &ArcIndex, verts: &Vec<NodeId>) -> (out: Vec<ArcId>)
    requires
        idx.wf(),
        forall|j: int| 0 <= j < verts@.len() ==> (#[trigger] verts@[j] as int) < idx.num_nodes,
    ensures
        forall|k: int| 0 <= k < out@.len() ==> (#[trigger] out@[k] as int) < idx.tails@.len()
            && induced_by(idx.arcs(), verts@, out@[k] as int),
        forall|a: int| 0 <= a < idx.tails@.len() && #[trigger] induced_by(idx.arcs(), verts@, a) ==> out@.contains(a as ArcId),
{
    let ghost arcs = idx.arcs();
    let n = idx.num_nodes();
    let mut mark: Vec<bool> = vec![false; n];
    let mut i: usize = 0;
    while i < verts.len()
        invariant
            mark@.len() == n,
            n == idx.num_nodes,
            forall|j: int| 0 <= j < verts@.len() ==> (#[trigger] verts@[j] as int) < idx.num_nodes,
            i <= verts@.len(),
            forall|v: int| 0 <= v < n && #[trigger] mark@[v] ==> verts@.contains(v as NodeId),
            forall|j: int| 0 <= j < i ==> mark@[#[trigger] verts@[j] as int],
        decreases verts@.len() - i,
    {
        mark.set(verts[i] as usize, true);
        i += 1;
    }
    let mut out: Vec<ArcId> = Vec::new();
    let mut i: usize = 0;
    while i < verts.len()
        invariant
            idx.wf(),
            arcs == idx.arcs(),
            mark@.len() == n,
            n == idx.num_nodes,
            forall|j: int| 0 <= j < verts@.len() ==> (#[trigger] verts@[j] as int) < idx.num_nodes,
            forall|v: int| 0 <= v < n && #[trigger] mark@[v] ==> verts@.contains(v as NodeId),
            forall|j: int| 0 <= j < verts@.len() ==> mark@[#[trigger] verts@[j] as int],
            i <= verts@.len(),
            forall|k: int| 0 <= k < out@.len() ==> (#[trigger] out@[k] as int) < idx.tails@.len()
                && induced_by(arcs, verts@, out@[k] as int),
            forall|a: int| 0 <= a < idx.tails@.len() && #[trigger] induced_by(arcs, verts@, a)
                && verts@.take(i as int).contains(arcs[a].tail) ==> out@.contains(a as ArcId),
        decreases verts@.len() - i,
    {
        let v = verts[i];
        let ol = idx.outgoing(v);
        proof {
            lemma_ids_out_of(arcs, v as int);
        }
        let mut j: usize = 0;
        while j < ol.len()
            invariant
                idx.wf(),
                arcs == idx.arcs(),
                ol@ == ids_out_of(arcs, v as int),
                forall|q: int| 0 <= q < ol@.len() ==> (#[trigger] ol@[q]) < arcs.len() && arcs[ol@[q] as int].tail == v,
                mark@.len() == n,
                n == idx.num_nodes,
                forall|v2: int| 0 <= v2 < n && #[trigger] mark@[v2] ==> verts@.contains(v2 as NodeId),
                forall|j2: int| 0 <= j2 < verts@.len() ==> mark@[#[trigger] verts@[j2] as int],
                verts@.contains(v),
                j <= ol@.len(),
                forall|k: int| 0 <= k < out@.len() ==> (#[trigger] out@[k] as int) < idx.tails@.len()
                    && induced_by(arcs, verts@, out@[k] as int),
                forall|a: int| 0 <= a < idx.tails@.len() && #[trigger] induced_by(arcs, verts@, a)
                    && verts@.take(i as int).contains(arcs[a].tail) ==> out@.contains(a as ArcId),
                forall|q: int| 0 <= q < j && induced_by(arcs, verts@, #[trigger] ol@[q] as int) ==> out@.contains(ol@[q]),
            decreases ol@.len() - j,
        {
            let a = ol[j];
            let w = idx.head(a);
            if v < w && mark[w as usize] {
                let ghost old_out = out@;
                out.push(a);
                proof {
                    assert(out@[out@.len() - 1] == a);
                    assert forall|q: int| 0 <= q < j + 1 && induced_by(arcs, verts@, #[trigger] ol@[q] as int) implies out@.contains(ol@[q]) by {
                        if q < j {
                            assert(old_out.contains(ol@[q]));
                            let z = choose|z: int| 0 <= z < old_out.len() && #[trigger] old_out[z] == ol@[q];
                            assert(out@[z] == ol@[q]);
                        }
                    }
                    assert forall|b: int| 0 <= b < idx.tails@.len() && #[trigger] induced_by(arcs, verts@, b)
                        && verts@.take(i as int).contains(arcs[b].tail) implies out@.contains(b as ArcId) by {
                        assert(old_out.contains(b as ArcId));
                        let z = choose|z: int| 0 <= z < old_out.len() && #[trigger] old_out[z] == b as ArcId;
                        assert(out@[z] == b as ArcId);
                    }
                }
            }
            j += 1;
        }
        proof {
            assert forall|b: int| 0 <= b < idx.tails@.len() && #[trigger] induced_by(arcs, verts@, b)
                && verts@.take(i + 1).contains(arcs[b].tail) implies out@.contains(b as ArcId) by {
                if arcs[b].tail == v {
                    assert(arcs[b].id == b);
                    assert(ol@.contains(b as ArcId));
                    let q = choose|q: int| 0 <= q < ol@.len() && ol@[q] == b as ArcId;
                    assert(induced_by(arcs, verts@, ol@[q] as int));
                } else {
                    let z = choose|z: int| 0 <= z < i + 1 && #[trigger] verts@.take(i + 1)[z] == arcs[b].tail;
                    assert(verts@.take(i as int)[z] == arcs[b].tail);
                }
            }
        }
        i += 1;
    }
    proof {
        assert(verts@.take(verts@.len() as int) =~= verts@);
    }
    out
}

/// The arcs of the lists of `ps`, one list after another.
pub open spec fn joined(ps: Seq<Seq<ArcId>>) -> Seq<ArcId>
    decreases ps.len(),
{
    if ps.len() == 0 {
        Seq::empty()
    } else {
        joined(ps.drop_last()) + ps.last()
    }
}

/// The contents of each list.
pub open spec fn views(ps: Seq<Vec<ArcId>>) -> Seq<Seq<ArcId>> {
    ps.map_values(|p: Vec<ArcId>| p@)
}

/// Both ends of every arc of `out` belong to the ground set `ground`.
pub open spec fn spans_inside(arcs: Seq<Arc>, ground: Seq<ArcId>, root: int, out: Seq<ArcId>) -> bool {
    forall|k: int| 0 <= k < out.len() ==> touched(arcs, ground, root, arcs[#[trigger] out[k] as int].tail as int)
        && touched(arcs, ground, root, arcs[out[k] as int].head as int)
}

/// Every arc of every list is an arc of the index.
pub open spec fn lists_ok(ps: Seq<Vec<ArcId>>, m: int) -> bool {
    forall|p: int, k: int| 0 <= p < ps.len() && 0 <= k < ps[p]@.len() ==> (#[trigger] ps[p]@[k] as int) < m
}

/// The lists of `parents` before position `count`, one after another.
fn concatenated(parents: &Vec<Vec<ArcId>>, count: usize, m: usize) -> (flat: Vec<ArcId>)
    requires
        count <= parents@.len(),
        lists_ok(parents@, m as int),
    ensures
        flat@ == joined(views(parents@).take(count as int)),
        forall|k: int| 0 <= k < flat@.len() ==> (#[trigger] flat@[k] as int) < m,
{
    let mut flat: Vec<ArcId> = Vec::new();
    let mut p: usize = 0;
    proof {
        assert(views(parents@).take(0) =~= Seq::<Seq<ArcId>>::empty());
    }
    while p < count
        invariant
            count <= parents@.len(),
            lists_ok(parents@, m as int),
            p <= count,
            flat@ == joined(views(parents@).take(p as int)),
            forall|k: int| 0 <= k < flat@.len() ==> (#[trigger] flat@[k] as int) < m,
        decreases count - p,
    {
        let ghost before = flat@;
        let mut j: usize = 0;
        while j < parents[p].len()
            invariant
                p < count,
                count <= parents@.len(),
                lists_ok(parents@, m as int),
                j <= parents@[p as int]@.len(),
                flat@ == before + parents@[p as int]@.take(j as int),
                forall|k: int| 0 <= k < flat@.len() ==> (#[trigger] flat@[k] as int) < m,
            decreases parents@[p as int]@.len() - j,
        {
            let a = parents[p][j];
            proof {
                assert((parents@[p as int]@[j as int] as int) < m);
            }
            flat.push(a);
            proof {
                assert(parents@[p as int]@.take(j + 1) =~= parents@[p as int]@.take(j as int).push(a));
            }
            j += 1;
        }
        proof {
            assert(parents@[p as int]@.take(parents@[p as int]@.len() as int) =~= parents@[p as int]@);
            assert(views(parents@).take(p + 1).drop_last() =~= views(parents@).take(p as int));
            assert(views(parents@).take(p + 1).last() == parents@[p as int]@);
        }
        p += 1;
    }
    flat
}

/// Some arc of `s` belongs to the edge `e` (arcs `2e` and `2e + 1`).
pub open spec fn has_edge(s: Seq<ArcId>, e: int) -> bool {
    exists|q: int| 0 <= q < s.len() && (#[trigger] s[q] / 2) as int == e
}

/// The arcs of `flat` in order, each kept unless an arc of its edge was kept
/// before it.
pub open spec fn first_per_edge(flat: Seq<ArcId>) -> Seq<ArcId>
    decreases flat.len(),
{
    if flat.len() == 0 {
        Seq::empty()
    } else {
        let pre = first_per_edge(flat.drop_last());
        if has_edge(pre, (flat.last() / 2) as int) { pre } else { pre.push(flat.last()) }
    }
}

/// Every kept arc is an arc of `flat`.
proof fn lemma_first_per_edge_in(flat: Seq<ArcId>)
    ensures
        forall|k: int| 0 <= k < first_per_edge(flat).len() ==> flat.contains(#[trigger] first_per_edge(flat)[k]),
    decreases flat.len(),
{
    if flat.len() > 0 {
        let d = flat.drop_last();
        lemma_first_per_edge_in(d);
        let pre = first_per_edge(d);
        assert forall|k: int| 0 <= k < first_per_edge(flat).len() implies flat.contains(#[trigger] first_per_edge(flat)[k]) by {
            if k < pre.len() {
                assert(first_per_edge(flat)[k] == pre[k]);
                let j = choose|j: int| 0 <= j < d.len() && d[j] == pre[k];
                assert(flat[j] == d[j]);
            } else {
                assert(flat[flat.len() - 1] == flat.last());
            }
        }
    }
}

/// The arcs of `flat`, one per edge (an arc and its partner count once), the
/// first met kept.
fn one_per_edge(flat: &Vec<ArcId>, m: usize) -> (spanned: Vec<ArcId>)
    requires
        forall|k: int| 0 <= k < flat@.len() ==> (#[trigger] flat@[k] as int) < m,
    ensures
        spanned@ == first_per_edge(flat@),
        forall|k: int| 0 <= k < spanned@.len() ==> flat@.contains(#[trigger] spanned@[k]),
{
    let mut seen: Vec<bool> = vec![false; m / 2 + 1];
    let mut spanned: Vec<ArcId> = Vec::new();
    let mut k: usize = 0;
    while k < flat.len()
        invariant
            forall|k2: int| 0 <= k2 < flat@.len() ==> (#[trigger] flat@[k2] as int) < m,
            seen@.len() == m / 2 + 1,
            k <= flat@.len(),
            spanned@ == first_per_edge(flat@.take(k as int)),
            forall|e: int| 0 <= e < seen@.len() ==> (#[trigger] seen@[e] <==> has_edge(spanned@, e)),
        decreases flat@.len() - k,
    {
        let a = flat[k];
        let ghost before = spanned@;
        proof {
            assert(flat@.take(k + 1).drop_last() =~= flat@.take(k as int));
            assert(flat@.take(k + 1).last() == a);
            assert((a as int) < m);
        }
        if !seen[(a / 2) as usize] {
            seen.set((a / 2) as usize, true);
            spanned.push(a);
            proof {
                assert forall|e: int| 0 <= e < seen@.len() implies (#[trigger] seen@[e] <==> has_edge(spanned@, e)) by {
                    if has_edge(before, e) {
                        let q = choose|q: int| 0 <= q < before.len() && (#[trigger] before[q] / 2) as int == e;
                        assert(spanned@[q] == before[q]);
                    }
                    if e == (a / 2) as int {
                        assert(spanned@[before.len() as int] == a);
                    } else if has_edge(spanned@, e) {
                        let q = choose|q: int| 0 <= q < spanned@.len() && (#[trigger] spanned@[q] / 2) as int == e;
                        assert(q < before.len());
                        assert(before[q] == spanned@[q]);
                    }
                }
            }
        }
        k += 1;
    }
    proof {
        assert(flat@.take(flat@.len() as int) =~= flat@);
        lemma_first_per_edge_in(flat@);
    }
    spanned
}

/// Both ends of every arc of `g` belong to the ground set `ground`.
pub open spec fn ends_inside(arcs: Seq<Arc>, g: Seq<ArcId>, ground: Seq<ArcId>, root: int) -> bool {
    forall|j: int| 0 <= j < g.len() ==> touched(arcs, ground, root, arcs[#[trigger] g[j] as int].tail as int)
        && touched(arcs, ground, root, arcs[g[j] as int].head as int)
}

/// A ground set whose arcs end inside another belongs to it, and so does
/// every tree within it.
proof fn lemma_ground_inside(arcs: Seq<Arc>, g: Seq<ArcId>, ground: Seq<ArcId>, root: int, terminals: Seq<NodeId>, out: Seq<ArcId>)
    requires
        paired(arcs),
        arcs.len() <= u32::MAX,
        ends_inside(arcs, g, ground, root),
        forall|k: int| 0 <= k < out.len() ==> (#[trigger] out[k] as int) < arcs.len(),
    ensures
        covers(arcs, g, root, terminals) ==> covers(arcs, ground, root, terminals),
        within(g, out) ==> spans_inside(arcs, ground, root, out),
{
    assert forall|v: int| #[trigger] touched(arcs, g, root, v) implies touched(arcs, ground, root, v) by {
        if v != root {
            let k = choose|k: int| 0 <= k < g.len() && #[trigger] ends_at(arcs, g[k], v);
            assert(touched(arcs, ground, root, arcs[g[k] as int].tail as int));
        }
    }
    if within(g, out) {
        assert forall|k: int| 0 <= k < out.len() implies touched(arcs, ground, root, arcs[#[trigger] out[k] as int].tail as int)
            && touched(arcs, ground, root, arcs[out[k] as int].head as int) by {
            let a = out[k] as int;
            if g.contains(out[k]) {
                let j = choose|j: int| 0 <= j < g.len() && g[j] == out[k];
                assert(touched(arcs, ground, root, arcs[g[j] as int].tail as int));
            } else {
                let j = choose|j: int| 0 <= j < g.len() && g[j] == partner(a) as ArcId;
                assert(0 <= partner(a) < arcs.len());
                assert(touched(arcs, ground, root, arcs[g[j] as int].tail as int));
            }
        }
    }
}

/// The exact step over the first `count` lists of `parents`: first over
/// every arc between their vertices, then, if that fails, over their arcs
/// alone.
fn exact_over(
    idx: &ArcIndex,
    root: NodeId,
    parents: &Vec<Vec<ArcId>>,
    count: usize,
    terminals: &[NodeId],
    is_terminal: &[bool],
    max_width: usize,
    max_work: u128,
    deadline: Option<Instant>,
) -> (r: Option<(SphResult, ExactRecombStat)>)
    requires
        ground_ok(idx, root, Seq::empty(), terminals@, is_terminal@),
        count <= parents@.len(),
        lists_ok(parents@, idx.tails@.len() as int),
    ensures
        count == 0 ==> r is None,
        !covers(idx.arcs(), joined(views(parents@).take(count as int)), root as int, terminals@) ==> r is None,
        r matches Some((res, stat)) ==> {
            &&& rebuilt(idx.arcs(), all_active(idx.tails@.len() as nat), root as int, res)
            &&& spans_inside(idx.arcs(), joined(views(parents@).take(count as int)), root as int, res.arcs@)
            &&& !stat.induced ==> within(joined(views(parents@).take(count as int)), res.arcs@)
            &&& stat.cost == res.cost
        },
{
    let ghost arcs = idx.arcs();
    let ghost m = idx.tails@.len() as nat;
    if count == 0 {
        return None;
    }
    let m_arcs = idx.num_arcs();
    let flat = concatenated(parents, count, m_arcs);
    let spanned = one_per_edge(&flat, m_arcs);
    let verts = ground_vertices(idx, root, &flat);
    let induced = induced_arcs(idx, &verts);
    proof {
        assert forall|j: int| 0 <= j < induced@.len() implies touched(arcs, flat@, root as int, arcs[#[trigger] induced@[j] as int].tail as int)
            && touched(arcs, flat@, root as int, arcs[induced@[j] as int].head as int) by {
            assert(induced_by(arcs, verts@, induced@[j] as int));
            let x = choose|x: int| 0 <= x < verts@.len() && verts@[x] == arcs[induced@[j] as int].tail;
            let y = choose|y: int| 0 <= y < verts@.len() && verts@[y] == arcs[induced@[j] as int].head;
            assert(touched(arcs, flat@, root as int, verts@[x] as int));
            assert(touched(arcs, flat@, root as int, verts@[y] as int));
        }
        assert forall|j: int| 0 <= j < spanned@.len() implies touched(arcs, flat@, root as int, arcs[#[trigger] spanned@[j] as int].tail as int)
            && touched(arcs, flat@, root as int, arcs[spanned@[j] as int].head as int) by {
            let k = choose|k: int| 0 <= k < flat@.len() && flat@[k] == spanned@[j];
            assert(ends_at(arcs, flat@[k], arcs[spanned@[j] as int].tail as int));
            assert(ends_at(arcs, flat@[k], arcs[spanned@[j] as int].head as int));
        }
        assert(ends_inside(arcs, induced@, flat@, root as int));
        assert(ends_inside(arcs, spanned@, flat@, root as int));
        assert forall|k: int| 0 <= k < spanned@.len() implies (#[trigger] spanned@[k] as int) < idx.tails@.len() by {
            let q = choose|q: int| 0 <= q < flat@.len() && flat@[q] == spanned@[k];
        }
        assert(ground_ok(idx, root, induced@, terminals@, is_terminal@));
        assert(ground_ok(idx, root, spanned@, terminals@, is_terminal@));
    }
    if passed(&deadline) {
        return None;
    }
    let first = solve_ground_set(idx, root, &induced, terminals, is_terminal, max_width, max_work, true, deadline);
    proof {
        lemma_ground_inside(arcs, induced@, flat@, root as int, terminals@, Seq::empty());
    }
    match first {
        Some((res, stat)) => {
            proof {
                lemma_ground_inside(arcs, induced@, flat@, root as int, terminals@, res.arcs@);
            }
            return Some((res, stat));
        },
        None => {},
    }
    if passed(&deadline) {
        return None;
    }
    let second = solve_ground_set(idx, root, &spanned, terminals, is_terminal, max_width, max_work, false, deadline);
    proof {
        lemma_ground_inside(arcs, spanned@, flat@, root as int, terminals@, Seq::empty());
        if second is Some {
            let res = second->Some_0.0;
            lemma_ground_inside(arcs, spanned@, flat@, root as int, terminals@, res.arcs@);
            assert forall|k: int| 0 <= k < res.arcs@.len() implies flat@.contains(#[trigger] res.arcs@[k])
                || flat@.contains(partner(res.arcs@[k] as int) as ArcId) by {
                if spanned@.contains(res.arcs@[k]) {
                    let q = choose|q: int| 0 <= q < spanned@.len() && spanned@[q] == res.arcs@[k];
                    assert(flat@.contains(spanned@[q]));
                } else {
                    let q = choose|q: int| 0 <= q < spanned@.len() && spanned@[q] == partner(res.arcs@[k] as int) as ArcId;
                    assert(flat@.contains(spanned@[q]));
                }
            }
        }
    }
    second
}

/// The cheapest tree spanning `terminals` inside the subgraph the parents
/// span: over every arc between their vertices (and the root) when that
/// decomposes inside the caps, else over the parents' own arcs. `None` when
/// there is no parent, a terminal lies outside their vertices, both ground
/// sets exceed the caps, or the deadline passes.
pub fn exact_recombination(
    idx: &ArcIndex,
    root: NodeId,
    parents: &Vec<Vec<ArcId>>,
    terminals: &[NodeId],
    is_terminal: &[bool],
    max_width: usize,
    max_work: u128,
    deadline: Option<Instant>,
) -> (r: Option<(SphResult, ExactRecombStat)>)
    requires
        ground_ok(idx, root, Seq::empty(), terminals@, is_terminal@),
        lists_ok(parents@, idx.tails@.len() as int),
    ensures
        parents@.len() == 0 ==> r is None,
        !covers(idx.arcs(), joined(views(parents@)), root as int, terminals@) ==> r is None,
        r matches Some((res, stat)) ==> {
            &&& rebuilt(idx.arcs(), all_active(idx.tails@.len() as nat), root as int, res)
            &&& spans_inside(idx.arcs(), joined(views(parents@)), root as int, res.arcs@)
            &&& !stat.induced ==> within(joined(views(parents@)), res.arcs@)
            &&& stat.cost == res.cost
        },
{
    proof {
        assert(views(parents@).take(parents@.len() as int) =~= views(parents@));
    }
    exact_over(idx, root, parents, parents.len(), terminals, is_terminal, max_width, max_work, deadline)
}

/// The arcs of each member of a pool.
pub open spec fn pool_views(pool: Seq<SphResult>) -> Seq<Seq<ArcId>> {
    pool.map_values(|r: SphResult| r.arcs@)
}

/// The arcs of the first `c` lists come first among the arcs of all.
proof fn lemma_joined_prefix(ps: Seq<Seq<ArcId>>, c: int)
    requires
        0 <= c <= ps.len(),
    ensures
        joined(ps.take(c)).len() <= joined(ps).len(),
        forall|i: int| 0 <= i < joined(ps.take(c)).len() ==> #[trigger] joined(ps.take(c))[i] == joined(ps)[i],
    decreases ps.len(),
{
    if c == ps.len() {
        assert(ps.take(c) =~= ps);
    } else {
        lemma_joined_prefix(ps.drop_last(), c);
        assert(ps.drop_last().take(c) =~= ps.take(c));
    }
}

/// What holds within a ground set holds within any set that starts with it.
proof fn lemma_prefix_ground(arcs: Seq<Arc>, small: Seq<ArcId>, big: Seq<ArcId>, root: int, out: Seq<ArcId>)
    requires
        small.len() <= big.len(),
        forall|i: int| 0 <= i < small.len() ==> #[trigger] small[i] == big[i],
    ensures
        spans_inside(arcs, small, root, out) ==> spans_inside(arcs, big, root, out),
        within(small, out) ==> within(big, out),
{
    assert forall|v: int| #[trigger] touched(arcs, small, root, v) implies touched(arcs, big, root, v) by {
        if v != root {
            let k = choose|k: int| 0 <= k < small.len() && #[trigger] ends_at(arcs, small[k], v);
            assert(ends_at(arcs, big[k], v));
        }
    }
    assert forall|x: ArcId| #[trigger] small.contains(x) implies big.contains(x) by {
        let k = choose|k: int| 0 <= k < small.len() && small[k] == x;
        assert(big[k] == x);
    }
}

/// The best tree from exactly recombining the longest prefix of `pool` (taken
/// in its order, best first) that the caps admit, found by bisection over
/// the prefix lengths; the first member alone must succeed. `None` when the
/// pool is empty, a terminal lies outside the first member's vertices, the
/// first member alone exceeds the caps, or the deadline passes before it is
/// solved.
pub fn recombine_pool(
    idx: &ArcIndex,
    root: NodeId,
    pool: &Vec<SphResult>,
    terminals: &[NodeId],
    is_terminal: &[bool],
    max_width: usize,
    max_work: u128,
    deadline: Option<Instant>,
) -> (r: Option<(SphResult, ExactRecombStat)>)
    requires
        ground_ok(idx, root, Seq::empty(), terminals@, is_terminal@),
        forall|p: int, k: int| 0 <= p < pool@.len() && 0 <= k < pool@[p].arcs@.len() ==> (#[trigger] pool@[p].arcs@[k] as int) < idx.tails@.len(),
    ensures
        pool@.len() == 0 ==> r is None,
        pool@.len() > 0 && !covers(idx.arcs(), pool@[0].arcs@, root as int, terminals@) ==> r is None,
        r matches Some((res, stat)) ==> {
            &&& rebuilt(idx.arcs(), all_active(idx.tails@.len() as nat), root as int, res)
            &&& spans_inside(idx.arcs(), joined(pool_views(pool@)), root as int, res.arcs@)
            &&& !stat.induced ==> within(joined(pool_views(pool@)), res.arcs@)
            &&& stat.cost == res.cost
        },
{
    let ghost arcs = idx.arcs();
    let ghost pv = pool_views(pool@);
    if pool.len() == 0 {
        return None;
    }
    let mut all: Vec<Vec<ArcId>> = Vec::new();
    let mut i: usize = 0;
    while i < pool.len()
        invariant
            pv == pool_views(pool@),
            i <= pool@.len(),
            all@.len() == i,
            views(all@) =~= pv.take(i as int),
        decreases pool@.len() - i,
    {
        let ghost before = all@;
        all.push(pool[i].arcs.clone());
        proof {
            assert(views(all@) =~= views(before).push(pool@[i as int].arcs@));
            assert(pv.take(i + 1) =~= pv.take(i as int).push(pv[i as int]));
        }
        i += 1;
    }
    proof {
        assert(views(all@) =~= pv);
        assert forall|p: int, k: int| 0 <= p < all@.len() && 0 <= k < all@[p]@.len() implies (#[trigger] all@[p]@[k] as int) < idx.tails@.len() by {
            assert(views(all@)[p] == all@[p]@);
            assert(pv[p] == pool@[p].arcs@);
        }
        assert(pv.take(1).drop_last() =~= Seq::<Seq<ArcId>>::empty());
        assert(joined(Seq::<Seq<ArcId>>::empty()) =~= Seq::<ArcId>::empty());
        assert(pv.take(1).last() == pv[0]);
        assert(pv[0] == pool@[0].arcs@);
        assert(joined(pv.take(1)) =~= joined(pv.take(1).drop_last()) + pv.take(1).last());
        assert(joined(pv.take(1)) =~= pool@[0].arcs@);
    }
    let mut best = match exact_over(idx, root, &all, 1, terminals, is_terminal, max_width, max_work, deadline) {
        Some(found) => found,
        None => return None,
    };
    proof {
        lemma_joined_prefix(pv, 1);
        lemma_prefix_ground(arcs, joined(pv.take(1)), joined(pv), root as int, best.0.arcs@);
    }
    // Prefixes are nested, so their widths only grow: the admitted lengths
    // form a prefix of the lengths, and bisection finds its end.
    let mut lo: usize = 1;
    let mut hi: usize = all.len();
    while lo < hi
        invariant
            1 <= lo <= hi,
            hi <= all@.len(),
            views(all@) == pv,
            pv == pool_views(pool@),
            arcs == idx.arcs(),
            ground_ok(idx, root, Seq::empty(), terminals@, is_terminal@),
            lists_ok(all@, idx.tails@.len() as int),
            rebuilt(arcs, all_active(idx.tails@.len() as nat), root as int, best.0),
            spans_inside(arcs, joined(pv), root as int, best.0.arcs@),
            !best.1.induced ==> within(joined(pv), best.0.arcs@),
            best.1.cost == best.0.cost,
        decreases hi - lo,
    {
        if passed(&deadline) {
            break;
        }
        let mid = lo + (hi - lo + 1) / 2;
        match exact_over(idx, root, &all, mid, terminals, is_terminal, max_width, max_work, deadline) {
            Some(next) => {
                proof {
                    lemma_joined_prefix(pv, mid as int);
                    lemma_prefix_ground(arcs, joined(pv.take(mid as int)), joined(pv), root as int, next.0.arcs@);
                }
                best = next;
                lo = mid;
            },
            None => {
                hi = mid - 1;
            },
        }
    }
    Some(best)
}

/// The exact step over `base` and the first `k` candidates.
fn probe(
    idx: &ArcIndex,
    root: NodeId,
    base: &Vec<ArcId>,
    cands: &Vec<ArcId>,
    k: usize,
    terminals: &[NodeId],
    is_terminal: &[bool],
    max_width: usize,
    max_work: u128,
    deadline: Option<Instant>,
) -> (r: Option<(SphResult, ExactRecombStat)>)
    requires
        ground_ok(idx, root, base@, terminals@, is_terminal@),
        forall|j: int| 0 <= j < cands@.len() ==> (#[trigger] cands@[j] as int) < idx.tails@.len(),
        k <= cands@.len(),
    ensures
        r matches Some((res, stat)) ==> {
            &&& rebuilt(idx.arcs(), all_active(idx.tails@.len() as nat), root as int, res)
            &&& stat.cost == res.cost
            &&& !stat.induced
        },
{
    let mut edges: Vec<ArcId> = base.clone();
    let mut j: usize = 0;
    while j < k
        invariant
            k <= cands@.len(),
            j <= k,
            forall|q: int| 0 <= q < cands@.len() ==> (#[trigger] cands@[q] as int) < idx.tails@.len(),
            forall|q: int| 0 <= q < edges@.len() ==> (#[trigger] edges@[q] as int) < idx.tails@.len(),
        decreases k - j,
    {
        edges.push(cands[j]);
        j += 1;
    }
    solve_ground_set(idx, root, &edges, terminals, is_terminal, max_width, max_work, false, deadline)
}

/// Exact optimisation over the largest ground set around `seed` that the
/// caps admit: the seed's arcs (one per edge), then the other edges of the
/// graph (their even arcs) offered cheapest by `guide` first (ties by id).
/// The whole list is probed first; otherwise the prefix lengths are probed
/// by doubling until one fails, then bisected, and the tree over the longest
/// admitted prefix is kept. `None` when the seed alone fails: a terminal lies
/// outside the seed's vertices, its ground set exceeds the caps, or the
/// deadline passes.
pub fn grow_and_solve(
    idx: &ArcIndex,
    root: NodeId,
    seed: &Vec<ArcId>,
    terminals: &[NodeId],
    is_terminal: &[bool],
    guide: &[Cost],
    max_width: usize,
    max_work: u128,
    deadline: Option<Instant>,
) -> (r: Option<(SphResult, ExactRecombStat)>)
    requires
        ground_ok(idx, root, seed@, terminals@, is_terminal@),
        guide@.len() >= idx.tails@.len(),
    ensures
        !covers(idx.arcs(), seed@, root as int, terminals@) ==> r is None,
        r matches Some((res, stat)) ==> {
            &&& rebuilt(idx.arcs(), all_active(idx.tails@.len() as nat), root as int, res)
            &&& stat.cost == res.cost
            &&& !stat.induced
        },
{
    let ghost arcs = idx.arcs();
    let m = idx.num_arcs();
    let edges = one_per_edge(seed, m);
    proof {
        assert forall|j: int| 0 <= j < edges@.len() implies touched(arcs, seed@, root as int, arcs[#[trigger] edges@[j] as int].tail as int)
            && touched(arcs, seed@, root as int, arcs[edges@[j] as int].head as int) by {
            let k = choose|k: int| 0 <= k < seed@.len() && seed@[k] == edges@[j];
            assert(ends_at(arcs, seed@[k], arcs[edges@[j] as int].tail as int));
            assert(ends_at(arcs, seed@[k], arcs[edges@[j] as int].head as int));
        }
        assert forall|k: int| 0 <= k < edges@.len() implies (#[trigger] edges@[k] as int) < idx.tails@.len() by {
            let q = choose|q: int| 0 <= q < seed@.len() && seed@[q] == edges@[k];
        }
        lemma_ground_inside(arcs, edges@, seed@, root as int, terminals@, Seq::empty());
    }
    let mut best = match solve_ground_set(idx, root, &edges, terminals, is_terminal, max_width, max_work, false, deadline) {
        Some(found) => found,
        None => return None,
    };
    let mut have: Vec<bool> = vec![false; m / 2 + 1];
    let mut k: usize = 0;
    while k < edges.len()
        invariant
            have@.len() == m / 2 + 1,
            m == idx.tails@.len(),
            forall|q: int| 0 <= q < edges@.len() ==> (#[trigger] edges@[q] as int) < idx.tails@.len(),
        decreases edges@.len() - k,
    {
        have.set((edges[k] / 2) as usize, true);
        k += 1;
    }
    let mut cands: Vec<ArcId> = Vec::new();
    let mut keys: Vec<Cost> = Vec::new();
    let mut a: usize = 0;
    while a < m
        invariant
            m == idx.tails@.len(),
            m <= u32::MAX,
            guide@.len() >= m,
            have@.len() == m / 2 + 1,
            a <= m,
            keys@.len() == cands@.len(),
            cands@.len() <= a,
            forall|q: int| 0 <= q < cands@.len() ==> (#[trigger] cands@[q] as int) < m,
        decreases m - a,
    {
        if a % 2 == 0 && !have[a / 2] {
            cands.push(a as ArcId);
            keys.push(guide[a]);
        }
        a += 1;
    }
    let order = by_cost(keys.as_slice());
    let mut sorted: Vec<ArcId> = Vec::new();
    let mut j: usize = 0;
    while j < order.len()
        invariant
            m == idx.tails@.len(),
            keys@.len() == cands@.len(),
            order@.len() == keys@.len(),
            forall|q: int| 0 <= q < order@.len() ==> (#[trigger] order@[q] as int) < keys@.len(),
            forall|q: int| 0 <= q < cands@.len() ==> (#[trigger] cands@[q] as int) < m,
            forall|q: int| 0 <= q < sorted@.len() ==> (#[trigger] sorted@[q] as int) < m,
            j <= order@.len(),
            sorted@.len() == j,
            cands@.len() <= m,
            m <= u32::MAX,
        decreases order@.len() - j,
    {
        sorted.push(cands[order[j]]);
        j += 1;
    }
    let n = sorted.len();
    // The whole graph first: when it is admitted the answer is the optimum
    // of the instance, and there is nothing left to search for.
    match probe(idx, root, &edges, &sorted, n, terminals, is_terminal, max_width, max_work, deadline) {
        Some(found) => return Some(found),
        None => {},
    }
    // Cheap probes first: double until a prefix fails, then bisect.
    let mut lo: usize = 0;
    let mut hi: usize = n;
    let mut k: usize = 1;
    while k <= n
        invariant_except_break
            hi == n,
            lo < k,
        invariant
            ground_ok(idx, root, edges@, terminals@, is_terminal@),
            forall|q: int| 0 <= q < sorted@.len() ==> (#[trigger] sorted@[q] as int) < idx.tails@.len(),
            n == sorted@.len(),
            n <= u32::MAX,
            lo <= hi <= n,
            rebuilt(arcs, all_active(idx.tails@.len() as nat), root as int, best.0),
            arcs == idx.arcs(),
            best.1.cost == best.0.cost,
            !best.1.induced,
        ensures
            lo <= hi <= n,
            n <= u32::MAX,
            rebuilt(arcs, all_active(idx.tails@.len() as nat), root as int, best.0),
            best.1.cost == best.0.cost,
            !best.1.induced,
        decreases n + 1 - k,
    {
        if passed(&deadline) {
            break;
        }
        match probe(idx, root, &edges, &sorted, k, terminals, is_terminal, max_width, max_work, deadline) {
            Some(found) => {
                best = found;
                lo = k;
                if k > n / 2 {
                    break;
                }
                k = k * 2;
            },
            None => {
                hi = k;
                break;
            },
        }
    }
    while hi - lo > 1
        invariant
            ground_ok(idx, root, edges@, terminals@, is_terminal@),
            forall|q: int| 0 <= q < sorted@.len() ==> (#[trigger] sorted@[q] as int) < idx.tails@.len(),
            n == sorted@.len(),
            n <= u32::MAX,
            lo <= hi <= n,
            rebuilt(arcs, all_active(idx.tails@.len() as nat), root as int, best.0),
            arcs == idx.arcs(),
            best.1.cost == best.0.cost,
            !best.1.induced,
        decreases hi - lo,
    {
        if passed(&deadline) {
            break;
        }
        let mid = lo + (hi - lo) / 2;
        match probe(idx, root, &edges, &sorted, mid, terminals, is_terminal, max_width, max_work, deadline) {
            Some(found) => {
                best = found;
                lo = mid;
            },
            None => {
                hi = mid;
            },
        }
    }
    Some(best)
}

} // verus!
