//! Heuristic tree decompositions, and the width they certify.
//!
//! A tree decomposition of `G = (V, E)` is a tree whose nodes carry bags of
//! vertices such that every vertex lies in some bag, every edge lies inside some
//! bag, and the bags holding any one vertex induce a connected subtree. Its width
//! is the largest bag size minus one. The decompositions here come from the
//! elimination game under a greedy ordering; the validity of the game for any
//! ordering is proved in [`super::elimination`].
use vstd::prelude::*;
use std::collections::HashMap;
use std::time::Instant;
use crate::graph::types::{NodeId, Edge, Node};
use crate::graph::undirected::UndirectedGraph;
use crate::deadline::passed;
use super::dual_ascent::{count_true, lemma_count_true_set};
use super::vertex_sets::{
    sets_of, all_distinct, strictly_sorted, list_contains, list_insert, list_remove, sorted_insert,
    list_copy, lemma_sorted_distinct,
};
use super::elimination::{
    is_simple, eliminate, elim_graph, game_bag, alive, is_elimination_order, position, pair_in,
    bags_cover_vertices, bags_connected, is_topmost, is_game_parent, separator, in_some_bag,
    lemma_eliminate_simple, lemma_elim_graph_simple, lemma_game_is_tree_decomposition, lemma_elim_graph_prefix,
};

verus! {

broadcast use vstd::std_specs::hash::group_hash_axioms;

/// Play one step of the elimination game on duplicate-free adjacency lists:
/// the neighbourhood of `v` becomes a clique and `v` is removed.
fn eliminate_vertex(adj: &mut Vec<Vec<u32>>, v: u32)
    requires
        is_simple(sets_of(old(adj)@)),
        all_distinct(old(adj)@),
        v < old(adj)@.len(),
    ensures
        final(adj)@.len() == old(adj)@.len(),
        all_distinct(final(adj)@),
        sets_of(final(adj)@) == eliminate(sets_of(old(adj)@), v),
{
    let ghost h = sets_of(adj@);
    let ghost n = adj@.len();
    let nbrs = list_copy(&adj[v as usize]);
    assert(nbrs@.no_duplicates());
    proof {
        assert forall|j: int| 0 <= j < nbrs@.len() implies #[trigger] nbrs@[j] < n && nbrs@[j] != v by {
            assert(h[v as int].contains(nbrs@[j]));
        }
    }
    let mut a: usize = 0;
    while a < nbrs.len()
        invariant
            adj@.len() == n,
            nbrs@ == old(adj)@[v as int]@,
            nbrs@.no_duplicates(),
            h == sets_of(old(adj)@),
            n == old(adj)@.len(),
            h.len() == n,
            is_simple(h),
            v < n,
            forall|j: int| 0 <= j < nbrs@.len() ==> #[trigger] nbrs@[j] < n && nbrs@[j] != v,
            all_distinct(adj@),
            a <= nbrs@.len(),
            forall|x: int| 0 <= x < n ==> h[x].subset_of(#[trigger] sets_of(adj@)[x]),
            forall|x: int, y: u32| 0 <= x < n && #[trigger] sets_of(adj@)[x].contains(y) ==>
                h[x].contains(y) || (nbrs@.contains(x as u32) && nbrs@.contains(y) && x != y),
            forall|x: int, y: u32| 0 <= x < n && #[trigger] sets_of(adj@)[x].contains(y) ==>
                sets_of(adj@)[y as int].contains(x as u32),
            forall|i: int, j: int| 0 <= i < a && i < j < nbrs@.len() ==>
                sets_of(adj@)[#[trigger] nbrs@[i] as int].contains(#[trigger] nbrs@[j]),
        decreases nbrs@.len() - a,
    {
        let x = nbrs[a];
        let mut b: usize = a + 1;
        while b < nbrs.len()
            invariant
                adj@.len() == n,
                nbrs@ == old(adj)@[v as int]@,
                nbrs@.no_duplicates(),
                h == sets_of(old(adj)@),
                n == old(adj)@.len(),
                h.len() == n,
                is_simple(h),
                v < n,
                forall|j: int| 0 <= j < nbrs@.len() ==> #[trigger] nbrs@[j] < n && nbrs@[j] != v,
                all_distinct(adj@),
                a < nbrs@.len(),
                x == nbrs@[a as int],
                a < b <= nbrs@.len(),
                forall|x: int| 0 <= x < n ==> h[x].subset_of(#[trigger] sets_of(adj@)[x]),
                forall|x: int, y: u32| 0 <= x < n && #[trigger] sets_of(adj@)[x].contains(y) ==>
                    h[x].contains(y) || (nbrs@.contains(x as u32) && nbrs@.contains(y) && x != y),
                forall|x: int, y: u32| 0 <= x < n && #[trigger] sets_of(adj@)[x].contains(y) ==>
                    sets_of(adj@)[y as int].contains(x as u32),
                forall|i: int, j: int| 0 <= i < a && i < j < nbrs@.len() ==>
                    sets_of(adj@)[#[trigger] nbrs@[i] as int].contains(#[trigger] nbrs@[j]),
                forall|j: int| a < j < b ==> sets_of(adj@)[x as int].contains(#[trigger] nbrs@[j]),
            decreases nbrs@.len() - b,
        {
            let y = nbrs[b];
            let ghost before = sets_of(adj@);
            assert(x != y);
            assert(nbrs@.contains(x) && nbrs@.contains(y));
            if list_insert(&mut adj[x as usize], y) {
                list_insert(&mut adj[y as usize], x);
            }
            proof {
                let now = sets_of(adj@);
                assert(now[x as int] == before[x as int].insert(y));
                assert(now[y as int] =~= before[y as int].insert(x)) by {
                    if before[x as int].contains(y) {
                        assert(before[y as int].contains(x));
                        assert(now[y as int] == before[y as int]);
                    }
                }
                assert forall|z: int| 0 <= z < n && z != x as int && z != y as int implies #[trigger] now[z] == before[z] by {}
                assert forall|p: int, q: u32| 0 <= p < n && #[trigger] now[p].contains(q) implies now[q as int].contains(p as u32) by {
                    if before[p].contains(q) {
                        assert(h[p].contains(q) || (nbrs@.contains(p as u32) && nbrs@.contains(q) && p != q));
                        if nbrs@.contains(q) {
                            let iq = choose|i: int| 0 <= i < nbrs@.len() && nbrs@[i] == q;
                        }
                        assert(q < n);
                        assert(before[q as int].contains(p as u32));
                    }
                    if p == x as int {
                        if q != y {
                            assert(before[p].contains(q));
                            assert(before[q as int].contains(p as u32));
                        }
                    } else if p == y as int {
                        if q != x {
                            assert(before[p].contains(q));
                            assert(before[q as int].contains(p as u32));
                        }
                    } else {
                        assert(before[p].contains(q));
                        assert(before[q as int].contains(p as u32));
                    }
                }
                assert forall|p: int, q: u32| 0 <= p < n && #[trigger] now[p].contains(q) implies
                    h[p].contains(q) || (nbrs@.contains(p as u32) && nbrs@.contains(q) && p != q) by {
                    if (p == x as int && q == y) || (p == y as int && q == x) {
                    } else {
                        assert(before[p].contains(q));
                    }
                }
            }
            b += 1;
        }
        a += 1;
    }
    proof {
        let now = sets_of(adj@);
        assert(h[v as int] == nbrs@.to_set());
        assert forall|x: int| 0 <= x < n && x != v implies
            (#[trigger] now[x]) == (if h[v as int].contains(x as u32) {
                h[x].union(h[v as int]).remove(x as u32)
            } else {
                h[x]
            }) by {
            if h[v as int].contains(x as u32) {
                let ix = choose|i: int| 0 <= i < nbrs@.len() && nbrs@[i] == x as u32;
                assert forall|y: u32| now[x].contains(y) <==> h[x].union(h[v as int]).remove(x as u32).contains(y) by {
                    if h[v as int].contains(y) && y != x as u32 {
                        let iy = choose|i: int| 0 <= i < nbrs@.len() && nbrs@[i] == y;
                        if ix < iy {
                            assert(now[nbrs@[ix] as int].contains(nbrs@[iy]));
                        } else {
                            assert(now[nbrs@[iy] as int].contains(nbrs@[ix]));
                        }
                    }
                    if now[x].contains(y) {
                        assert(y != x as u32) by {
                            if y == x as u32 {
                                assert(h[x].contains(y) || x != y);
                            }
                        }
                    }
                }
                assert(now[x] =~= h[x].union(h[v as int]).remove(x as u32));
            } else {
                assert forall|y: u32| now[x].contains(y) implies h[x].contains(y) by {
                    if !h[x].contains(y) {
                        assert(nbrs@.contains(x as u32));
                        assert(nbrs@.to_set().contains(x as u32));
                    }
                }
                assert(now[x] =~= h[x]);
            }
        }
        assert(now[v as int] =~= h[v as int]) by {
            assert forall|y: u32| now[v as int].contains(y) implies h[v as int].contains(y) by {
                if !h[v as int].contains(y) {
                    assert(nbrs@.contains(v));
                    let i = choose|i: int| 0 <= i < nbrs@.len() && nbrs@[i] == v;
                }
            }
        }
        assert(nbrs@.subrange(0, 0) =~= Seq::<u32>::empty());
    }
    // Every neighbour of `v` now sees the whole neighbourhood; drop `v` itself.
    let mut a: usize = 0;
    while a < nbrs.len()
        invariant
            adj@.len() == n,
            nbrs@ == old(adj)@[v as int]@,
            nbrs@.no_duplicates(),
            h == sets_of(old(adj)@),
            n == old(adj)@.len(),
            h.len() == n,
            is_simple(h),
            v < n,
            forall|j: int| 0 <= j < nbrs@.len() ==> #[trigger] nbrs@[j] < n && nbrs@[j] != v,
            all_distinct(adj@),
            a <= nbrs@.len(),
            sets_of(adj@)[v as int] == h[v as int],
            forall|x: int| 0 <= x < n && x != v ==>
                (#[trigger] sets_of(adj@)[x]) == (if h[v as int].contains(x as u32) {
                    if nbrs@.subrange(0, a as int).contains(x as u32) {
                        h[x].union(h[v as int]).remove(x as u32).remove(v)
                    } else {
                        h[x].union(h[v as int]).remove(x as u32)
                    }
                } else {
                    h[x]
                }),
        decreases nbrs@.len() - a,
    {
        // (the invariant is established below on first entry)
        let x = nbrs[a];
        let ghost before = sets_of(adj@);
        list_remove(&mut adj[x as usize], v);
        proof {
            let now = sets_of(adj@);
            assert forall|z: int| 0 <= z < n && z != v implies
                (#[trigger] now[z]) == (if h[v as int].contains(z as u32) {
                    if nbrs@.subrange(0, a + 1).contains(z as u32) {
                        h[z].union(h[v as int]).remove(z as u32).remove(v)
                    } else {
                        h[z].union(h[v as int]).remove(z as u32)
                    }
                } else {
                    h[z]
                }) by {
                if z == x as int {
                    assert(nbrs@.subrange(0, a + 1)[a as int] == x);
                    assert(h[v as int].contains(x)) by {
                        assert(h[v as int] == old(adj)@[v as int]@.to_set());
                        assert(nbrs@[a as int] == x);
                        assert(nbrs@.to_set().contains(x));
                    }
                    assert(!nbrs@.subrange(0, a as int).contains(x)) by {
                        if nbrs@.subrange(0, a as int).contains(x) {
                            let q = choose|q: int| 0 <= q < a && #[trigger] nbrs@.subrange(0, a as int)[q] == x;
                            assert(nbrs@[q] == nbrs@[a as int]);
                        }
                    }
                    assert(before[x as int] == h[x as int].union(h[v as int]).remove(x));
                    assert(now[x as int] == before[x as int].remove(v));
                } else {
                    assert(now[z] == before[z]);
                    if nbrs@.subrange(0, a + 1).contains(z as u32) {
                        let q = choose|q: int| 0 <= q < a + 1 && #[trigger] nbrs@.subrange(0, a + 1)[q] == z as u32;
                        assert(nbrs@[q] == z as u32);
                        assert(z as u32 as int == z);
                        assert(q != a);
                        assert(nbrs@.subrange(0, a as int)[q] == z as u32);
                    }
                    if nbrs@.subrange(0, a as int).contains(z as u32) {
                        let q = choose|q: int| 0 <= q < a && #[trigger] nbrs@.subrange(0, a as int)[q] == z as u32;
                        assert(nbrs@.subrange(0, a + 1)[q] == z as u32);
                    }
                }
            }
        }
        a += 1;
    }
    let ghost before_clear = adj@;
    adj.set(v as usize, Vec::new());
    proof {
        let g = eliminate(h, v);
        let now = sets_of(adj@);
        assert(nbrs@.subrange(0, nbrs@.len() as int) == nbrs@);
        assert forall|x: int| 0 <= x < n implies #[trigger] now[x] == g[x] by {
            if x == v as int {
                assert(now[x] =~= Set::<u32>::empty());
            } else {
                assert(now[x] == sets_of(before_clear)[x]);
                if h[v as int].contains(x as u32) {
                    assert(nbrs@.contains(x as u32)) by {
                        assert(nbrs@.to_set().contains(x as u32));
                    }
                } else {
                    assert(!h[x].contains(v));
                    assert(h[x].remove(v) =~= h[x]);
                }
            }
        }
        assert(now =~= g);
        assert(all_distinct(adj@)) by {
            assert forall|i: int| 0 <= i < adj@.len() implies (#[trigger] adj@[i])@.no_duplicates() by {
                if i != v as int {
                    assert(adj@[i] == before_clear[i]);
                }
            }
        }
    }
}


/// Which greedy the elimination ordering follows. Every one of them yields a
/// valid decomposition (the validity theorem holds for any ordering); they
/// differ only in the width and the work it implies.
#[derive(Debug, Clone, Copy, PartialEq, Eq, Structural)]
pub enum EliminationOrdering {
    /// Least current degree.
    MinDegree,
    /// Fewest fill edges, degree breaking ties.
    MinFill,
    /// Least degree, fill breaking ties.
    MinDegreeFill,
    /// `fill * (degree + 1) + degree`, as a single number.
    FillWeighted,
}

/// The whole portfolio, cheapest heuristic first.
pub fn orderings() -> (r: [EliminationOrdering; 4])
    ensures
        r@ == seq![
            EliminationOrdering::MinDegree,
            EliminationOrdering::MinDegreeFill,
            EliminationOrdering::MinFill,
            EliminationOrdering::FillWeighted,
        ],
{
    [
        EliminationOrdering::MinDegree,
        EliminationOrdering::MinDegreeFill,
        EliminationOrdering::MinFill,
        EliminationOrdering::FillWeighted,
    ]
}

/// Pairs of positions `a < b` of `l`, with `a >= from`, whose vertices are not adjacent in `h`.
pub open spec fn missing_from(l: Seq<u32>, h: Seq<Set<u32>>, from: int) -> int
    decreases l.len() - from,
{
    if from >= l.len() || from < 0 {
        0
    } else {
        missing_after(l, h, from, from + 1) + missing_from(l, h, from + 1)
    }
}

/// Positions `b >= from_b` of `l` whose vertex is not adjacent to `l[a]` in `h`.
pub open spec fn missing_after(l: Seq<u32>, h: Seq<Set<u32>>, a: int, from_b: int) -> int
    decreases l.len() - from_b,
{
    if from_b >= l.len() || from_b < 0 {
        0
    } else {
        (if h[l[a] as int].contains(l[from_b]) { 0int } else { 1int }) + missing_after(l, h, a, from_b + 1)
    }
}

proof fn lemma_missing_after_bound(l: Seq<u32>, h: Seq<Set<u32>>, a: int, from_b: int)
    requires
        0 <= from_b,
    ensures
        0 <= missing_after(l, h, a, from_b) <= if from_b <= l.len() { l.len() - from_b } else { 0 },
    decreases l.len() - from_b,
{
    if from_b < l.len() {
        lemma_missing_after_bound(l, h, a, from_b + 1);
    }
}

proof fn lemma_missing_from_bound(l: Seq<u32>, h: Seq<Set<u32>>, from: int)
    requires
        0 <= from,
    ensures
        0 <= missing_from(l, h, from) <= if from <= l.len() { (l.len() - from) * l.len() } else { 0 },
    decreases l.len() - from,
{
    if from < l.len() {
        lemma_missing_after_bound(l, h, from, from + 1);
        lemma_missing_from_bound(l, h, from + 1);
        assert((l.len() - from) * l.len() == (l.len() - (from + 1)) * l.len() + l.len()) by (nonlinear_arith);
    }
}

/// The greedy score of the vertex whose neighbour list is `l`, compared lexicographically.
pub open spec fn score_spec(l: Seq<u32>, h: Seq<Set<u32>>, order: EliminationOrdering) -> (int, int) {
    let d = l.len() as int;
    let m = missing_from(l, h, 0);
    match order {
        EliminationOrdering::MinDegree => (d, 0),
        EliminationOrdering::MinFill => (m, d),
        EliminationOrdering::MinDegreeFill => (d, m),
        EliminationOrdering::FillWeighted => (m * (d + 1) + d, 0),
    }
}

/// Greedy score of a vertex under one heuristic; lower is eliminated sooner.
/// The score is a pair compared lexicographically: min-fill is `(fill, degree)`,
/// min-degree is `(degree, 0)`.
fn score(adj: &Vec<Vec<u32>>, v: u32, order: EliminationOrdering) -> (r: (u64, u64))
    requires
        v < adj@.len(),
        adj@[v as int]@.len() < 0x100000,
        forall|x: int, y: u32| 0 <= x < adj@.len() && #[trigger] adj@[x]@.contains(y) ==> y < adj@.len(),
    ensures
        r.0 == score_spec(adj@[v as int]@, sets_of(adj@), order).0,
        r.1 == score_spec(adj@[v as int]@, sets_of(adj@), order).1,
{
    let nbrs = &adj[v as usize];
    let d = nbrs.len() as u64;
    if order == EliminationOrdering::MinDegree {
        return (d, 0);
    }
    let ghost l = nbrs@;
    let ghost h = sets_of(adj@);
    proof {
        lemma_missing_from_bound(l, h, 0);
    }
    let mut missing: u64 = 0;
    let mut a: usize = 0;
    while a < nbrs.len()
        invariant
            l == nbrs@,
            h == sets_of(adj@),
            l.len() < 0x100000,
            a <= l.len(),
            forall|x: int, y: u32| 0 <= x < adj@.len() && #[trigger] adj@[x]@.contains(y) ==> y < adj@.len(),
            v < adj@.len(),
            nbrs@ == adj@[v as int]@,
            missing + missing_from(l, h, a as int) == missing_from(l, h, 0),
            missing <= a * l.len(),
        decreases l.len() - a,
    {
        let x = nbrs[a];
        assert(adj@[v as int]@.contains(x));
        let mut b: usize = a + 1;
        let ghost base = missing;
        proof {
            assert(a * l.len() <= 0x100000 * 0x100000) by (nonlinear_arith)
                requires a < 0x100000, l.len() < 0x100000;
        }
        while b < nbrs.len()
            invariant
                l == nbrs@,
                h == sets_of(adj@),
                l.len() < 0x100000,
                a < l.len(),
                x == l[a as int],
                x < adj@.len(),
                a < b <= l.len(),
                missing + missing_after(l, h, a as int, b as int) == base + missing_after(l, h, a as int, a + 1),
                missing <= base + (b - a - 1),
                base <= a * l.len(),
                a * l.len() <= 0x100000 * 0x100000,
            decreases l.len() - b,
        {
            if !list_contains(&adj[x as usize], nbrs[b]) {
                missing += 1;
            }
            b += 1;
        }
        proof {
            lemma_missing_after_bound(l, h, a as int, a + 1);
            assert(missing <= (a + 1) * l.len()) by (nonlinear_arith)
                requires missing <= base + (l.len() - a - 1), base <= a * l.len(), a < l.len();
        }
        a += 1;
    }
    match order {
        EliminationOrdering::MinDegree => (d, 0),
        EliminationOrdering::MinFill => (missing, d),
        EliminationOrdering::MinDegreeFill => (d, missing),
        EliminationOrdering::FillWeighted => {
            proof {
                assert(missing * (d + 1) + d <= 0x100000 * 0x100000 * 0x100001 + 0x100000) by (nonlinear_arith)
                    requires missing <= d * d, d < 0x100000;
            }
            (missing * (d + 1) + d, 0)
        },
    }
}


/// The ids carried by `nodes`.
pub open spec fn node_ids(nodes: Seq<Node>) -> Set<u32> {
    Set::new(|v: u32| exists|i: int| 0 <= i < nodes.len() && (#[trigger] nodes[i]).id == v)
}

/// `index_to_node` lists the node ids in increasing order and `map` inverts it.
pub open spec fn is_dense_indexing(index_to_node: Seq<u32>, map: Map<u32, u32>, nodes: Seq<Node>) -> bool {
    &&& strictly_sorted(index_to_node)
    &&& index_to_node.to_set() == node_ids(nodes)
    &&& index_to_node.len() <= u32::MAX
    &&& map.dom() == index_to_node.to_set()
    &&& forall|i: int| 0 <= i < index_to_node.len() ==> map[#[trigger] index_to_node[i]] == i
}

/// Edge `e` is a non-loop edge between known vertices joining dense indices `x` and `y`.
pub open spec fn edge_links(e: Edge, map: Map<u32, u32>, x: u32, y: u32) -> bool {
    &&& e.src != e.dst
    &&& map.contains_key(e.src)
    &&& map.contains_key(e.dst)
    &&& ((map[e.src] == x && map[e.dst] == y) || (map[e.dst] == x && map[e.src] == y))
}

/// The simple graph on dense indices that `edges` induce.
pub open spec fn dense_graph(edges: Seq<Edge>, map: Map<u32, u32>, n: int) -> Seq<Set<u32>> {
    Seq::new(
        n as nat,
        |x: int| Set::new(|y: u32| exists|k: int| 0 <= k < edges.len() && #[trigger] edge_links(edges[k], map, x as u32, y)),
    )
}

/// Dense re-indexing of the graph's vertices, with parallel edges and loops
/// collapsed: the elimination game is a statement about a simple graph.
fn dense_adjacency(graph: &UndirectedGraph) -> (r: (Vec<NodeId>, HashMap<NodeId, u32>, Vec<Vec<u32>>))
    requires
        graph.nodes@.len() <= u32::MAX,
    ensures
        is_dense_indexing(r.0@, r.1@, graph.nodes@),
        r.2@.len() == r.0@.len(),
        all_distinct(r.2@),
        sets_of(r.2@) == dense_graph(graph.edges@, r.1@, r.0@.len() as int),
        is_simple(sets_of(r.2@)),
{
    let mut index_to_node: Vec<NodeId> = Vec::new();
    let mut i: usize = 0;
    while i < graph.nodes.len()
        invariant
            i <= graph.nodes@.len(),
            strictly_sorted(index_to_node@),
            index_to_node@.to_set() == node_ids(graph.nodes@.subrange(0, i as int)),
        decreases graph.nodes@.len() - i,
    {
        let ghost before = index_to_node@.to_set();
        sorted_insert(&mut index_to_node, graph.nodes[i].id);
        proof {
            let pre = graph.nodes@.subrange(0, i as int);
            let post = graph.nodes@.subrange(0, i + 1);
            assert(node_ids(post) =~= node_ids(pre).insert(graph.nodes@[i as int].id)) by {
                assert forall|v: u32| node_ids(post).contains(v) <==> node_ids(pre).insert(graph.nodes@[i as int].id).contains(v) by {
                    if node_ids(post).contains(v) {
                        let j = choose|j: int| 0 <= j < post.len() && (#[trigger] post[j]).id == v;
                        if j < i {
                            assert(pre[j] == post[j]);
                        }
                    }
                    if node_ids(pre).contains(v) {
                        let j = choose|j: int| 0 <= j < pre.len() && (#[trigger] pre[j]).id == v;
                        assert(post[j] == pre[j]);
                    }
                    if v == graph.nodes@[i as int].id {
                        assert(post[i as int].id == v);
                    }
                }
            }
        }
        i += 1;
    }
    proof {
        assert(graph.nodes@.subrange(0, graph.nodes@.len() as int) == graph.nodes@);
        lemma_sorted_distinct(index_to_node@);
        index_to_node@.unique_seq_to_set();
        let ids = graph.nodes@.map_values(|nd: Node| nd.id);
        assert(node_ids(graph.nodes@).subset_of(ids.to_set())) by {
            assert forall|v: u32| node_ids(graph.nodes@).contains(v) implies ids.to_set().contains(v) by {
                let j = choose|j: int| 0 <= j < graph.nodes@.len() && (#[trigger] graph.nodes@[j]).id == v;
                assert(ids[j] == v);
            }
        }
        ids.lemma_cardinality_of_set();
        vstd::set_lib::lemma_len_subset(node_ids(graph.nodes@), ids.to_set());
    }
    let n = index_to_node.len();
    let mut node_to_index: HashMap<NodeId, u32> = HashMap::new();
    let mut i: usize = 0;
    while i < n
        invariant
            n == index_to_node@.len(),
            n <= u32::MAX,
            i <= n,
            strictly_sorted(index_to_node@),
            node_to_index@.dom() == index_to_node@.subrange(0, i as int).to_set(),
            forall|j: int| 0 <= j < i ==> node_to_index@[#[trigger] index_to_node@[j]] == j,
        decreases n - i,
    {
        let ghost before = node_to_index@;
        node_to_index.insert(index_to_node[i], i as u32);
        proof {
            let key = index_to_node@[i as int];
            assert(index_to_node@.subrange(0, i + 1).to_set() =~= index_to_node@.subrange(0, i as int).to_set().insert(key)) by {
                assert(index_to_node@.subrange(0, i + 1) == index_to_node@.subrange(0, i as int).push(key));
                index_to_node@.subrange(0, i as int).lemma_push_to_set_commute(key);
            }
            assert forall|j: int| 0 <= j < i + 1 implies node_to_index@[#[trigger] index_to_node@[j]] == j by {
                if j < i {
                    assert(index_to_node@[j] < index_to_node@[i as int]);
                }
            }
        }
        i += 1;
    }
    assert(index_to_node@.subrange(0, n as int) == index_to_node@);
    let mut adj: Vec<Vec<u32>> = Vec::new();
    let mut i: usize = 0;
    while i < n
        invariant
            i <= n,
            adj@.len() == i,
            forall|x: int| 0 <= x < i ==> (#[trigger] adj@[x])@ == Seq::<u32>::empty(),
        decreases n - i,
    {
        adj.push(Vec::new());
        i += 1;
    }
    let ghost map = node_to_index@;
    proof {
        let g0 = dense_graph(graph.edges@.subrange(0, 0), map, n as int);
        assert forall|x: int| 0 <= x < n implies #[trigger] sets_of(adj@)[x] =~= g0[x] by {
            assert(adj@[x]@ == Seq::<u32>::empty());
        }
        assert(sets_of(adj@) =~= g0);
    }
    let mut k: usize = 0;
    while k < graph.edges.len()
        invariant
            n == index_to_node@.len(),
            n <= u32::MAX,
            is_dense_indexing(index_to_node@, map, graph.nodes@),
            node_to_index@ == map,
            adj@.len() == n,
            k <= graph.edges@.len(),
            all_distinct(adj@),
            sets_of(adj@) == dense_graph(graph.edges@.subrange(0, k as int), map, n as int),
        decreases graph.edges@.len() - k,
    {
        let e = graph.edges[k];
        let ghost before = sets_of(adj@);
        let ghost pre = graph.edges@.subrange(0, k as int);
        let ghost post = graph.edges@.subrange(0, k + 1);
        proof {
            assert forall|j: int| 0 <= j < pre.len() implies post[j] == pre[j] by {}
            assert(post[k as int] == e);
        }
        if e.src != e.dst {
            match (node_to_index.get(&e.src), node_to_index.get(&e.dst)) {
                (Some(xr), Some(yr)) => {
                    let x: u32 = *xr;
                    let y: u32 = *yr;
                    proof {
                        let ix = choose|t: int| 0 <= t < n && index_to_node@[t] == e.src;
                        let iy = choose|t: int| 0 <= t < n && index_to_node@[t] == e.dst;
                        assert(x == ix && y == iy);
                        assert(x != y);
                    }
                    list_insert(&mut adj[x as usize], y);
                    list_insert(&mut adj[y as usize], x);
                    proof {
                        let now = sets_of(adj@);
                        let target = dense_graph(post, map, n as int);
                        assert forall|z: int| 0 <= z < n implies #[trigger] now[z] =~= target[z] by {
                            assert forall|w: u32| now[z].contains(w) <==> target[z].contains(w) by {
                                if before[z].contains(w) {
                                    let t = choose|t: int| 0 <= t < pre.len() && #[trigger] edge_links(pre[t], map, z as u32, w);
                                    assert(edge_links(post[t], map, z as u32, w));
                                }
                                if target[z].contains(w) {
                                    let t = choose|t: int| 0 <= t < post.len() && #[trigger] edge_links(post[t], map, z as u32, w);
                                    if t < k {
                                        assert(edge_links(pre[t], map, z as u32, w));
                                    }
                                }
                                if (z == x as int && w == y) || (z == y as int && w == x) {
                                    assert(edge_links(post[k as int], map, z as u32, w));
                                }
                            }
                        }
                        assert(now =~= target);
                    }
                },
                _ => {
                    proof {
                        lemma_dense_graph_skip(graph.edges@, map, n as int, k as int);
                    }
                },
            }
        } else {
            proof {
                lemma_dense_graph_skip(graph.edges@, map, n as int, k as int);
            }
        }
        k += 1;
    }
    proof {
        assert(graph.edges@.subrange(0, graph.edges@.len() as int) == graph.edges@);
        let h = sets_of(adj@);
        assert forall|x: int, y: u32| 0 <= x < h.len() && #[trigger] h[x].contains(y) implies
            y < h.len() && h[y as int].contains(x as u32) && y != x as u32 by {
            let t = choose|t: int| 0 <= t < graph.edges@.len() && #[trigger] edge_links(graph.edges@[t], map, x as u32, y);
            let e = graph.edges@[t];
            let is = choose|q: int| 0 <= q < n && index_to_node@[q] == e.src;
            let id = choose|q: int| 0 <= q < n && index_to_node@[q] == e.dst;
            assert(edge_links(graph.edges@[t], map, y, x as u32));
        }
    }
    (index_to_node, node_to_index, adj)
}

/// An edge that links nothing leaves the dense graph of a prefix unchanged.
proof fn lemma_dense_graph_skip(edges: Seq<Edge>, map: Map<u32, u32>, n: int, k: int)
    requires
        0 <= n,
        0 <= k < edges.len(),
        forall|x: u32, y: u32| !edge_links(edges[k], map, x, y),
    ensures
        dense_graph(edges.subrange(0, k + 1), map, n) == dense_graph(edges.subrange(0, k), map, n),
{
    let pre = edges.subrange(0, k);
    let post = edges.subrange(0, k + 1);
    let a = dense_graph(post, map, n);
    let b = dense_graph(pre, map, n);
    assert forall|z: int| 0 <= z < n implies #[trigger] a[z] =~= b[z] by {
        assert forall|w: u32| a[z].contains(w) <==> b[z].contains(w) by {
            if a[z].contains(w) {
                let t = choose|t: int| 0 <= t < post.len() && #[trigger] edge_links(post[t], map, z as u32, w);
                assert(t != k);
                assert(edge_links(pre[t], map, z as u32, w));
            }
            if b[z].contains(w) {
                let t = choose|t: int| 0 <= t < pre.len() && #[trigger] edge_links(pre[t], map, z as u32, w);
                assert(edge_links(post[t], map, z as u32, w));
            }
        }
    }
    assert(a =~= b);
}


/// Some bag holds `x` and `y` at two positions.
pub open spec fn in_some_pair(bags: Seq<Seq<u32>>, x: u32, y: u32) -> bool {
    exists|i: int| 0 <= i < bags.len() && #[trigger] pair_in(bags[i], x, y)
}

/// A rooted tree decomposition over a dense vertex indexing `0..n`.
///
/// `bags[i]` is the bag of the `i`-th eliminated vertex `own[i]`, sorted;
/// `parent[i] == usize::MAX` marks a root.
#[derive(Debug)]
pub struct TreeDecomposition {
    pub bags: Vec<Vec<u32>>,
    pub own: Vec<u32>,
    pub parent: Vec<usize>,
    pub children: Vec<Vec<usize>>,
    /// Component roots, in increasing index order.
    pub roots: Vec<usize>,
    pub width: usize,
    /// Dense index -> original node id.
    pub index_to_node: Vec<NodeId>,
    /// Original node id -> dense index.
    pub node_to_index: HashMap<NodeId, u32>,
}

impl TreeDecomposition {
    pub open spec fn bag_seqs(&self) -> Seq<Seq<u32>> {
        Seq::new(self.bags@.len(), |i: int| self.bags@[i]@)
    }

    /// Every parent pointer is a root mark or names a bag.
    pub open spec fn well_shaped(&self) -> bool {
        &&& self.parent@.len() == self.bags@.len()
        &&& forall|i: int| 0 <= i < self.parent@.len() ==>
            (#[trigger] self.parent@[i]) == usize::MAX || self.parent@[i] < self.bags@.len()
    }

    /// Axiom 2 against the graph's edge list: every non-loop edge joins two known
    /// vertices that share a bag.
    pub open spec fn edges_covered(&self, edges: Seq<Edge>) -> bool {
        forall|k: int| 0 <= k < edges.len() && (#[trigger] edges[k]).src != edges[k].dst ==> {
            &&& self.node_to_index@.contains_key(edges[k].src)
            &&& self.node_to_index@.contains_key(edges[k].dst)
            &&& in_some_pair(self.bag_seqs(), self.node_to_index@[edges[k].src], self.node_to_index@[edges[k].dst])
        }
    }

    /// The three tree-decomposition axioms, with axiom 3 in parent-pointer form.
    pub open spec fn is_valid_for(&self, edges: Seq<Edge>) -> bool {
        &&& bags_cover_vertices(self.bag_seqs(), self.index_to_node@.len() as int)
        &&& self.edges_covered(edges)
        &&& bags_connected(self.bag_seqs(), self.parent@)
    }

    pub fn num_bags(&self) -> (r: usize)
        ensures
            r == self.bags@.len(),
    {
        self.bags.len()
    }

    /// Bag indices in post-order: every child precedes its parent. The
    /// construction guarantees `parent[i] > i`, so the identity order is one.
    pub fn post_order(&self) -> (r: Vec<usize>)
        ensures
            r@.len() == self.bags@.len(),
            forall|i: int| 0 <= i < r@.len() ==> #[trigger] r@[i] == i,
    {
        let mut r: Vec<usize> = Vec::new();
        let mut i: usize = 0;
        while i < self.bags.len()
            invariant
                i <= self.bags@.len(),
                r@.len() == i,
                forall|j: int| 0 <= j < i ==> #[trigger] r@[j] == j,
            decreases self.bags@.len() - i,
        {
            r.push(i);
            i += 1;
        }
        r
    }

    /// Re-check the three tree-decomposition axioms against `graph`.
    pub fn verify(&self, graph: &UndirectedGraph) -> (ok: bool)
        requires
            self.well_shaped(),
            self.index_to_node@.len() <= u32::MAX,
        ensures
            ok == self.is_valid_for(graph.edges@),
    {
        let n = self.index_to_node.len();
        let ghost bs = self.bag_seqs();
        // Axiom 1: every vertex in some bag.
        let mut seen: Vec<bool> = Vec::new();
        let mut v: usize = 0;
        while v < n
            invariant
                v <= n,
                seen@.len() == v,
                forall|j: int| 0 <= j < v ==> !(#[trigger] seen@[j]),
            decreases n - v,
        {
            seen.push(false);
            v += 1;
        }
        let mut i: usize = 0;
        while i < self.bags.len()
            invariant
                n == self.index_to_node@.len(),
                bs == self.bag_seqs(),
                i <= self.bags@.len(),
                seen@.len() == n,
                forall|j: int, a: int| 0 <= j < i && 0 <= a < bs[j].len() ==> #[trigger] bs[j][a] < n,
                forall|w: u32| w < n ==> (seen@[w as int] <==> exists|j: int| 0 <= j < i && #[trigger] bs[j].contains(w)),
            decreases self.bags@.len() - i,
        {
            let bag = &self.bags[i];
            assert(bag@ == bs[i as int]);
            let mut a: usize = 0;
            while a < bag.len()
                invariant
                    n == self.index_to_node@.len(),
                    bs == self.bag_seqs(),
                    i < self.bags@.len(),
                    bag@ == bs[i as int],
                    a <= bag@.len(),
                    seen@.len() == n,
                    forall|j: int, b: int| 0 <= j < i && 0 <= b < bs[j].len() ==> #[trigger] bs[j][b] < n,
                    forall|b: int| 0 <= b < a ==> #[trigger] bag@[b] < n,
                    forall|w: u32| w < n ==> (seen@[w as int] <==> (exists|j: int| 0 <= j < i && #[trigger] bs[j].contains(w))
                        || bag@.subrange(0, a as int).contains(w)),
                decreases bag@.len() - a,
            {
                let w = bag[a];
                if w as usize >= n {
                    proof {
                        assert(bs[i as int][a as int] >= n);
                    }
                    return false;
                }
                seen.set(w as usize, true);
                proof {
                    assert forall|u: u32| u < n implies (seen@[u as int] <==> (exists|j: int| 0 <= j < i && #[trigger] bs[j].contains(u))
                        || bag@.subrange(0, a + 1).contains(u)) by {
                        if bag@.subrange(0, a as int).contains(u) {
                            let q = choose|q: int| 0 <= q < a && #[trigger] bag@.subrange(0, a as int)[q] == u;
                            assert(bag@.subrange(0, a + 1)[q] == u);
                        }
                        if bag@.subrange(0, a + 1).contains(u) && u != w {
                            let q = choose|q: int| 0 <= q < a + 1 && #[trigger] bag@.subrange(0, a + 1)[q] == u;
                            assert(bag@.subrange(0, a as int)[q] == u);
                        }
                        if u == w {
                            assert(bag@.subrange(0, a + 1)[a as int] == u);
                        }
                    }
                }
                a += 1;
            }
            proof {
                assert(bag@.subrange(0, bag@.len() as int) == bag@);
                assert forall|w: u32| w < n implies (seen@[w as int] <==> exists|j: int| 0 <= j < i + 1 && #[trigger] bs[j].contains(w)) by {
                    if bs[i as int].contains(w) {
                        assert(exists|j: int| 0 <= j < i + 1 && #[trigger] bs[j].contains(w));
                    }
                    if exists|j: int| 0 <= j < i + 1 && #[trigger] bs[j].contains(w) {
                        let j = choose|j: int| 0 <= j < i + 1 && #[trigger] bs[j].contains(w);
                        if j < i {
                            assert(exists|j: int| 0 <= j < i && #[trigger] bs[j].contains(w));
                        }
                    }
                }
            }
            i += 1;
        }
        let mut v: usize = 0;
        while v < n
            invariant
                n == self.index_to_node@.len(),
                n <= u32::MAX,
                bs == self.bag_seqs(),
                v <= n,
                seen@.len() == n,
                forall|w: u32| w < n ==> (seen@[w as int] <==> exists|j: int| 0 <= j < bs.len() && #[trigger] bs[j].contains(w)),
                forall|w: u32| w < v ==> #[trigger] in_some_bag(bs, w),
            decreases n - v,
        {
            if !seen[v] {
                proof {
                    assert((v as u32) as int == v);
                    assert(!seen@[(v as u32) as int]);
                    assert(!in_some_bag(bs, v as u32));
                }
                return false;
            }
            v += 1;
        }
        assert(bags_cover_vertices(bs, n as int));
        // Axiom 2: every edge inside some bag.
        let mut k: usize = 0;
        while k < graph.edges.len()
            invariant
                bs == self.bag_seqs(),
                k <= graph.edges@.len(),
                forall|q: int| 0 <= q < k && (#[trigger] graph.edges@[q]).src != graph.edges@[q].dst ==> {
                    &&& self.node_to_index@.contains_key(graph.edges@[q].src)
                    &&& self.node_to_index@.contains_key(graph.edges@[q].dst)
                    &&& in_some_pair(bs, self.node_to_index@[graph.edges@[q].src], self.node_to_index@[graph.edges@[q].dst])
                },
            decreases graph.edges@.len() - k,
        {
            let e = graph.edges[k];
            if e.src != e.dst {
                match (self.node_to_index.get(&e.src), self.node_to_index.get(&e.dst)) {
                    (Some(xr), Some(yr)) => {
                        let x: u32 = *xr;
                        let y: u32 = *yr;
                        if !self.has_pair(x, y) {
                            return false;
                        }
                    },
                    _ => {
                        return false;
                    },
                }
            }
            k += 1;
        }
        assert(self.edges_covered(graph.edges@));
        // Axiom 3: the bags holding a vertex induce a connected subtree, checked
        // as "a vertex in a non-topmost bag is in its parent's bag".
        let mut topmost: Vec<usize> = Vec::new();
        let mut v: usize = 0;
        while v < n
            invariant
                v <= n,
                topmost@.len() == v,
                forall|j: int| 0 <= j < v ==> #[trigger] topmost@[j] == usize::MAX,
            decreases n - v,
        {
            topmost.push(usize::MAX);
            v += 1;
        }
        let mut i: usize = 0;
        while i < self.bags.len()
            invariant
                n == self.index_to_node@.len(),
                bs == self.bag_seqs(),
                bags_cover_vertices(bs, n as int),
                i <= self.bags@.len(),
                topmost@.len() == n,
                forall|w: u32| w < n ==> last_holder(bs, w, i as int, #[trigger] topmost@[w as int]),
            decreases self.bags@.len() - i,
        {
            let bag = &self.bags[i];
            assert(bag@ == bs[i as int]);
            let mut a: usize = 0;
            while a < bag.len()
                invariant
                    n == self.index_to_node@.len(),
                    bs == self.bag_seqs(),
                    bags_cover_vertices(bs, n as int),
                    i < self.bags@.len(),
                    bag@ == bs[i as int],
                    a <= bag@.len(),
                    topmost@.len() == n,
                    forall|w: u32| w < n && !bag@.subrange(0, a as int).contains(w) ==>
                        last_holder(bs, w, i as int, #[trigger] topmost@[w as int]),
                    forall|w: u32| w < n && bag@.subrange(0, a as int).contains(w) ==> #[trigger] topmost@[w as int] == i,
                decreases bag@.len() - a,
            {
                let w = bag[a];
                assert(bs[i as int][a as int] < n);
                topmost.set(w as usize, i);
                proof {
                    assert forall|u: u32| u < n && bag@.subrange(0, a + 1).contains(u) implies #[trigger] topmost@[u as int] == i by {
                        if u != w {
                            let q = choose|q: int| 0 <= q < a + 1 && #[trigger] bag@.subrange(0, a + 1)[q] == u;
                            assert(bag@.subrange(0, a as int)[q] == u);
                        }
                    }
                    assert forall|u: u32| u < n && !bag@.subrange(0, a + 1).contains(u) implies
                        last_holder(bs, u, i as int, #[trigger] topmost@[u as int]) by {
                        assert(u != w) by {
                            if u == w {
                                assert(bag@.subrange(0, a + 1)[a as int] == u);
                            }
                        }
                        if bag@.subrange(0, a as int).contains(u) {
                            let q = choose|q: int| 0 <= q < a && #[trigger] bag@.subrange(0, a as int)[q] == u;
                            assert(bag@.subrange(0, a + 1)[q] == u);
                        }
                    }
                }
                a += 1;
            }
            proof {
                assert(bag@.subrange(0, bag@.len() as int) == bag@);
                assert forall|w: u32| w < n implies last_holder(bs, w, i + 1, #[trigger] topmost@[w as int]) by {
                    if bs[i as int].contains(w) {
                        assert(topmost@[w as int] == i);
                    } else {
                        assert(last_holder(bs, w, i as int, topmost@[w as int]));
                    }
                }
            }
            i += 1;
        }
        let mut i: usize = 0;
        while i < self.bags.len()
            invariant
                self.well_shaped(),
                n == self.index_to_node@.len(),
                bs == self.bag_seqs(),
                bags_cover_vertices(bs, n as int),
                i <= self.bags@.len(),
                topmost@.len() == n,
                forall|w: u32| w < n ==> last_holder(bs, w, bs.len() as int, #[trigger] topmost@[w as int]),
                forall|j: int, w: u32| 0 <= j < i && #[trigger] bs[j].contains(w) && !is_topmost(bs, w, j) ==> {
                    &&& self.parent@[j] != usize::MAX
                    &&& self.parent@[j] < bs.len()
                    &&& bs[self.parent@[j] as int].contains(w)
                },
            decreases self.bags@.len() - i,
        {
            let bag = &self.bags[i];
            assert(bag@ == bs[i as int]);
            let mut a: usize = 0;
            while a < bag.len()
                invariant
                    self.well_shaped(),
                    n == self.index_to_node@.len(),
                    bs == self.bag_seqs(),
                    bags_cover_vertices(bs, n as int),
                    i < self.bags@.len(),
                    bag@ == bs[i as int],
                    a <= bag@.len(),
                    topmost@.len() == n,
                    forall|w: u32| w < n ==> last_holder(bs, w, bs.len() as int, #[trigger] topmost@[w as int]),
                    forall|b: int| 0 <= b < a && !is_topmost(bs, #[trigger] bag@[b], i as int) ==> {
                        &&& self.parent@[i as int] != usize::MAX
                        &&& self.parent@[i as int] < bs.len()
                        &&& bs[self.parent@[i as int] as int].contains(bag@[b])
                    },
                decreases bag@.len() - a,
            {
                let w = bag[a];
                assert(bs[i as int][a as int] < n);
                assert(bs[i as int].contains(w));
                if topmost[w as usize] != i {
                    let p = self.parent[i];
                    if p == usize::MAX {
                        proof {
                            lemma_not_topmost(bs, w, i as int, topmost@[w as int]);
                        }
                        return false;
                    }
                    if !list_contains(&self.bags[p], w) {
                        proof {
                            lemma_not_topmost(bs, w, i as int, topmost@[w as int]);
                            assert(self.bags@[p as int]@ == bs[p as int]);
                        }
                        return false;
                    }
                    proof {
                        assert(self.bags@[p as int]@ == bs[p as int]);
                    }
                } else {
                    proof {
                        assert(is_topmost(bs, w, i as int));
                    }
                }
                a += 1;
            }
            proof {
                assert forall|j: int, w: u32| 0 <= j < i + 1 && #[trigger] bs[j].contains(w) && !is_topmost(bs, w, j) implies {
                    &&& self.parent@[j] != usize::MAX
                    &&& self.parent@[j] < bs.len()
                    &&& bs[self.parent@[j] as int].contains(w)
                } by {
                    if j == i {
                        let b = choose|b: int| 0 <= b < bag@.len() && bag@[b] == w;
                        assert(!is_topmost(bs, bag@[b], i as int));
                    }
                }
            }
            i += 1;
        }
        assert(bags_connected(bs, self.parent@));
        true
    }

    /// Whether some bag holds `x` and `y` at two positions.
    fn has_pair(&self, x: u32, y: u32) -> (r: bool)
        ensures
            r == in_some_pair(self.bag_seqs(), x, y),
    {
        let ghost bs = self.bag_seqs();
        let mut i: usize = 0;
        while i < self.bags.len()
            invariant
                bs == self.bag_seqs(),
                i <= self.bags@.len(),
                forall|j: int| 0 <= j < i ==> !#[trigger] pair_in(bs[j], x, y),
            decreases self.bags@.len() - i,
        {
            assert(self.bags@[i as int]@ == bs[i as int]);
            if bag_has_pair(&self.bags[i], x, y) {
                return true;
            }
            i += 1;
        }
        false
    }
}

/// `top` is the last index below `upto` of a bag holding `w`, or `usize::MAX`
/// when none does.
pub open spec fn last_holder(bags: Seq<Seq<u32>>, w: u32, upto: int, top: usize) -> bool {
    if top == usize::MAX {
        forall|j: int| 0 <= j < upto ==> !#[trigger] bags[j].contains(w)
    } else {
        &&& top < upto
        &&& bags[top as int].contains(w)
        &&& forall|j: int| top < j < upto ==> !#[trigger] bags[j].contains(w)
    }
}

proof fn lemma_not_topmost(bags: Seq<Seq<u32>>, w: u32, i: int, top: usize)
    requires
        0 <= i < bags.len(),
        bags[i].contains(w),
        last_holder(bags, w, bags.len() as int, top),
        top != i,
    ensures
        !is_topmost(bags, w, i),
{
    assert(top != usize::MAX);
    assert(top > i);
}

/// Whether positions `a < b` of `bag` hold `x` and `y`, in either order.
fn bag_has_pair(bag: &Vec<u32>, x: u32, y: u32) -> (r: bool)
    ensures
        r == pair_in(bag@, x, y),
{
    let mut a: usize = 0;
    while a < bag.len()
        invariant
            a <= bag@.len(),
            forall|p: int, q: int| 0 <= p < a && p < q < bag@.len() ==>
                !((#[trigger] bag@[p] == x && #[trigger] bag@[q] == y) || (bag@[p] == y && bag@[q] == x)),
        decreases bag@.len() - a,
    {
        let mut b: usize = a + 1;
        while b < bag.len()
            invariant
                a < bag@.len(),
                a < b <= bag@.len(),
                forall|p: int, q: int| 0 <= p < a && p < q < bag@.len() ==>
                    !((#[trigger] bag@[p] == x && #[trigger] bag@[q] == y) || (bag@[p] == y && bag@[q] == x)),
                forall|q: int| a < q < b ==>
                    !((bag@[a as int] == x && #[trigger] bag@[q] == y) || (bag@[a as int] == y && bag@[q] == x)),
            decreases bag@.len() - b,
        {
            if (bag[a] == x && bag[b] == y) || (bag[a] == y && bag[b] == x) {
                return true;
            }
            b += 1;
        }
        a += 1;
    }
    false
}


/// Lexicographic order on score pairs.
pub open spec fn lex_le(a: (int, int), b: (int, int)) -> bool {
    a.0 < b.0 || (a.0 == b.0 && a.1 <= b.1)
}

/// Among the live vertices, one of least score, the lowest index breaking ties.
fn pick_vertex(adj: &Vec<Vec<u32>>, live: &Vec<bool>, order: EliminationOrdering) -> (v: u32)
    requires
        adj@.len() == live@.len(),
        adj@.len() <= u32::MAX,
        exists|w: int| 0 <= w < live@.len() && live@[w],
        forall|x: int| 0 <= x < adj@.len() ==> (#[trigger] adj@[x])@.len() < 0x100000,
        forall|x: int, y: u32| 0 <= x < adj@.len() && #[trigger] adj@[x]@.contains(y) ==> y < adj@.len(),
    ensures
        v < adj@.len(),
        live@[v as int],
        forall|w: int| 0 <= w < adj@.len() && #[trigger] live@[w] ==> lex_le(
            score_spec(adj@[v as int]@, sets_of(adj@), order),
            score_spec(adj@[w]@, sets_of(adj@), order),
        ),
        forall|w: int| 0 <= w < v && #[trigger] live@[w] ==> score_spec(adj@[v as int]@, sets_of(adj@), order)
            != score_spec(adj@[w]@, sets_of(adj@), order),
{
    let mut best: u32 = 0;
    let mut best_score: (u64, u64) = (0, 0);
    let mut found = false;
    let mut w: usize = 0;
    while w < adj.len()
        invariant
            adj@.len() == live@.len(),
            adj@.len() <= u32::MAX,
            w <= adj@.len(),
            forall|x: int| 0 <= x < adj@.len() ==> (#[trigger] adj@[x])@.len() < 0x100000,
            forall|x: int, y: u32| 0 <= x < adj@.len() && #[trigger] adj@[x]@.contains(y) ==> y < adj@.len(),
            found ==> best < w && live@[best as int],
            found ==> best_score.0 == score_spec(adj@[best as int]@, sets_of(adj@), order).0
                && best_score.1 == score_spec(adj@[best as int]@, sets_of(adj@), order).1,
            found <==> exists|u: int| 0 <= u < w && live@[u],
            forall|u: int| 0 <= u < w && #[trigger] live@[u] ==> lex_le(
                score_spec(adj@[best as int]@, sets_of(adj@), order),
                score_spec(adj@[u]@, sets_of(adj@), order),
            ),
            forall|u: int| 0 <= u < best && #[trigger] live@[u] ==> score_spec(adj@[best as int]@, sets_of(adj@), order)
                != score_spec(adj@[u]@, sets_of(adj@), order),
        decreases adj@.len() - w,
    {
        if live[w] {
            let sc = score(adj, w as u32, order);
            if !found || sc.0 < best_score.0 || (sc.0 == best_score.0 && sc.1 < best_score.1) {
                best = w as u32;
                best_score = sc;
                found = true;
            }
        }
        w += 1;
    }
    best
}

/// The bag `{v} + nbrs`, sorted.
fn make_bag(nbrs: &Vec<u32>, v: u32) -> (bag: Vec<u32>)
    requires
        nbrs@.no_duplicates(),
        !nbrs@.contains(v),
    ensures
        strictly_sorted(bag@),
        bag@.to_set() == nbrs@.to_set().insert(v),
        bag@.len() == nbrs@.len() + 1,
{
    let mut bag: Vec<u32> = Vec::new();
    let mut i: usize = 0;
    while i < nbrs.len()
        invariant
            i <= nbrs@.len(),
            strictly_sorted(bag@),
            bag@.to_set() == nbrs@.subrange(0, i as int).to_set(),
        decreases nbrs@.len() - i,
    {
        sorted_insert(&mut bag, nbrs[i]);
        proof {
            assert(nbrs@.subrange(0, i + 1) == nbrs@.subrange(0, i as int).push(nbrs@[i as int]));
            nbrs@.subrange(0, i as int).lemma_push_to_set_commute(nbrs@[i as int]);
        }
        i += 1;
    }
    sorted_insert(&mut bag, v);
    proof {
        assert(nbrs@.subrange(0, nbrs@.len() as int) == nbrs@);
        lemma_sorted_distinct(bag@);
        bag@.unique_seq_to_set();
        nbrs@.unique_seq_to_set();
    }
    bag
}


/// The indices `i < upto` with `parent[i] == p`, increasing.
pub open spec fn indices_with_parent(parent: Seq<usize>, p: usize, upto: int) -> Seq<usize>
    decreases upto,
{
    if upto <= 0 {
        Seq::empty()
    } else {
        let pre = indices_with_parent(parent, p, upto - 1);
        if parent[upto - 1] == p { pre.push((upto - 1) as usize) } else { pre }
    }
}

/// Every non-loop edge joins two vertices the graph lists as nodes.
pub open spec fn edges_known(graph: &UndirectedGraph) -> bool {
    forall|k: int| 0 <= k < graph.edges@.len() && (#[trigger] graph.edges@[k]).src != graph.edges@[k].dst ==>
        node_ids(graph.nodes@).contains(graph.edges@[k].src) && node_ids(graph.nodes@).contains(graph.edges@[k].dst)
}

/// What a decomposition produced from `graph` by the elimination game along
/// `td.own` satisfies.
pub open spec fn is_game_decomposition(td: &TreeDecomposition, graph: &UndirectedGraph, max_width: usize) -> bool {
    let n = td.index_to_node@.len() as int;
    let h0 = dense_graph(graph.edges@, td.node_to_index@, n);
    &&& is_dense_indexing(td.index_to_node@, td.node_to_index@, graph.nodes@)
    &&& td.well_shaped()
    &&& is_elimination_order(td.own@, n)
    &&& td.bags@.len() == n
    &&& forall|i: int| 0 <= i < n ==> strictly_sorted(#[trigger] td.bags@[i]@)
    &&& forall|i: int| 0 <= i < n ==> (#[trigger] td.bags@[i])@.to_set() == game_bag(h0, td.own@, i)
    &&& forall|i: int| 0 <= i < n ==> is_game_parent(h0, td.own@, i, #[trigger] td.parent@[i])
    &&& forall|i: int| 0 <= i < n ==> (#[trigger] td.parent@[i]) == usize::MAX || td.parent@[i] > i
    &&& td.children@.len() == n
    &&& forall|p: int| 0 <= p < n ==> (#[trigger] td.children@[p])@ == indices_with_parent(td.parent@, p as usize, n)
    &&& td.roots@ == indices_with_parent(td.parent@, usize::MAX, n)
    &&& forall|i: int| 0 <= i < n ==> (#[trigger] td.bags@[i])@.len() <= td.width + 1
    &&& (n > 0 ==> exists|i: int| 0 <= i < n && (#[trigger] td.bags@[i])@.len() == td.width + 1)
    &&& td.width <= max_width
    &&& bags_cover_vertices(td.bag_seqs(), n)
    &&& bags_connected(td.bag_seqs(), td.parent@)
    &&& (edges_known(graph) ==> td.edges_covered(graph.edges@))
}

/// Build a tree decomposition under one named elimination heuristic.
///
/// Each step eliminates a live vertex of least score (lowest index on ties),
/// records its bag, and refuses as soon as a bag would exceed `max_width + 1`
/// vertices. `None` also when the graph has no vertex, or when the deadline has
/// passed.
pub fn decompose_with(
    graph: &UndirectedGraph,
    order: EliminationOrdering,
    max_width: usize,
    deadline: Option<Instant>,
) -> (r: Option<TreeDecomposition>)
    requires
        graph.nodes@.len() < 0x100000,
    ensures
        r matches Some(td) ==> is_game_decomposition(&td, graph, max_width) && td.index_to_node@.len() > 0,
        r is None ==> node_ids(graph.nodes@).is_empty() || deadline is Some || wide_bag_exists(graph, max_width),
{
    let (index_to_node, node_to_index, mut adj) = dense_adjacency(graph);
    let n = index_to_node.len();
    if n == 0 {
        proof {
            assert(node_ids(graph.nodes@) =~= Set::<u32>::empty()) by {
                assert forall|v: u32| !node_ids(graph.nodes@).contains(v) by {
                    if node_ids(graph.nodes@).contains(v) {
                        assert(index_to_node@.to_set().contains(v));
                    }
                }
            }
        }
        return None;
    }
    let ghost map = node_to_index@;
    let ghost h0 = sets_of(adj@);
    proof {
        index_to_node@.unique_seq_to_set();
        lemma_sorted_distinct(index_to_node@);
        assert(n <= graph.nodes@.len()) by {
            let ids = graph.nodes@.map_values(|nd: Node| nd.id);
            assert(node_ids(graph.nodes@).subset_of(ids.to_set())) by {
                assert forall|v: u32| node_ids(graph.nodes@).contains(v) implies ids.to_set().contains(v) by {
                    let j = choose|j: int| 0 <= j < graph.nodes@.len() && (#[trigger] graph.nodes@[j]).id == v;
                    assert(ids[j] == v);
                }
            }
            ids.lemma_cardinality_of_set();
            vstd::set_lib::lemma_len_subset(node_ids(graph.nodes@), ids.to_set());
        }
    }
    let mut live: Vec<bool> = Vec::new();
    let mut pos: Vec<usize> = Vec::new();
    let mut v: usize = 0;
    while v < n
        invariant
            v <= n,
            live@.len() == v,
            pos@.len() == v,
            forall|j: int| 0 <= j < v ==> #[trigger] live@[j],
            forall|j: int| 0 <= j < v ==> #[trigger] pos@[j] == usize::MAX,
        decreases n - v,
    {
        live.push(true);
        pos.push(usize::MAX);
        v += 1;
    }
    let mut bags: Vec<Vec<u32>> = Vec::new();
    let mut elim: Vec<u32> = Vec::new();
    let mut width: usize = 0;
    let mut eliminated: usize = 0;
    while eliminated < n
        invariant
            n == index_to_node@.len(),
            0 < n < 0x100000,
            h0 == dense_graph(graph.edges@, map, n as int),
            is_dense_indexing(index_to_node@, map, graph.nodes@),
            node_to_index@ == map,
            is_simple(h0),
            h0.len() == n,
            adj@.len() == n,
            all_distinct(adj@),
            eliminated == elim@.len(),
            eliminated <= n,
            sets_of(adj@) == elim_graph(h0, elim@, eliminated as int),
            elim@.no_duplicates(),
            forall|i: int| 0 <= i < elim@.len() ==> (#[trigger] elim@[i]) < n,
            live@.len() == n,
            pos@.len() == n,
            forall|w: int| 0 <= w < n ==> (#[trigger] live@[w] <==> alive(elim@, eliminated as int, w as u32)),
            forall|w: int| 0 <= w < n && #[trigger] live@[w] ==> pos@[w] == usize::MAX,
            forall|i: int| 0 <= i < eliminated ==> #[trigger] pos@[elim@[i] as int] == i,
            bags@.len() == eliminated,
            forall|i: int| 0 <= i < eliminated ==> strictly_sorted(#[trigger] bags@[i]@),
            forall|i: int| 0 <= i < eliminated ==> (#[trigger] bags@[i])@.to_set() == game_bag(h0, elim@, i),
            forall|i: int| 0 <= i < eliminated ==> (#[trigger] bags@[i])@.len() <= width + 1,
            eliminated > 0 ==> exists|i: int| 0 <= i < eliminated && (#[trigger] bags@[i])@.len() == width + 1,
            eliminated == 0 ==> width == 0,
            width <= max_width,
        decreases n - eliminated,
    {
        if eliminated % 64 == 63 && passed(&deadline) {
            return None;
        }
        proof {
            lemma_elim_graph_simple(h0, elim@, eliminated as int);
            crate::graph::algorithms::elimination::lemma_some_vertex_left(elim@, n as int);
            let w = choose|w: u32| w < n && !elim@.contains(w);
            assert(elim@.subrange(0, eliminated as int) == elim@);
            assert(live@[w as int]);
            assert forall|x: int| 0 <= x < adj@.len() implies (#[trigger] adj@[x])@.len() < 0x100000 by {
                adj@[x]@.unique_seq_to_set();
                let full = Set::new(|y: u32| y < n);
                crate::graph::algorithms::elimination::lemma_full_len(n as int);
                assert(adj@[x]@.to_set().subset_of(full)) by {
                    assert forall|y: u32| adj@[x]@.to_set().contains(y) implies full.contains(y) by {
                        assert(sets_of(adj@)[x].contains(y));
                    }
                }
                vstd::set_lib::lemma_len_subset(adj@[x]@.to_set(), full);
            }
            assert forall|x: int, y: u32| 0 <= x < adj@.len() && #[trigger] adj@[x]@.contains(y) implies y < adj@.len() by {
                assert(sets_of(adj@)[x].contains(y));
            }
        }
        let v = pick_vertex(&adj, &live, order);
        let nbrs = list_copy(&adj[v as usize]);
        proof {
            assert(sets_of(adj@)[v as int] == nbrs@.to_set());
            assert(!nbrs@.contains(v)) by {
                if nbrs@.contains(v) {
                    assert(sets_of(adj@)[v as int].contains(v));
                }
            }
        }
        if nbrs.len() > max_width {
            proof {
                let o = elim@.push(v);
                assert(elim@.subrange(0, eliminated as int) == elim@);
                lemma_extend_order(elim@, v, n as int);
                lemma_elim_graph_prefix(h0, elim@, o, eliminated as int);
                assert(o[eliminated as int] == v);
                lemma_game_bag_len(h0, o, eliminated as int, nbrs@);
                assert(game_bag(h0, o, o.len() - 1).len() > max_width + 1);
                assert(wide_bag_exists(graph, max_width)) by {
                    assert(node_to_index@ == map);
                    lemma_wide_witness(graph, max_width, index_to_node@, map, o);
                }
            }
            return None;
        }
        let bag = make_bag(&nbrs, v);
        let ghost old_width = width;
        let ghost pre_bags = bags@;
        if nbrs.len() > width {
            width = nbrs.len();
        }
        pos.set(v as usize, eliminated);
        bags.push(bag);
        let ghost old_elim = elim@;
        let ghost old_bags = bags@;
        elim.push(v);
        eliminate_vertex(&mut adj, v);
        live.set(v as usize, false);
        proof {
            let k = eliminated as int;
            assert(elim@.subrange(0, k) == old_elim);
            assert(old_elim.subrange(0, k) == old_elim);
            lemma_elim_graph_prefix(h0, old_elim, elim@, k);
            assert(sets_of(adj@) == elim_graph(h0, elim@, k + 1));
            lemma_extend_order(old_elim, v, n as int);
            assert forall|w: int| 0 <= w < n implies (#[trigger] live@[w] <==> alive(elim@, k + 1, w as u32)) by {
                assert(elim@.subrange(0, k + 1) == elim@);
                if w == v as int {
                    assert(elim@[k] == v);
                } else {
                    assert(old_elim.subrange(0, k) == old_elim);
                    if elim@.contains(w as u32) {
                        let q = choose|q: int| 0 <= q < elim@.len() && elim@[q] == w as u32;
                        assert(old_elim[q] == w as u32);
                    }
                    if old_elim.contains(w as u32) {
                        let q = choose|q: int| 0 <= q < old_elim.len() && old_elim[q] == w as u32;
                        assert(elim@[q] == w as u32);
                    }
                }
            }
            assert forall|i: int| 0 <= i < k + 1 implies #[trigger] pos@[elim@[i] as int] == i by {
                if i < k {
                    assert(elim@[i] == old_elim[i]);
                    assert(old_elim[i] != v);
                }
            }
            assert forall|i: int| 0 <= i < k + 1 implies (#[trigger] bags@[i])@.to_set() == game_bag(h0, elim@, i) by {
                lemma_elim_graph_prefix(h0, old_elim.push(v), elim@, i);
                if i < k {
                    lemma_elim_graph_prefix(h0, old_elim, elim@, i);
                    assert(elim@[i] == old_elim[i]);
                } else {
                    assert(elim@[k] == v);
                }
            }
            assert(bags@[k]@.len() == nbrs@.len() + 1);
            if width == nbrs@.len() {
                assert(bags@[k]@.len() == width + 1);
            } else {
                assert(width == old_width);
                assert(k > 0);
                let j = choose|j: int| 0 <= j < k && (#[trigger] pre_bags[j])@.len() == old_width + 1;
                assert(bags@[j] == pre_bags[j]);
            }
        }
        eliminated += 1;
    }
    proof {
        assert(elim@.subrange(0, n as int) == elim@);
        assert(is_elimination_order(elim@, n as int));
    }
    let ghost order_seq = elim@;
    let (parent, children, roots) = wire_bags(&bags, &elim, &pos, Ghost(h0));
    let td = TreeDecomposition { bags, own: elim, parent, children, roots, width, index_to_node, node_to_index };
    proof {
        let bs = td.bag_seqs();
        assert forall|i: int| 0 <= i < n implies (#[trigger] bs[i]).no_duplicates() by {
            lemma_sorted_distinct(td.bags@[i]@);
        }
        lemma_game_is_tree_decomposition(h0, order_seq, n as int, bs, td.parent@);
        assert(bags_cover_vertices(bs, n as int));
        if edges_known(graph) {
            assert forall|k: int| 0 <= k < graph.edges@.len() && (#[trigger] graph.edges@[k]).src != graph.edges@[k].dst implies {
                &&& td.node_to_index@.contains_key(graph.edges@[k].src)
                &&& td.node_to_index@.contains_key(graph.edges@[k].dst)
                &&& in_some_pair(bs, td.node_to_index@[graph.edges@[k].src], td.node_to_index@[graph.edges@[k].dst])
            } by {
                let e = graph.edges@[k];
                let x = map[e.src];
                let y = map[e.dst];
                assert(index_to_node@.to_set().contains(e.src));
                assert(index_to_node@.to_set().contains(e.dst));
                let ix = choose|t: int| 0 <= t < n && index_to_node@[t] == e.src;
                assert(edge_links(e, map, x, y));
                assert(h0[x as int].contains(y));
            }
        }
    }
    Some(td)
}

/// Some partial elimination order of the dense graph records a bag with more
/// than `max_width + 1` vertices.
pub open spec fn wide_bag_exists(graph: &UndirectedGraph, max_width: usize) -> bool {
    exists|index_to_node: Seq<u32>, map: Map<u32, u32>, o: Seq<u32>| {
        &&& is_dense_indexing(index_to_node, map, graph.nodes@)
        &&& o.len() > 0
        &&& o.len() <= index_to_node.len()
        &&& o.no_duplicates()
        &&& (forall|i: int| 0 <= i < o.len() ==> (#[trigger] o[i]) < index_to_node.len())
        &&& #[trigger] game_bag(dense_graph(graph.edges@, map, index_to_node.len() as int), o, o.len() - 1).len() > max_width + 1
    }
}

proof fn lemma_wide_witness(graph: &UndirectedGraph, max_width: usize, index_to_node: Seq<u32>, map: Map<u32, u32>, o: Seq<u32>)
    requires
        is_dense_indexing(index_to_node, map, graph.nodes@),
        o.len() > 0,
        o.len() <= index_to_node.len(),
        o.no_duplicates(),
        forall|i: int| 0 <= i < o.len() ==> (#[trigger] o[i]) < index_to_node.len(),
        game_bag(dense_graph(graph.edges@, map, index_to_node.len() as int), o, o.len() - 1).len() > max_width + 1,
    ensures
        wide_bag_exists(graph, max_width),
{
}

/// Appending a live vertex keeps an order duplicate-free and in range.
proof fn lemma_extend_order(o: Seq<u32>, v: u32, n: int)
    requires
        o.no_duplicates(),
        !o.contains(v),
        v < n,
        forall|i: int| 0 <= i < o.len() ==> (#[trigger] o[i]) < n,
    ensures
        o.push(v).no_duplicates(),
        forall|i: int| 0 <= i < o.len() + 1 ==> (#[trigger] o.push(v)[i]) < n,
{
    assert forall|a: int, b: int| 0 <= a < o.len() + 1 && 0 <= b < o.len() + 1 && a != b implies o.push(v)[a] != o.push(v)[b] by {
        if a < o.len() && b < o.len() {
        } else if a == o.len() {
            assert(o.push(v)[b] == o[b]);
        } else {
            assert(o.push(v)[a] == o[a]);
        }
    }
}

/// The bag at the last step of `o` has one more vertex than the neighbourhood list.
proof fn lemma_game_bag_len(h0: Seq<Set<u32>>, o: Seq<u32>, k: int, nbrs: Seq<u32>)
    requires
        0 <= k < o.len(),
        nbrs.no_duplicates(),
        nbrs.to_set() == elim_graph(h0, o, k)[o[k] as int],
        !nbrs.contains(o[k]),
    ensures
        game_bag(h0, o, k).len() == nbrs.len() + 1,
{
    nbrs.unique_seq_to_set();
    assert(!nbrs.to_set().contains(o[k]));
}

/// Wire the bags into a forest: the parent of bag `i` is the position of the
/// earliest-eliminated vertex of the bag other than its own.
fn wire_bags(
    bags: &Vec<Vec<u32>>,
    elim: &Vec<u32>,
    pos: &Vec<usize>,
    Ghost(h0): Ghost<Seq<Set<u32>>>,
) -> (r: (Vec<usize>, Vec<Vec<usize>>, Vec<usize>))
    requires
        is_simple(h0),
        is_elimination_order(elim@, h0.len() as int),
        bags@.len() == h0.len(),
        pos@.len() == h0.len(),
        forall|i: int| 0 <= i < h0.len() ==> #[trigger] pos@[elim@[i] as int] == i,
        forall|i: int| 0 <= i < h0.len() ==> (#[trigger] bags@[i])@.to_set() == game_bag(h0, elim@, i),
    ensures
        r.0@.len() == h0.len(),
        forall|i: int| 0 <= i < h0.len() ==> is_game_parent(h0, elim@, i, #[trigger] r.0@[i]),
        forall|i: int| 0 <= i < h0.len() ==> (#[trigger] r.0@[i]) == usize::MAX || (i < r.0@[i] < h0.len()),
        r.1@.len() == h0.len(),
        forall|p: int| 0 <= p < h0.len() ==> (#[trigger] r.1@[p])@ == indices_with_parent(r.0@, p as usize, h0.len() as int),
        r.2@ == indices_with_parent(r.0@, usize::MAX, h0.len() as int),
{
    let n = bags.len();
    let ghost order = elim@;
    let mut parent: Vec<usize> = Vec::new();
    let mut children: Vec<Vec<usize>> = Vec::new();
    let mut i: usize = 0;
    while i < n
        invariant
            i <= n,
            children@.len() == i,
            forall|p: int| 0 <= p < i ==> (#[trigger] children@[p])@ == Seq::<usize>::empty(),
        decreases n - i,
    {
        children.push(Vec::new());
        i += 1;
    }
    let mut roots: Vec<usize> = Vec::new();
    let mut i: usize = 0;
    while i < n
        invariant
            n == h0.len(),
            is_simple(h0),
            is_elimination_order(order, n as int),
            order == elim@,
            bags@.len() == n,
            pos@.len() == n,
            forall|i: int| 0 <= i < n ==> #[trigger] pos@[order[i] as int] == i,
            forall|i: int| 0 <= i < n ==> (#[trigger] bags@[i])@.to_set() == game_bag(h0, order, i),
            i <= n,
            parent@.len() == i,
            forall|j: int| 0 <= j < i ==> is_game_parent(h0, order, j, #[trigger] parent@[j]),
            forall|j: int| 0 <= j < i ==> (#[trigger] parent@[j]) == usize::MAX || (j < parent@[j] < n),
            children@.len() == n,
            forall|p: int| 0 <= p < n ==> (#[trigger] children@[p])@ == indices_with_parent(parent@, p as usize, i as int),
            roots@ == indices_with_parent(parent@, usize::MAX, i as int),
        decreases n - i,
    {
        let own = elim[i];
        let bag = &bags[i];
        let mut best: usize = usize::MAX;
        let mut a: usize = 0;
        proof {
            crate::graph::algorithms::elimination::lemma_position(order, n as int, i as int);
        }
        while a < bag.len()
            invariant
                n == h0.len(),
                is_simple(h0),
                is_elimination_order(order, n as int),
                pos@.len() == n,
                forall|i: int| 0 <= i < n ==> #[trigger] pos@[order[i] as int] == i,
                i < n,
                own == order[i as int],
                bag@.to_set() == game_bag(h0, order, i as int),
                a <= bag@.len(),
                best == usize::MAX ==> forall|b: int| 0 <= b < a ==> #[trigger] bag@[b] == own,
                best != usize::MAX ==> i < best < n && separator(h0, order, i as int).contains(order[best as int]),
                forall|b: int| 0 <= b < a && #[trigger] bag@[b] != own ==> position(order, bag@[b]) >= best,
            decreases bag@.len() - a,
        {
            let u = bag[a];
            if u != own {
                proof {
                    assert(game_bag(h0, order, i as int).contains(u));
                    assert(separator(h0, order, i as int).contains(u));
                    lemma_separator_facts(h0, order, n as int, i as int, u);
                    crate::graph::algorithms::elimination::lemma_alive_position(order, n as int, 0, u);
                }
                let p = pos[u as usize];
                proof {
                    assert(p == position(order, u));
                }
                if p < best {
                    best = p;
                }
            }
            a += 1;
        }
        proof {
            assert forall|u: u32| #[trigger] separator(h0, order, i as int).contains(u) implies position(order, u) >= best by {
                assert(game_bag(h0, order, i as int).contains(u));
                assert(bag@.to_set().contains(u));
                let b = choose|b: int| 0 <= b < bag@.len() && bag@[b] == u;
                lemma_separator_facts(h0, order, n as int, i as int, u);
            }
            if best == usize::MAX {
                assert(separator(h0, order, i as int) =~= Set::<u32>::empty()) by {
                    assert forall|u: u32| !separator(h0, order, i as int).contains(u) by {
                        if separator(h0, order, i as int).contains(u) {
                            lemma_separator_facts(h0, order, n as int, i as int, u);
                            assert(bag@.to_set().contains(u));
                            let b = choose|b: int| 0 <= b < bag@.len() && bag@[b] == u;
                        }
                    }
                }
            } else {
                assert(!separator(h0, order, i as int).is_empty()) by {
                    assert(separator(h0, order, i as int).contains(order[best as int]));
                }
            }
        }
        let ghost before_parent = parent@;
        parent.push(best);
        proof {
            assert forall|q: usize| indices_with_parent(parent@, q, i as int) == indices_with_parent(before_parent, q, i as int) by {
                lemma_indices_prefix(parent@, before_parent, q, i as int);
            }
        }
        if best == usize::MAX {
            roots.push(i);
        } else {
            children[best].push(i);
        }
        proof {
            assert(parent@[i as int] == best);
            assert forall|p: int| 0 <= p < n implies (#[trigger] children@[p])@ == indices_with_parent(parent@, p as usize, i + 1) by {
                assert(indices_with_parent(parent@, p as usize, i as int) == indices_with_parent(before_parent, p as usize, i as int));
                assert((p as usize) as int == p);
            }
            assert(indices_with_parent(parent@, usize::MAX, i as int) == indices_with_parent(before_parent, usize::MAX, i as int));
        }
        i += 1;
    }
    (parent, children, roots)
}

proof fn lemma_indices_prefix(a: Seq<usize>, b: Seq<usize>, q: usize, upto: int)
    requires
        0 <= upto <= a.len(),
        upto <= b.len(),
        forall|j: int| 0 <= j < upto ==> a[j] == b[j],
    ensures
        indices_with_parent(a, q, upto) == indices_with_parent(b, q, upto),
    decreases upto,
{
    if upto > 0 {
        lemma_indices_prefix(a, b, q, upto - 1);
    }
}

proof fn lemma_separator_facts(h0: Seq<Set<u32>>, order: Seq<u32>, n: int, i: int, u: u32)
    requires
        is_simple(h0),
        h0.len() == n,
        is_elimination_order(order, n),
        0 <= i < n,
        separator(h0, order, i).contains(u),
    ensures
        u < n,
        u != order[i],
        position(order, u) > i,
        order[position(order, u)] == u,
{
    crate::graph::algorithms::elimination::lemma_elim_graph_simple(h0, order, i);
    crate::graph::algorithms::elimination::lemma_elim_graph_dead(h0, order, i, order[i] as int, u);
    crate::graph::algorithms::elimination::lemma_alive_position(order, n, i, u);
    crate::graph::algorithms::elimination::lemma_position(order, n, i);
}


/// The least degree among the vertices of `h` that have a neighbour, or 0 when none has.
pub open spec fn least_positive_degree(h: Seq<Set<u32>>, upto: int) -> int
    decreases upto,
{
    if upto <= 0 {
        0
    } else {
        let rest = least_positive_degree(h, upto - 1);
        let d = h[upto - 1].len() as int;
        if d == 0 {
            rest
        } else if rest == 0 || d < rest {
            d
        } else {
            rest
        }
    }
}

/// The cheapest certified lower bound on treewidth: the minimum degree over the
/// graph's non-isolated part (isolated vertices are components of their own).
pub fn min_degree_bound(graph: &UndirectedGraph) -> (r: usize)
    requires
        graph.nodes@.len() <= u32::MAX,
    ensures
        exists|index_to_node: Seq<u32>, map: Map<u32, u32>| {
            &&& is_dense_indexing(index_to_node, map, graph.nodes@)
            &&& r == least_positive_degree(
                #[trigger] dense_graph(graph.edges@, map, index_to_node.len() as int),
                index_to_node.len() as int,
            )
        },
{
    let (index_to_node, node_to_index, adj) = dense_adjacency(graph);
    let ghost h = sets_of(adj@);
    let mut best: usize = 0;
    let mut x: usize = 0;
    while x < adj.len()
        invariant
            x <= adj@.len(),
            h == sets_of(adj@),
            all_distinct(adj@),
            best == least_positive_degree(h, x as int),
        decreases adj@.len() - x,
    {
        let d = adj[x].len();
        proof {
            adj@[x as int]@.unique_seq_to_set();
        }
        if d > 0 && (best == 0 || d < best) {
            best = d;
        }
        x += 1;
    }
    proof {
        assert(dense_graph(graph.edges@, node_to_index@, index_to_node@.len() as int) == h);
    }
    best
}

/// Every entry true: the count is the length.
proof fn lemma_count_true_all(n: nat)
    ensures
        count_true(Seq::new(n, |v: int| true)) == n,
    decreases n,
{
    if n > 0 {
        lemma_count_true_all((n - 1) as nat);
        assert(Seq::new(n, |v: int| true).drop_last() =~= Seq::new((n - 1) as nat, |v: int| true));
    }
}

/// A simple graph on at most one vertex has no vertex with a neighbour.
proof fn lemma_tiny_has_no_degree(h: Seq<Set<u32>>)
    requires
        is_simple(h),
        h.len() <= 1,
    ensures
        least_positive_degree(h, h.len() as int) == 0,
{
    if h.len() == 1 {
        assert(h[0] =~= Set::<u32>::empty()) by {
            assert forall|y: u32| !h[0].contains(y) by {
                if h[0].contains(y) {
                    assert(y < h.len());
                }
            }
        }
        assert(least_positive_degree(h, 0) == 0);
    }
}

/// A list of distinct ids below `n` that misses `p < n` has at most `n - 1`
/// entries.
proof fn lemma_distinct_below(s: Seq<u32>, n: int, p: u32)
    requires
        s.no_duplicates(),
        forall|i: int| 0 <= i < s.len() ==> (#[trigger] s[i] as int) < n,
        !s.contains(p),
        (p as int) < n,
    ensures
        s.len() <= n - 1,
{
    let t = s.map_values(|y: u32| y as int);
    assert(t.no_duplicates()) by {
        assert forall|i: int, j: int| 0 <= i < t.len() && 0 <= j < t.len() && i != j implies t[i] != t[j] by {
            assert(s[i] != s[j]);
        }
    }
    t.unique_seq_to_set();
    let r = vstd::set_lib::set_int_range(0, n).remove(p as int);
    vstd::set_lib::lemma_int_range(0, n);
    assert(r.len() == n - 1);
    assert(t.to_set().subset_of(r)) by {
        assert forall|x: int| t.to_set().contains(x) implies r.contains(x) by {
            let i = choose|i: int| 0 <= i < t.len() && t[i] == x;
            assert(s[i] as int == x);
            if x == p as int {
                assert(s[i] == p);
            }
        }
    }
    vstd::set_lib::lemma_len_subset(t.to_set(), r);
}

/// The minor-min-width lower bound on treewidth: repeatedly record the least
/// degree over the vertices that still have a neighbour (isolated vertices
/// are dropped), then contract a vertex of that degree (the first) into the
/// neighbour it shares fewest neighbours with (the first among equals). The
/// contractions give minors of the graph, whose minimum degrees all bound its
/// treewidth from below; the result is the largest recorded, so it is never
/// below the minimum-degree bound.
pub fn treewidth_lower_bound(graph: &UndirectedGraph) -> (r: usize)
    requires
        graph.nodes@.len() <= u32::MAX,
    ensures
        exists|index_to_node: Seq<u32>, map: Map<u32, u32>| {
            &&& is_dense_indexing(index_to_node, map, graph.nodes@)
            &&& r >= least_positive_degree(
                #[trigger] dense_graph(graph.edges@, map, index_to_node.len() as int),
                index_to_node.len() as int,
            )
            &&& r as int <= if index_to_node.len() > 0 { index_to_node.len() - 1 } else { 0 }
        },
{
    let (index_to_node, node_to_index, mut adj) = dense_adjacency(graph);
    let ghost adj0 = adj@;
    let ghost h0 = sets_of(adj@);
    let n = adj.len();
    if n == 0 {
        return 0;
    }
    let mut alive: Vec<bool> = vec![true; n];
    let mut remaining: usize = n;
    let mut best: usize = 0;
    let ghost mut first = true;
    proof {
        lemma_count_true_all(n as nat);
        assert(alive@ =~= Seq::new(n as nat, |v: int| true));
        if n <= 1 {
            lemma_tiny_has_no_degree(h0);
        }
    }
    while remaining > 1
        invariant_except_break
            !first || remaining == n,
            first ==> adj@ == adj0 && forall|w: int| 0 <= w < n ==> #[trigger] alive@[w],
        invariant
            adj@.len() == n,
            n == adj0.len(),
            h0 == sets_of(adj0),
            is_simple(h0),
            all_distinct(adj0),
            all_distinct(adj@),
            forall|x: int, y: u32| 0 <= x < n && #[trigger] sets_of(adj@)[x].contains(y) ==> y < n,
            forall|x: int, y: u32| 0 <= x < n && #[trigger] sets_of(adj@)[x].contains(y) ==> y != x as u32,
            n <= u32::MAX,
            (best as int) < n,
            alive@.len() == n,
            remaining == count_true(alive@),
            first ==> adj@ == adj0,
            !first ==> best >= least_positive_degree(h0, n as int),
            n <= 1 ==> least_positive_degree(h0, n as int) == 0,
        ensures
            best >= least_positive_degree(h0, n as int),
            (best as int) < n,
        decreases remaining,
    {
        // The least degree over the non-isolated live vertices.
        let ghost r0 = remaining;
        let mut pick: usize = usize::MAX;
        let mut min_deg: usize = usize::MAX;
        let mut v: usize = 0;
        while v < n
            invariant
                adj@.len() == n,
                n == adj0.len(),
                h0 == sets_of(adj0),
                all_distinct(adj@),
                alive@.len() == n,
                remaining == count_true(alive@),
                v <= n,
                first ==> adj@ == adj0 && forall|w: int| v <= w < n ==> #[trigger] alive@[w],
                pick != usize::MAX ==> pick < v && alive@[pick as int] && adj@[pick as int]@.len() == min_deg && min_deg > 0,
                first ==> (pick == usize::MAX ==> least_positive_degree(h0, v as int) == 0),
                first ==> (pick != usize::MAX ==> min_deg == least_positive_degree(h0, v as int)),
                remaining <= r0,
            decreases n - v,
        {
            if alive[v] {
                let d = adj[v].len();
                proof {
                    adj@[v as int]@.unique_seq_to_set();
                }
                if d == 0 {
                    proof {
                        let s2 = alive@.update(v as int, false);
                        lemma_count_true_set(s2, v as int);
                        assert(s2.update(v as int, true) =~= alive@);
                    }
                    alive.set(v, false);
                    remaining = remaining - 1;
                } else if pick == usize::MAX || d < min_deg {
                    min_deg = d;
                    pick = v;
                }
            }
            v += 1;
        }
        if pick == usize::MAX {
            break;
        }
        proof {
            assert forall|i: int| 0 <= i < adj@[pick as int]@.len() implies (#[trigger] adj@[pick as int]@[i] as int) < n by {
                assert(adj@[pick as int]@.to_set().contains(adj@[pick as int]@[i]));
                assert(sets_of(adj@)[pick as int].contains(adj@[pick as int]@[i]));
            }
            if adj@[pick as int]@.contains(pick as u32) {
                assert(adj@[pick as int]@.to_set().contains(pick as u32));
                assert(sets_of(adj@)[pick as int].contains(pick as u32));
            }
            lemma_distinct_below(adj@[pick as int]@, n as int, pick as u32);
        }
        if min_deg > best {
            best = min_deg;
        }
        proof {
            first = false;
        }
        // Contract into the neighbour sharing the fewest neighbours.
        let nbrs = list_copy(&adj[pick]);
        proof {
            assert(nbrs@.len() > 0);
            assert forall|j: int| 0 <= j < nbrs@.len() implies #[trigger] nbrs@[j] < n by {
                assert(adj@[pick as int]@.to_set().contains(nbrs@[j]));
                assert(sets_of(adj@)[pick as int].contains(nbrs@[j]));
            }
        }
        let mut target: u32 = nbrs[0];
        let mut fewest: usize = usize::MAX;
        let mut j: usize = 0;
        while j < nbrs.len()
            invariant
                adj@.len() == n,
                pick < n,
                forall|q: int| 0 <= q < nbrs@.len() ==> #[trigger] nbrs@[q] < n,
                (target as int) < n,
            decreases nbrs@.len() - j,
        {
            let w = nbrs[j];
            let mut common: usize = 0;
            let mut q: usize = 0;
            while q < adj[w as usize].len()
                invariant
                    adj@.len() == n,
                    pick < n,
                    (w as int) < n,
                    common <= q,
                decreases adj@[w as int]@.len() - q,
            {
                if list_contains(&adj[pick], adj[w as usize][q]) {
                    common += 1;
                }
                q += 1;
            }
            if common < fewest {
                fewest = common;
                target = w;
            }
            j += 1;
        }
        // Merge `pick` into `target`.
        let mut j: usize = 0;
        while j < nbrs.len()
            invariant
                adj@.len() == n,
                n <= u32::MAX,
                all_distinct(adj@),
                forall|x: int, y: u32| 0 <= x < n && #[trigger] sets_of(adj@)[x].contains(y) ==> y < n,
                forall|x: int, y: u32| 0 <= x < n && #[trigger] sets_of(adj@)[x].contains(y) ==> y != x as u32,
                pick < n,
                (target as int) < n,
                forall|q: int| 0 <= q < nbrs@.len() ==> #[trigger] nbrs@[q] < n,
            decreases nbrs@.len() - j,
        {
            let x = nbrs[j];
            if x != target {
                let ghost b0 = adj@;
                list_remove(&mut adj[x as usize], pick as u32);
                let ghost b1 = adj@;
                list_insert(&mut adj[x as usize], target);
                let ghost b2 = adj@;
                list_insert(&mut adj[target as usize], x);
                proof {
                    assert forall|z: int, y: u32| 0 <= z < n && #[trigger] sets_of(adj@)[z].contains(y) implies y < n by {
                        if z == target as int {
                            if y != x {
                                assert(sets_of(b2)[z].contains(y));
                            }
                        } else {
                            assert(sets_of(adj@)[z] == sets_of(b2)[z]);
                        }
                        if sets_of(b2)[z].contains(y) {
                            if z == x as int {
                                if y != target {
                                    assert(sets_of(b1)[z].contains(y));
                                    assert(sets_of(b0)[z].contains(y));
                                }
                            } else {
                                assert(sets_of(b2)[z] == sets_of(b0)[z]);
                            }
                        }
                    }
                    assert forall|i: int| 0 <= i < n implies (#[trigger] adj@[i])@.no_duplicates() by {
                        if i != x as int && i != target as int {
                            assert(adj@[i] == b0[i]);
                        }
                    }
                    assert forall|z: int, y: u32| 0 <= z < n && #[trigger] sets_of(adj@)[z].contains(y) implies y != z as u32 by {
                        if z == target as int {
                            if y != x {
                                assert(sets_of(b2)[z].contains(y));
                                assert(sets_of(b1)[z].contains(y));
                                assert(sets_of(b0)[z].contains(y));
                            }
                        } else {
                            assert(sets_of(adj@)[z] == sets_of(b2)[z]);
                            if z == x as int {
                                if y != target {
                                    assert(sets_of(b1)[z].contains(y));
                                    assert(sets_of(b0)[z].contains(y));
                                }
                            } else {
                                assert(sets_of(b2)[z] == sets_of(b0)[z]);
                            }
                        }
                    }
                }
            }
            j += 1;
        }
        let ghost b0 = adj@;
        list_remove(&mut adj[target as usize], pick as u32);
        proof {
            assert forall|z: int, y: u32| 0 <= z < n && #[trigger] sets_of(adj@)[z].contains(y) implies y < n && y != z as u32 by {
                if z != target as int {
                    assert(sets_of(adj@)[z] == sets_of(b0)[z]);
                } else {
                    assert(sets_of(b0)[z].contains(y));
                }
            }
        }
        let ghost b1 = adj@;
        adj.set(pick, Vec::new());
        proof {
            assert forall|z: int, y: u32| 0 <= z < n && #[trigger] sets_of(adj@)[z].contains(y) implies y < n && y != z as u32 by {
                if z != pick as int {
                    assert(sets_of(adj@)[z] == sets_of(b1)[z]);
                }
            }
            let s2 = alive@.update(pick as int, false);
            lemma_count_true_set(s2, pick as int);
            assert(s2.update(pick as int, true) =~= alive@);
        }
        alive.set(pick, false);
        remaining = remaining - 1;
    }
    proof {
        assert(dense_graph(graph.edges@, node_to_index@, index_to_node@.len() as int) == h0);
    }
    best
}

/// Largest bag the partition encoding of the dynamic programme admits.
pub const MAX_BAG: usize = 15;

/// Bell numbers `B(0) .. B(16)`.
pub open spec fn bell(k: int) -> int {
    if k <= 0 { 1 } else if k == 1 { 1 } else if k == 2 { 2 } else if k == 3 { 5 } else if k == 4 { 15 }
    else if k == 5 { 52 } else if k == 6 { 203 } else if k == 7 { 877 } else if k == 8 { 4140 }
    else if k == 9 { 21147 } else if k == 10 { 115975 } else if k == 11 { 678570 } else if k == 12 { 4213597 }
    else if k == 13 { 27644437 } else if k == 14 { 190899322 } else if k == 15 { 1382958545 }
    else { 10480142147 }
}

fn bell_number(k: usize) -> (r: u64)
    ensures
        r == bell(k as int),
{
    if k == 0 { 1 } else if k == 1 { 1 } else if k == 2 { 2 } else if k == 3 { 5 } else if k == 4 { 15 }
    else if k == 5 { 52 } else if k == 6 { 203 } else if k == 7 { 877 } else if k == 8 { 4140 }
    else if k == 9 { 21147 } else if k == 10 { 115975 } else if k == 11 { 678570 } else if k == 12 { 4213597 }
    else if k == 13 { 27644437 } else if k == 14 { 190899322 } else if k == 15 { 1382958545 }
    else { 10480142147 }
}

/// `2^k`.
pub open spec fn pow2(k: nat) -> int
    decreases k,
{
    if k == 0 { 1 } else { 2 * pow2((k - 1) as nat) }
}

/// Binomial coefficients by Pascal's rule.
pub open spec fn binom(n: nat, k: nat) -> int
    decreases n,
{
    if k == 0 {
        1
    } else if n == 0 {
        0
    } else {
        binom((n - 1) as nat, (k - 1) as nat) + binom((n - 1) as nat, k)
    }
}

/// Representatives one class of a reduced table of used-set size `s` can hold:
/// the cut space has dimension `2^(s-1)`, and there are only `Bell(s)` partitions.
pub open spec fn class_bound(s: nat) -> int {
    if s == 0 {
        1
    } else {
        let b = bell(if s < 16 { s as int } else { 16 });
        let c = pow2((s - 1) as nat);
        if b < c { b } else { c }
    }
}

/// States a reduced table at a bag of `b` positions can hold: `sum_s C(b,s) class_bound(s)`.
pub open spec fn table_bound(b: nat, upto: nat) -> int
    decreases upto,
{
    if upto == 0 { 0 } else { table_bound(b, (upto - 1) as nat) + binom(b, (upto - 1) as nat) * class_bound((upto - 1) as nat) }
}

/// Pairs a join forms, summed over the classes of one bag: `sum_s C(b,s) class_bound(s)^2`.
pub open spec fn join_bound(b: nat, upto: nat) -> int
    decreases upto,
{
    if upto == 0 {
        0
    } else {
        join_bound(b, (upto - 1) as nat) + binom(b, (upto - 1) as nat) * class_bound((upto - 1) as nat) * class_bound(
            (upto - 1) as nat,
        )
    }
}

proof fn lemma_pow2_bounds(k: nat)
    ensures
        1 <= pow2(k),
        k <= 14 ==> pow2(k) <= 16384,
    decreases k,
{
    if k > 0 {
        lemma_pow2_bounds((k - 1) as nat);
    }
    if k <= 14 {
        lemma_pow2_mono(k, 14);
        reveal_with_fuel(pow2, 15);
    }
}

proof fn lemma_pow2_mono(k: nat, m: nat)
    requires
        k <= m,
    ensures
        pow2(k) <= pow2(m),
    decreases m,
{
    if k < m {
        lemma_pow2_mono(k, (m - 1) as nat);
        lemma_pow2_pos((m - 1) as nat);
    }
}

proof fn lemma_pow2_pos(k: nat)
    ensures
        1 <= pow2(k),
    decreases k,
{
    if k > 0 {
        lemma_pow2_pos((k - 1) as nat);
    }
}

proof fn lemma_binom_bound(n: nat, k: nat)
    ensures
        0 <= binom(n, k) <= pow2(n),
    decreases n,
{
    if k == 0 {
        lemma_pow2_bounds(n);
    } else if n > 0 {
        lemma_binom_bound((n - 1) as nat, (k - 1) as nat);
        lemma_binom_bound((n - 1) as nat, k);
    }
}

/// Row `n` of Pascal's triangle, `C(n, 0..=n)`.
fn binom_row(n: usize) -> (row: Vec<u64>)
    requires
        n <= MAX_BAG,
    ensures
        row@.len() == n + 1,
        forall|k: int| 0 <= k <= n ==> #[trigger] row@[k] == binom(n as nat, k as nat),
    decreases n,
{
    if n == 0 {
        let mut row: Vec<u64> = Vec::new();
        row.push(1);
        return row;
    }
    let prev = binom_row(n - 1);
    let mut row: Vec<u64> = Vec::new();
    row.push(1);
    let mut k: usize = 1;
    while k < n
        invariant
            1 <= k <= n,
            n <= MAX_BAG,
            prev@.len() == n,
            forall|j: int| 0 <= j <= n - 1 ==> #[trigger] prev@[j] == binom((n - 1) as nat, j as nat),
            row@.len() == k,
            forall|j: int| 0 <= j < k ==> #[trigger] row@[j] == binom(n as nat, j as nat),
        decreases n - k,
    {
        proof {
            lemma_binom_bound((n - 1) as nat, (k - 1) as nat);
            lemma_binom_bound((n - 1) as nat, k as nat);
            lemma_pow2_bounds((n - 1) as nat);
        }
        row.push(prev[k - 1] + prev[k]);
        k += 1;
    }
    proof {
        assert(binom((n - 1) as nat, n as nat) == 0) by {
            lemma_binom_zero((n - 1) as nat, n as nat);
        }
    }
    row.push(1);
    proof {
        lemma_binom_diag(n as nat);
    }
    row
}

proof fn lemma_binom_zero(n: nat, k: nat)
    requires
        k > n,
    ensures
        binom(n, k) == 0,
    decreases n,
{
    if n > 0 {
        lemma_binom_zero((n - 1) as nat, (k - 1) as nat);
        lemma_binom_zero((n - 1) as nat, k);
    }
}

proof fn lemma_binom_diag(n: nat)
    ensures
        binom(n, n) == 1,
    decreases n,
{
    if n > 0 {
        lemma_binom_diag((n - 1) as nat);
        lemma_binom_zero((n - 1) as nat, n);
    }
}

fn class_bound_exec(s: usize) -> (r: u64)
    requires
        s <= MAX_BAG,
    ensures
        r == class_bound(s as nat),
        1 <= r <= 16384,
{
    if s == 0 {
        return 1;
    }
    let b = bell_number(s);
    let mut c: u64 = 1;
    let mut k: usize = 0;
    while k < s - 1
        invariant
            k <= s - 1,
            s <= MAX_BAG,
            c == pow2(k as nat),
        decreases s - 1 - k,
    {
        proof {
            lemma_pow2_bounds(k as nat);
        }
        c = c * 2;
        k += 1;
    }
    proof {
        lemma_pow2_bounds((s - 1) as nat);
    }
    if b < c { b } else { c }
}

/// `(table_bound(b), join_bound(b))` for a bag of `b <= MAX_BAG` positions.
fn bag_bounds(b: usize) -> (r: (u128, u128))
    requires
        b <= MAX_BAG,
    ensures
        r.0 == table_bound(b as nat, (b + 1) as nat),
        r.1 == join_bound(b as nat, (b + 1) as nat),
        r.0 <= 0x1000000000,
        r.1 <= 0x1000000000000,
{
    let row = binom_row(b);
    let mut t: u128 = 0;
    let mut j: u128 = 0;
    let mut s: usize = 0;
    while s <= b
        invariant
            b <= MAX_BAG,
            s <= b + 1,
            row@.len() == b + 1,
            forall|k: int| 0 <= k <= b ==> #[trigger] row@[k] == binom(b as nat, k as nat),
            t == table_bound(b as nat, s as nat),
            j == join_bound(b as nat, s as nat),
            t <= s * 0x20000000,
            j <= s * 0x80000000000,
        decreases b + 1 - s,
    {
        let c = class_bound_exec(s) as u128;
        let bn = row[s] as u128;
        proof {
            lemma_binom_bound(b as nat, s as nat);
            lemma_pow2_bounds(b as nat);
            assert(pow2(b as nat) <= 32768) by {
                lemma_pow2_15(b as nat);
            }
            assert(bn * c <= 0x20000000) by (nonlinear_arith)
                requires bn <= 32768, c <= 16384;
            assert(bn * c * c <= 0x80000000000) by (nonlinear_arith)
                requires bn <= 32768, c <= 16384;
        }
        t = t + bn * c;
        j = j + bn * c * c;
        s += 1;
    }
    (t, j)
}

proof fn lemma_pow2_15(k: nat)
    requires
        k <= 15,
    ensures
        pow2(k) <= 32768,
    decreases k,
{
    lemma_pow2_mono(k, 15);
    reveal_with_fuel(pow2, 16);
}

/// Effective bag size for the work estimate: `min(len + extra, MAX_BAG)`.
pub open spec fn capped(len: int, extra: int) -> int {
    if len + extra < MAX_BAG { len + extra } else { MAX_BAG as int }
}

/// Work of the bags `0..upto` of a decomposition, in table entries touched.
pub open spec fn bags_work(bags: Seq<Seq<u32>>, children: Seq<Seq<usize>>, extra: int, upto: int) -> int
    decreases upto,
{
    if upto <= 0 {
        0
    } else {
        let i = upto - 1;
        let b = capped(bags[i].len() as int, extra) as nat;
        let joins = if children[i].len() > 0 { children[i].len() - 1 } else { 0 };
        bags_work(bags, children, extra, i) + (b + 1) * table_bound(b, b + 1) + joins * join_bound(b, b + 1)
    }
}

/// An upper bound on the work the dynamic programme does on `td`, in units of
/// one table entry touched: one sweep per introduce or forget node and per
/// join, plus the edges charged at the widest bag.
pub open spec fn work_spec(td: &TreeDecomposition, num_edges: int, extra: int) -> int {
    let bags = td.bag_seqs();
    let children = Seq::new(td.children@.len(), |i: int| td.children@[i]@);
    let widest = capped(max_bag_len(bags, bags.len() as int), extra) as nat;
    bags_work(bags, children, extra, bags.len() as int) + num_edges * table_bound(widest, widest + 1)
}

/// Length of the longest of the first `upto` bags, 0 when there are none.
pub open spec fn max_bag_len(bags: Seq<Seq<u32>>, upto: int) -> int
    decreases upto,
{
    if upto <= 0 {
        0
    } else {
        let rest = max_bag_len(bags, upto - 1);
        if bags[upto - 1].len() > rest { bags[upto - 1].len() as int } else { rest }
    }
}

/// An upper bound on the work the dynamic programme will do on `td`.
///
/// The estimate is what the portfolio compares: two decompositions of the same
/// width can differ by a large factor in it. `extra` is the number of vertices
/// added to every bag before the run (one, for the root terminal).
pub fn work_estimate(td: &TreeDecomposition, num_edges: usize, extra: usize) -> (work: u128)
    requires
        td.children@.len() == td.bags@.len(),
        td.bags@.len() <= u32::MAX,
        forall|i: int| 0 <= i < td.children@.len() ==> (#[trigger] td.children@[i])@.len() <= td.bags@.len(),
    ensures
        work == work_spec(td, num_edges as int, extra as int),
{
    let ghost bags = td.bag_seqs();
    let ghost children = Seq::new(td.children@.len(), |i: int| td.children@[i]@);
    let mut work: u128 = 0;
    let mut widest: usize = 0;
    let mut i: usize = 0;
    while i < td.bags.len()
        invariant
            bags == td.bag_seqs(),
            children == Seq::new(td.children@.len(), |i: int| td.children@[i]@),
            td.children@.len() == td.bags@.len(),
            td.bags@.len() <= u32::MAX,
            forall|i: int| 0 <= i < td.children@.len() ==> (#[trigger] td.children@[i])@.len() <= td.bags@.len(),
            i <= td.bags@.len(),
            work == bags_work(bags, children, extra as int, i as int),
            work <= i * 0x1000000000000000000000,
            widest == max_bag_len(bags, i as int),
        decreases td.bags@.len() - i,
    {
        let len = td.bags[i].len();
        let b: usize = if len < MAX_BAG && extra < MAX_BAG - len { len + extra } else { MAX_BAG };
        let (tb, jb) = bag_bounds(b);
        let nch = td.children[i].len();
        let joins: u128 = if nch > 0 { (nch - 1) as u128 } else { 0 };
        proof {
            assert(td.bags@[i as int]@.len() == len);
            assert(children[i as int].len() == nch);
            assert((b + 1) * tb <= 16 * 0x1000000000) by (nonlinear_arith)
                requires b + 1 <= 16, tb <= 0x1000000000;
            assert(joins <= 0x100000000);
            assert(joins * jb <= 0x100000000 * 0x1000000000000) by (nonlinear_arith)
                requires joins <= 0x100000000, jb <= 0x1000000000000;
        }
        work = work + (b as u128 + 1) * tb + joins * jb;
        if len > widest {
            widest = len;
        }
        i += 1;
    }
    let b: usize = if widest < MAX_BAG && extra < MAX_BAG - widest { widest + extra } else { MAX_BAG };
    let (tb, _) = bag_bounds(b);
    proof {
        assert(num_edges * tb <= 0x10000000000000000 * 0x1000000000) by (nonlinear_arith)
            requires num_edges <= 0x10000000000000000, tb <= 0x1000000000;
        assert(i * 0x1000000000000000000000 <= 0x100000000 * 0x1000000000000000000000) by (nonlinear_arith)
            requires i <= 0x100000000;
    }
    work + num_edges as u128 * tb
}


proof fn lemma_indices_len(parent: Seq<usize>, p: usize, upto: int)
    requires
        0 <= upto,
    ensures
        indices_with_parent(parent, p, upto).len() <= upto,
    decreases upto,
{
    if upto > 0 {
        lemma_indices_len(parent, p, upto - 1);
    }
}

/// The portfolio run of [`decompose_portfolio`], with the candidate
/// decompositions it produced (one per ordering that stayed within the
/// width cap), in the order tried.
fn portfolio_runs(
    graph: &UndirectedGraph,
    max_width: usize,
    deadline: Option<Instant>,
    orderings: &[EliminationOrdering],
) -> (r: (Option<(TreeDecomposition, u128)>, Ghost<Seq<(TreeDecomposition, u128)>>))
    requires
        graph.nodes@.len() < 0x100000,
    ensures
        r.1@.len() <= orderings@.len(),
        forall|i: int| 0 <= i < r.1@.len() ==> {
            &&& is_game_decomposition(&(#[trigger] r.1@[i]).0, graph, max_width)
            &&& r.1@[i].1 == work_spec(&r.1@[i].0, graph.edges@.len() as int, 1)
        },
        least_work(r.1@, r.0),
        r.0 is None ==> orderings@.len() == 0 || node_ids(graph.nodes@).is_empty() || deadline is Some
            || wide_bag_exists(graph, max_width),
{
    let mut best: Option<(TreeDecomposition, u128)> = None;
    let ghost mut runs: Seq<(TreeDecomposition, u128)> = Seq::empty();
    let mut certified_min: Option<usize> = None;
    let mut k: usize = 0;
    while k < orderings.len()
        invariant_except_break
            runs.len() <= k,
        invariant
            graph.nodes@.len() < 0x100000,
            k <= orderings@.len(),
            runs.len() <= orderings@.len(),
            forall|i: int| 0 <= i < runs.len() ==> {
                &&& is_game_decomposition(&(#[trigger] runs[i]).0, graph, max_width)
                &&& runs[i].1 == work_spec(&runs[i].0, graph.edges@.len() as int, 1)
            },
            least_work(runs, best),
            best matches Some(b) ==> {
                &&& is_game_decomposition(&b.0, graph, max_width)
                &&& b.1 == work_spec(&b.0, graph.edges@.len() as int, 1)
            },
            best is None ==> k == 0 || node_ids(graph.nodes@).is_empty() || deadline is Some || wide_bag_exists(graph, max_width),
        ensures
            best matches Some(b) ==> {
                &&& is_game_decomposition(&b.0, graph, max_width)
                &&& b.1 == work_spec(&b.0, graph.edges@.len() as int, 1)
            },
            best is None ==> orderings@.len() == 0 || node_ids(graph.nodes@).is_empty() || deadline is Some
                || wide_bag_exists(graph, max_width),
            runs.len() <= orderings@.len(),
            forall|i: int| 0 <= i < runs.len() ==> {
                &&& is_game_decomposition(&(#[trigger] runs[i]).0, graph, max_width)
                &&& runs[i].1 == work_spec(&runs[i].0, graph.edges@.len() as int, 1)
            },
            least_work(runs, best),
        decreases orderings@.len() - k,
    {
        let order = orderings[k];
        let last = k + 1 == orderings.len();
        let td = match decompose_with(graph, order, max_width, deadline) {
            Some(td) => td,
            None => {
                if passed(&deadline) {
                    break;
                }
                k += 1;
                continue;
            },
        };
        proof {
            let n = td.index_to_node@.len() as int;
            assert(n <= graph.nodes@.len()) by {
                td.index_to_node@.unique_seq_to_set();
                lemma_sorted_distinct(td.index_to_node@);
                let ids = graph.nodes@.map_values(|nd: Node| nd.id);
                assert(node_ids(graph.nodes@).subset_of(ids.to_set())) by {
                    assert forall|v: u32| node_ids(graph.nodes@).contains(v) implies ids.to_set().contains(v) by {
                        let j = choose|j: int| 0 <= j < graph.nodes@.len() && (#[trigger] graph.nodes@[j]).id == v;
                        assert(ids[j] == v);
                    }
                }
                ids.lemma_cardinality_of_set();
                vstd::set_lib::lemma_len_subset(node_ids(graph.nodes@), ids.to_set());
            }
            assert forall|i: int| 0 <= i < td.children@.len() implies (#[trigger] td.children@[i])@.len() <= td.bags@.len() by {
                lemma_indices_len(td.parent@, i as usize, n);
            }
        }
        let work = work_estimate(&td, graph.edges.len(), 1);
        let width = td.width;
        let better = match &best {
            None => true,
            Some(b) => work < b.1 || (work == b.1 && width < b.0.width),
        };
        let ghost old_runs = runs;
        let ghost old_best = best;
        proof {
            runs = runs.push((td, work));
        }
        if better {
            best = Some((td, work));
        }
        proof {
            lemma_least_work_push(old_runs, old_best, (td, work), best);
        }
        if last {
            break;
        }
        let lb = match certified_min {
            Some(lb) => lb,
            None => {
                let lb = min_degree_bound(graph);
                certified_min = Some(lb);
                lb
            },
        };
        let stop = match &best {
            Some(b) => b.0.width <= lb,
            None => false,
        };
        if stop {
            break;
        }
        if passed(&deadline) {
            break;
        }
        k += 1;
    }
    (best, Ghost(runs))
}

/// `r` is the candidate of least work in `runs`, width breaking ties, the
/// first among equals; `None` only when there is no candidate.
pub open spec fn least_work(runs: Seq<(TreeDecomposition, u128)>, r: Option<(TreeDecomposition, u128)>) -> bool {
    &&& r is None <==> runs.len() == 0
    &&& r matches Some(b) ==> exists|j: int| 0 <= j < runs.len() && #[trigger] runs[j] == b
        && (forall|i: int| 0 <= i < runs.len() ==> b.1 < (#[trigger] runs[i]).1 || (b.1 == runs[i].1 && b.0.width <= runs[i].0.width))
        && (forall|i: int| 0 <= i < j ==> b.1 < (#[trigger] runs[i]).1 || (b.1 == runs[i].1 && b.0.width < runs[i].0.width))
}

/// The kept decomposition has no more work than any candidate, and the
/// least width among the candidates of that work.
pub proof fn lemma_least_work_bounds(runs: Seq<(TreeDecomposition, u128)>, r: Option<(TreeDecomposition, u128)>, i: int)
    requires
        least_work(runs, r),
        0 <= i < runs.len(),
    ensures
        r is Some,
        r->Some_0.1 <= runs[i].1,
        r->Some_0.1 == runs[i].1 ==> r->Some_0.0.width <= runs[i].0.width,
{
}

/// Adding a candidate keeps the least: it replaces the kept one only when
/// it has less work, or as much and a smaller width.
proof fn lemma_least_work_push(runs: Seq<(TreeDecomposition, u128)>, b0: Option<(TreeDecomposition, u128)>, x: (TreeDecomposition, u128), b1: Option<(TreeDecomposition, u128)>)
    requires
        least_work(runs, b0),
        b1 == (if (match b0 { None => true, Some(b) => x.1 < b.1 || (x.1 == b.1 && x.0.width < b.0.width) }) { Some(x) } else { b0 }),
    ensures
        least_work(runs.push(x), b1),
{
    let rs = runs.push(x);
    let n = runs.len() as int;
    assert(rs[n] == x);
    assert forall|i: int| 0 <= i < n implies #[trigger] rs[i] == runs[i] by {}
    if b1 == Some(x) && (b0 is None || x.1 < b0->Some_0.1 || (x.1 == b0->Some_0.1 && x.0.width < b0->Some_0.0.width)) {
        assert forall|i: int| 0 <= i < rs.len() implies x.1 < (#[trigger] rs[i]).1 || (x.1 == rs[i].1 && x.0.width <= rs[i].0.width) by {
            if i < n {
                assert(rs[i] == runs[i]);
                let b = b0->Some_0;
                let j0 = choose|j0: int| 0 <= j0 < runs.len() && #[trigger] runs[j0] == b
                    && (forall|i2: int| 0 <= i2 < runs.len() ==> b.1 < (#[trigger] runs[i2]).1 || (b.1 == runs[i2].1 && b.0.width <= runs[i2].0.width))
                    && (forall|i2: int| 0 <= i2 < j0 ==> b.1 < (#[trigger] runs[i2]).1 || (b.1 == runs[i2].1 && b.0.width < runs[i2].0.width));
                assert(b.1 < runs[i].1 || (b.1 == runs[i].1 && b.0.width <= runs[i].0.width));
            }
        }
        assert forall|i: int| 0 <= i < n implies x.1 < (#[trigger] rs[i]).1 || (x.1 == rs[i].1 && x.0.width < rs[i].0.width) by {
            assert(rs[i] == runs[i]);
            let b = b0->Some_0;
            let j0 = choose|j0: int| 0 <= j0 < runs.len() && #[trigger] runs[j0] == b
                && (forall|i2: int| 0 <= i2 < runs.len() ==> b.1 < (#[trigger] runs[i2]).1 || (b.1 == runs[i2].1 && b.0.width <= runs[i2].0.width))
                && (forall|i2: int| 0 <= i2 < j0 ==> b.1 < (#[trigger] runs[i2]).1 || (b.1 == runs[i2].1 && b.0.width < runs[i2].0.width));
            assert(b.1 < runs[i].1 || (b.1 == runs[i].1 && b.0.width <= runs[i].0.width));
        }
        assert(rs[n] == x);
    } else {
        let b = b0->Some_0;
        assert(b1 == b0);
        let j0 = choose|j0: int| 0 <= j0 < runs.len() && #[trigger] runs[j0] == b
            && (forall|i2: int| 0 <= i2 < runs.len() ==> b.1 < (#[trigger] runs[i2]).1 || (b.1 == runs[i2].1 && b.0.width <= runs[i2].0.width))
            && (forall|i2: int| 0 <= i2 < j0 ==> b.1 < (#[trigger] runs[i2]).1 || (b.1 == runs[i2].1 && b.0.width < runs[i2].0.width));
        assert(rs[j0] == b);
        assert forall|i: int| 0 <= i < rs.len() implies b.1 < (#[trigger] rs[i]).1 || (b.1 == rs[i].1 && b.0.width <= rs[i].0.width) by {
            if i < n {
                assert(rs[i] == runs[i]);
            }
        }
        assert forall|i: int| 0 <= i < j0 implies b.1 < (#[trigger] rs[i]).1 || (b.1 == rs[i].1 && b.0.width < rs[i].0.width) by {
            assert(rs[i] == runs[i]);
        }
    }
}

/// [`decompose`] over a chosen subset of the portfolio, also returning the work
/// the winner implies. The winner has the least work, width breaking ties,
/// among the orderings tried (the first among equals); the portfolio stops
/// early once a candidate's width equals the minimum degree (a certified
/// minimum width), or when the deadline has passed.
pub fn decompose_portfolio(
    graph: &UndirectedGraph,
    max_width: usize,
    deadline: Option<Instant>,
    orderings: &[EliminationOrdering],
) -> (r: Option<(TreeDecomposition, u128)>)
    requires
        graph.nodes@.len() < 0x100000,
    ensures
        r matches Some(best) ==> {
            &&& is_game_decomposition(&best.0, graph, max_width)
            &&& best.1 == work_spec(&best.0, graph.edges@.len() as int, 1)
        },
        r is None ==> orderings@.len() == 0 || node_ids(graph.nodes@).is_empty() || deadline is Some
            || wide_bag_exists(graph, max_width),
        exists|runs: Seq<(TreeDecomposition, u128)>| {
            &&& runs.len() <= orderings@.len()
            &&& forall|i: int| 0 <= i < runs.len() ==> {
                &&& is_game_decomposition(&(#[trigger] runs[i]).0, graph, max_width)
                &&& runs[i].1 == work_spec(&runs[i].0, graph.edges@.len() as int, 1)
            }
            &&& #[trigger] least_work(runs, r)
        },
{
    let (best, Ghost(runs)) = portfolio_runs(graph, max_width, deadline, orderings);
    proof {
        assert(least_work(runs, best));
    }
    best
}

/// Build a tree decomposition, taking the one the dynamic programme will find
/// cheapest over the whole portfolio. `None` means every ordering hit the width
/// cap, the deadline passed, or the graph has no vertex.
pub fn decompose(graph: &UndirectedGraph, max_width: usize, deadline: Option<Instant>) -> (r: Option<TreeDecomposition>)
    requires
        graph.nodes@.len() < 0x100000,
    ensures
        r matches Some(td) ==> is_game_decomposition(&td, graph, max_width),
        r is None ==> node_ids(graph.nodes@).is_empty() || deadline is Some || wide_bag_exists(graph, max_width),
{
    let all = orderings();
    match decompose_portfolio(graph, max_width, deadline, &all) {
        Some((td, _)) => Some(td),
        None => None,
    }
}

} // verus!
