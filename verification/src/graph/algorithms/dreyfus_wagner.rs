//! The Dreyfus–Wagner dynamic programme for the Steiner tree problem.
//!
//! For every subset `S` of the terminals and every vertex `v`, `dp[S][v]` is
//! the cost of a cheapest tree that spans `S ∪ {v}`: a singleton's value is a
//! shortest-path distance, and a larger set's value splits `S` at some vertex
//! `u` into two nonempty parts and joins `u` to `v` by a shortest path.
//! Shortest paths run over the edge-doubling of the graph; costs add with
//! saturation at `u64::MAX`.
use vstd::prelude::*;
use crate::graph::types::{NodeId, EdgeId, Cost, Arc, Edge};
use crate::graph::undirected::{UndirectedGraph, incidence, lemma_incidence_sound};
use crate::graph::directed::{DirectedGraph, is_doubling, doubled_pair};
use crate::graph::algorithms::dijkstra::{
    ShortestPathResult, shortest_paths_from, is_distance, reachable, path_cost, is_path,
};

verus! {

/// The cheapest cost found, and the edges `(u, v, cost)` recorded while
/// walking back the shortest-path extensions that produced it.
pub struct DreyfusWagnerResult {
    pub optimal_cost: Cost,
    pub tree_edges: Vec<(NodeId, NodeId, Cost)>,
}

/// Arc `i` of the edge-doubling of `edges`: edge `i / 2` read forwards for
/// even `i` and backwards for odd `i`.
pub open spec fn doubled_arc(edges: Seq<Edge>, i: int) -> Arc {
    let e = edges[i / 2];
    if i % 2 == 0 {
        Arc { id: i as u32, tail: e.src, head: e.dst, cost: e.cost }
    } else {
        Arc { id: i as u32, tail: e.dst, head: e.src, cost: e.cost }
    }
}

/// The edge-doubling of `edges` as an arc list.
pub open spec fn doubled_arcs(edges: Seq<Edge>) -> Seq<Arc> {
    Seq::new(2 * edges.len(), |i: int| doubled_arc(edges, i))
}

/// The cost of every arc, in arc order.
pub open spec fn arc_costs(arcs: Seq<Arc>) -> Seq<u64> {
    Seq::new(arcs.len(), |i: int| arcs[i].cost)
}

/// The least cost of a path from `s` to `v` along the edges, or `None` when
/// there is none. Vertex 0 is no vertex of a one-based instance: nothing is
/// reached from it.
pub open spec fn edge_distance(edges: Seq<Edge>, s: int, v: int) -> Option<u64> {
    let arcs = doubled_arcs(edges);
    if s >= 1 && reachable(arcs, s, v) {
        Some((choose|d: int| is_distance(arcs, arc_costs(arcs), s, v, d)) as u64)
    } else {
        None
    }
}

/// A shortest-path distance is unique.
proof fn lemma_distance_unique(arcs: Seq<Arc>, costs: Seq<u64>, s: int, v: int, d1: int, d2: int)
    requires
        is_distance(arcs, costs, s, v, d1),
        is_distance(arcs, costs, s, v, d2),
    ensures
        d1 == d2,
{
    let p1 = choose|p: Seq<crate::graph::types::ArcId>| is_path(arcs, s, v, p) && path_cost(costs, p) == d1;
    let p2 = choose|p: Seq<crate::graph::types::ArcId>| is_path(arcs, s, v, p) && path_cost(costs, p) == d2;
    assert(path_cost(costs, p1) >= d2);
    assert(path_cost(costs, p2) >= d1);
}

/// The arcs of a well-formed doubling are exactly the doubled edges.
proof fn lemma_doubling_arcs(graph: &UndirectedGraph, dg: &DirectedGraph)
    requires
        dg.wf(),
        is_doubling(graph, dg),
    ensures
        dg.arcs@ == doubled_arcs(graph.edges@),
{
    let edges = graph.edges@;
    assert forall|i: int| 0 <= i < dg.arcs@.len() implies dg.arcs@[i] == #[trigger] doubled_arc(edges, i) by {
        let j = i / 2;
        assert(doubled_pair(edges[j], dg.arcs@, j));
        assert(dg.arcs@[i].id == i);
    }
    assert(dg.arcs@ =~= doubled_arcs(edges));
}

/// The cost of the first incidence `(w, e)` in `inc` with `w == v`.
pub open spec fn first_edge_cost(edges: Seq<Edge>, inc: Seq<(NodeId, EdgeId)>, v: int) -> Option<u64>
    decreases inc.len(),
{
    if inc.len() == 0 {
        None
    } else if inc[0].0 == v {
        Some(edges[inc[0].1 as int].cost)
    } else {
        first_edge_cost(edges, inc.drop_first(), v)
    }
}

/// The cost of the first edge listed at `u` whose other end is `v`, or
/// `None` when `u` and `v` are not adjacent.
fn find_edge_cost(graph: &UndirectedGraph, u: NodeId, v: NodeId) -> (r: Option<Cost>)
    requires
        graph.wf(),
    ensures
        r == first_edge_cost(graph.edges@, incidence(graph.edges@, u as int), v as int),
{
    let nb = graph.neighbors(u);
    let ghost inc = nb@;
    let mut k: usize = 0;
    proof {
        assert(inc.skip(0) =~= inc);
    }
    while k < nb.len()
        invariant
            graph.wf(),
            nb@ == inc,
            inc == incidence(graph.edges@, u as int),
            k <= inc.len(),
            first_edge_cost(graph.edges@, inc.skip(k as int), v as int)
                == first_edge_cost(graph.edges@, inc, v as int),
        decreases inc.len() - k,
    {
        let (w, eid) = nb[k];
        proof {
            lemma_incidence_sound(graph.edges@, u as int, k as int);
            assert(inc.skip(k as int)[0] == inc[k as int]);
            assert(inc.skip(k as int).drop_first() =~= inc.skip(k + 1));
        }
        if w == v {
            return Some(graph.edges[eid as usize].cost);
        }
        k += 1;
    }
    proof {
        assert(inc.skip(k as int).len() == 0);
    }
    None
}

/// `apd[s]` holds the shortest paths from `s` for every vertex `s` in
/// `1..n`, over the doubling of `edges`.
pub open spec fn all_pairs_ok(apd: Seq<ShortestPathResult>, edges: Seq<Edge>, n: int) -> bool {
    &&& apd.len() == n
    &&& forall|s: int| 1 <= s < n ==> {
        &&& (#[trigger] apd[s]).wf()
        &&& apd[s].arcs() == doubled_arcs(edges)
        &&& apd[s].costs() == arc_costs(doubled_arcs(edges))
        &&& apd[s].source() == s
        &&& apd[s].distances@.len() >= n
        &&& forall|v: int| 0 <= v < n ==> apd[s].distances@[v] == #[trigger] edge_distance(edges, s, v)
    }
}

/// Shortest paths from every vertex in `0..n` of the doubling `dg` of `graph`.
fn all_pairs_dijkstra(graph: &UndirectedGraph, dg: &DirectedGraph, costs: &[Cost], n: usize) -> (r: Vec<ShortestPathResult>)
    requires
        dg.wf(),
        is_doubling(graph, dg),
        costs@ == arc_costs(dg.arcs@),
        1 <= n <= dg.slots(),
    ensures
        all_pairs_ok(r@, graph.edges@, n as int),
{
    proof {
        lemma_doubling_arcs(graph, dg);
    }
    let ghost edges = graph.edges@;
    let ghost arcs = dg.arcs@;
    let mut out: Vec<ShortestPathResult> = Vec::new();
    let mut source: usize = 0;
    while source < n
        invariant
            dg.wf(),
            arcs == dg.arcs@,
            arcs == doubled_arcs(edges),
            costs@ == arc_costs(arcs),
            n <= dg.slots(),
            source <= n,
            out@.len() == source,
            forall|s: int| 1 <= s < source ==> {
                &&& (#[trigger] out@[s]).wf()
                &&& out@[s].arcs() == doubled_arcs(edges)
                &&& out@[s].costs() == arc_costs(doubled_arcs(edges))
                &&& out@[s].source() == s
                &&& out@[s].distances@.len() >= n
                &&& forall|v: int| 0 <= v < n ==> out@[s].distances@[v] == #[trigger] edge_distance(edges, s, v)
            },
        decreases n - source,
    {
        let r = shortest_paths_from(dg, source as NodeId, costs);
        proof {
            if source >= 1 {
                assert forall|v: int| 0 <= v < n implies r.distances@[v] == #[trigger] edge_distance(edges, source as int, v) by {
                    match r.distances@[v] {
                        Some(d) => {
                            let c = choose|d: int| is_distance(arcs, arc_costs(arcs), source as int, v, d);
                            lemma_distance_unique(arcs, arc_costs(arcs), source as int, v, c, d as int);
                            let p = choose|p: Seq<crate::graph::types::ArcId>| is_path(arcs, source as int, v, p) && path_cost(arc_costs(arcs), p) == d;
                            assert(reachable(arcs, source as int, v));
                        },
                        None => {},
                    }
                }
            }
        }
        out.push(r);
        source += 1;
    }
    out
}

/// `a + b`, saturating at `u64::MAX`; `None` stands for an infinite cost.
pub open spec fn sat_add(a: Option<u64>, b: Option<u64>) -> Option<u64> {
    match (a, b) {
        (Some(x), Some(y)) => Some(if x + y > u64::MAX { u64::MAX } else { (x + y) as u64 }),
        _ => None,
    }
}

/// The smaller of two costs, `None` being infinite.
pub open spec fn omin(a: Option<u64>, b: Option<u64>) -> Option<u64> {
    match (a, b) {
        (None, _) => b,
        (_, None) => a,
        (Some(x), Some(y)) => if y < x { b } else { a },
    }
}

proof fn lemma_omin_assoc(a: Option<u64>, b: Option<u64>, c: Option<u64>)
    ensures
        omin(omin(a, b), c) == omin(a, omin(b, c)),
        omin(a, b) == omin(b, a),
        omin(a, None) == a,
{
}

fn sat_add_exec(a: Option<Cost>, b: Option<Cost>) -> (r: Option<Cost>)
    ensures
        r == sat_add(a, b),
{
    match (a, b) {
        (Some(x), Some(y)) => Some(x.saturating_add(y)),
        _ => None,
    }
}

/// Whether `cand` is strictly cheaper than `cur`.
fn improves(cand: Option<Cost>, cur: Option<Cost>) -> (r: bool)
    ensures
        omin(cur, cand) == if r { cand } else { cur },
{
    match (cur, cand) {
        (None, Some(_)) => true,
        (Some(x), Some(y)) => y < x,
        _ => false,
    }
}

/// A mask with exactly one bit set.
pub open spec fn is_singleton(s: u32) -> bool {
    s != 0 && s & ((s - 1) as u32) == 0
}

/// The first position `i >= from` of `t` whose bit is the mask `s`.
pub open spec fn bit_terminal(t: Seq<NodeId>, s: u32, from: int) -> Option<int>
    decreases t.len() - from,
{
    if from < 0 || from >= t.len() || from >= 32 {
        None
    } else if s == 1u32 << (from as u32) {
        Some(from)
    } else {
        bit_terminal(t, s, from + 1)
    }
}

/// The first proper nonempty submask of `s` in the enumeration
/// `s - 1, ..., 1` restricted to submasks.
pub open spec fn first_submask(s: u32) -> u32 {
    (((s - 1) as u32) & s) as u32
}

/// The submask visited after `sub` while enumerating the submasks of `s`.
pub open spec fn next_submask(s: u32, sub: u32) -> u32 {
    (((sub - 1) as u32) & s) as u32
}

/// `dp[S][v]` for the terminals `t` and vertices `1..n`: the Dreyfus–Wagner
/// value of the mask `s` at `v`.
pub open spec fn dw_value(edges: Seq<Edge>, t: Seq<NodeId>, n: int, s: u32, v: int) -> Option<u64>
    decreases s, 2int, 0int,
{
    if s == 0 {
        None
    } else if is_singleton(s) {
        match bit_terminal(t, s, 0) {
            Some(i) => if v == t[i] { Some(0u64) } else { edge_distance(edges, t[i] as int, v) },
            None => None,
        }
    } else {
        dw_extend(edges, t, n, s, v, n)
    }
}

/// The cheapest way, over the vertices `u` in `1..m`, to split `s` at `u`
/// and reach `v` from `u` by a shortest path.
pub open spec fn dw_extend(edges: Seq<Edge>, t: Seq<NodeId>, n: int, s: u32, v: int, m: int) -> Option<u64>
    decreases s, 1int, m,
{
    if m <= 1 {
        None
    } else {
        omin(
            dw_extend(edges, t, n, s, v, m - 1),
            sat_add(dw_split(edges, t, n, s, m - 1, first_submask(s)), edge_distance(edges, m - 1, v)),
        )
    }
}

/// The cheapest split of `s` at `u` into `sub ∪ (s \ sub)` over the submasks
/// from `sub` down in enumeration order, each unordered split counted once.
pub open spec fn dw_split(edges: Seq<Edge>, t: Seq<NodeId>, n: int, s: u32, u: int, sub: u32) -> Option<u64>
    decreases s, 0int, sub,
{
    if sub == 0 || sub & s != sub || sub >= s {
        None
    } else {
        proof {
            lemma_submask_steps(s, sub);
        }
        let c = (s ^ sub) as u32;
        let here = if sub < c {
            sat_add(dw_value(edges, t, n, sub, u), dw_value(edges, t, n, c, u))
        } else {
            None
        };
        omin(here, dw_split(edges, t, n, s, u, next_submask(s, sub)))
    }
}

/// The bit facts the submask enumeration rests on.
pub proof fn lemma_submask_steps(s: u32, sub: u32)
    requires
        sub != 0,
        sub & s == sub,
        sub < s,
    ensures
        ((s ^ sub) as u32) < s,
        ((s ^ sub) as u32) != 0,
        next_submask(s, sub) < sub,
        next_submask(s, sub) & s == next_submask(s, sub),
{
    assert(((s ^ sub) as u32) < s && ((s ^ sub) as u32) != 0) by (bit_vector)
        requires
            sub != 0,
            sub & s == sub,
            sub < s;
    assert(((((sub - 1) as u32) & s) as u32) < sub && ((((sub - 1) as u32) & s) as u32) & s == ((((sub - 1) as u32) & s) as u32)) by (bit_vector)
        requires
            sub != 0;
}

proof fn lemma_first_submask(s: u32)
    requires
        s != 0,
    ensures
        first_submask(s) & s == first_submask(s),
        first_submask(s) < s,
{
    assert(((((s - 1) as u32) & s) as u32) & s == ((((s - 1) as u32) & s) as u32) && ((((s - 1) as u32) & s) as u32) < s) by (bit_vector)
        requires
            s != 0;
}

/// The cheapest value of the mask `full` over the vertices `1..m`.
pub open spec fn dw_best(edges: Seq<Edge>, t: Seq<NodeId>, n: int, full: u32, m: int) -> Option<u64>
    decreases m,
{
    if m <= 1 {
        None
    } else {
        omin(dw_best(edges, t, n, full, m - 1), dw_value(edges, t, n, full, m - 1))
    }
}

/// Every row `s2` in `1..upto` of `dp` holds the Dreyfus–Wagner values of
/// the mask `s2` at the vertices `1..n`.
pub open spec fn rows_ok(dp: Seq<Vec<Option<Cost>>>, edges: Seq<Edge>, t: Seq<NodeId>, n: int, upto: int) -> bool {
    forall|s2: int, v: int| 1 <= s2 < upto && 1 <= v < n
        ==> (#[trigger] dp[s2]@[v]) == dw_value(edges, t, n, s2 as u32, v)
}

/// The distance from `s` to `v`; nothing is reached from vertex 0.
fn dist_at(apd: &Vec<ShortestPathResult>, s: usize, v: usize, Ghost(edges): Ghost<Seq<Edge>>, Ghost(n): Ghost<int>) -> (r: Option<Cost>)
    requires
        all_pairs_ok(apd@, edges, n),
        s < n,
        v < n,
    ensures
        r == edge_distance(edges, s as int, v as int),
{
    if s == 0 {
        None
    } else {
        assert(apd@[s as int].distances@[v as int] == edge_distance(edges, s as int, v as int));
        apd[s].distances[v]
    }
}

/// The first position of `t` whose bit is the mask `s`.
fn find_bit(t: &[NodeId], s: u32) -> (r: Option<usize>)
    requires
        t.len() <= 24,
    ensures
        match r {
            Some(i) => bit_terminal(t@, s, 0) == Some(i as int),
            None => bit_terminal(t@, s, 0) is None,
        },
{
    let mut i: usize = 0;
    while i < t.len()
        invariant
            t.len() <= 24,
            i <= t.len(),
            bit_terminal(t@, s, 0) == bit_terminal(t@, s, i as int),
        decreases t.len() - i,
    {
        if s == 1u32 << (i as u32) {
            return Some(i);
        }
        i += 1;
    }
    None
}

/// The row of a singleton mask: the distances from its terminal.
fn base_row(apd: &Vec<ShortestPathResult>, term: NodeId, n: usize, Ghost(edges): Ghost<Seq<Edge>>) -> (row: Vec<Option<Cost>>)
    requires
        all_pairs_ok(apd@, edges, n as int),
        (term as int) < n,
    ensures
        row@.len() == n,
        forall|v: int| 1 <= v < n ==> #[trigger] row@[v] == if v == term { Some(0u64) } else { edge_distance(edges, term as int, v) },
{
    let mut row: Vec<Option<Cost>> = Vec::new();
    let mut v: usize = 0;
    while v < n
        invariant
            all_pairs_ok(apd@, edges, n as int),
            (term as int) < n,
            v <= n,
            row@.len() == v,
            forall|w: int| 1 <= w < v ==> #[trigger] row@[w] == if w == term { Some(0u64) } else { edge_distance(edges, term as int, w) },
        decreases n - v,
    {
        if v == 0 {
            row.push(None);
        } else if v == term as usize {
            row.push(Some(0));
        } else {
            let d = dist_at(apd, term as usize, v, Ghost(edges), Ghost(n as int));
            row.push(d);
        }
        v += 1;
    }
    row
}

/// The cheapest split of the mask `s` at every vertex, with the part split
/// off (0 where no split is finite).
fn split_row(dp: &Vec<Vec<Option<Cost>>>, s: u32, n: usize, Ghost(edges): Ghost<Seq<Edge>>, Ghost(t): Ghost<Seq<NodeId>>)
    -> (r: (Vec<Option<Cost>>, Vec<u32>))
    requires
        1 <= s,
        1 <= n,
        dp@.len() >= s,
        forall|s2: int| 0 <= s2 < s ==> (#[trigger] dp@[s2])@.len() == n,
        rows_ok(dp@, edges, t, n as int, s as int),
    ensures
        r.0@.len() == n,
        r.1@.len() == n,
        forall|u: int| 1 <= u < n ==> #[trigger] r.0@[u] == dw_split(edges, t, n as int, s, u, first_submask(s)),
        forall|u: int| 0 <= u < n ==> (#[trigger] r.1@[u] == 0 || (r.1@[u] & s == r.1@[u] && r.1@[u] < s)),
{
    let mut row: Vec<Option<Cost>> = vec![None; n];
    let mut spar: Vec<u32> = vec![0; n];
    let mut sub: u32 = (s - 1) & s;
    proof {
        lemma_first_submask(s);
    }
    while sub > 0
        invariant
            1 <= s,
            1 <= n,
            dp@.len() >= s,
            forall|s2: int| 0 <= s2 < s ==> (#[trigger] dp@[s2])@.len() == n,
            rows_ok(dp@, edges, t, n as int, s as int),
            row@.len() == n,
            spar@.len() == n,
            sub & s == sub,
            sub < s,
            forall|u: int| 1 <= u < n ==> omin(#[trigger] row@[u], dw_split(edges, t, n as int, s, u, sub))
                == dw_split(edges, t, n as int, s, u, first_submask(s)),
            forall|u: int| 0 <= u < n ==> (#[trigger] spar@[u] == 0 || (spar@[u] & s == spar@[u] && spar@[u] < s)),
        decreases sub,
    {
        proof {
            lemma_submask_steps(s, sub);
        }
        let comp: u32 = s ^ sub;
        let next: u32 = (sub - 1) & s;
        if sub < comp {
            let mut u: usize = 1;
            while u < n
                invariant
                    1 <= s,
                    dp@.len() >= s,
                    forall|s2: int| 0 <= s2 < s ==> (#[trigger] dp@[s2])@.len() == n,
                    rows_ok(dp@, edges, t, n as int, s as int),
                    row@.len() == n,
                    spar@.len() == n,
                    sub & s == sub,
                    0 < sub < comp,
                    comp < s,
                    comp == (s ^ sub) as u32,
                    next == next_submask(s, sub),
                    1 <= u <= n,
                    forall|w: int| 1 <= w < u ==> omin(#[trigger] row@[w], dw_split(edges, t, n as int, s, w, next))
                        == dw_split(edges, t, n as int, s, w, first_submask(s)),
                    forall|w: int| u <= w < n ==> omin(#[trigger] row@[w], dw_split(edges, t, n as int, s, w, sub))
                        == dw_split(edges, t, n as int, s, w, first_submask(s)),
                    forall|w: int| 0 <= w < n ==> (#[trigger] spar@[w] == 0 || (spar@[w] & s == spar@[w] && spar@[w] < s)),
                decreases n - u,
            {
                let a = dp[sub as usize][u];
                let b = dp[comp as usize][u];
                let cand = sat_add_exec(a, b);
                let cur = row[u];
                proof {
                    assert(dp@[sub as int]@[u as int] == dw_value(edges, t, n as int, sub, u as int));
                    assert(dp@[comp as int]@[u as int] == dw_value(edges, t, n as int, comp, u as int));
                    lemma_omin_assoc(cur, cand, dw_split(edges, t, n as int, s, u as int, next));
                }
                if improves(cand, cur) {
                    row.set(u, cand);
                    spar.set(u, sub);
                }
                u += 1;
            }
        } else {
            proof {
                assert forall|w: int| 1 <= w < n implies omin(#[trigger] row@[w], dw_split(edges, t, n as int, s, w, next))
                    == dw_split(edges, t, n as int, s, w, first_submask(s)) by {
                    assert(dw_split(edges, t, n as int, s, w, sub) == omin(None, dw_split(edges, t, n as int, s, w, next)));
                }
            }
        }
        sub = next;
    }
    proof {
        assert forall|u: int| 1 <= u < n implies #[trigger] row@[u] == dw_split(edges, t, n as int, s, u, first_submask(s)) by {
            lemma_omin_assoc(row@[u], None, None);
        }
    }
    (row, spar)
}

/// The values of the mask `s` at every vertex: the cheapest split at some
/// vertex `u` joined to the vertex by a shortest path, with that `u`.
fn extend_row(
    apd: &Vec<ShortestPathResult>,
    split: &Vec<Option<Cost>>,
    s: u32,
    n: usize,
    Ghost(edges): Ghost<Seq<Edge>>,
    Ghost(t): Ghost<Seq<NodeId>>,
) -> (r: (Vec<Option<Cost>>, Vec<usize>))
    requires
        1 <= n,
        all_pairs_ok(apd@, edges, n as int),
        split@.len() == n,
        forall|u: int| 1 <= u < n ==> #[trigger] split@[u] == dw_split(edges, t, n as int, s, u, first_submask(s)),
    ensures
        r.0@.len() == n,
        r.1@.len() == n,
        forall|v: int| 1 <= v < n ==> #[trigger] r.0@[v] == dw_extend(edges, t, n as int, s, v, n as int),
        forall|v: int| 0 <= v < n ==> #[trigger] r.1@[v] < n,
{
    let mut row: Vec<Option<Cost>> = Vec::new();
    let mut epar: Vec<usize> = Vec::new();
    row.push(None);
    epar.push(0);
    let mut v: usize = 1;
    while v < n
        invariant
            all_pairs_ok(apd@, edges, n as int),
            split@.len() == n,
            forall|u: int| 1 <= u < n ==> #[trigger] split@[u] == dw_split(edges, t, n as int, s, u, first_submask(s)),
            1 <= v <= n,
            row@.len() == v,
            epar@.len() == v,
            forall|w: int| 1 <= w < v ==> #[trigger] row@[w] == dw_extend(edges, t, n as int, s, w, n as int),
            forall|w: int| 0 <= w < v ==> #[trigger] epar@[w] < n,
        decreases n - v,
    {
        let mut best: Option<Cost> = None;
        let mut best_u: usize = 0;
        let mut u: usize = 1;
        while u < n
            invariant
                all_pairs_ok(apd@, edges, n as int),
                split@.len() == n,
                forall|u2: int| 1 <= u2 < n ==> #[trigger] split@[u2] == dw_split(edges, t, n as int, s, u2, first_submask(s)),
                1 <= v < n,
                1 <= u <= n,
                best_u < n,
                best == dw_extend(edges, t, n as int, s, v as int, u as int),
            decreases n - u,
        {
            let d = dist_at(apd, u, v, Ghost(edges), Ghost(n as int));
            let cand = sat_add_exec(split[u], d);
            if improves(cand, best) {
                best = cand;
                best_u = u;
            }
            u += 1;
        }
        row.push(best);
        epar.push(best_u);
        v += 1;
    }
    (row, epar)
}

/// The recorded edge `(a, b, c)` is an edge of the graph between `a` and
/// `b`, and `c` is the cost of the first such edge listed at `a`.
pub open spec fn edge_entry_ok(edges: Seq<Edge>, e: (NodeId, NodeId, Cost)) -> bool {
    first_edge_cost(edges, incidence(edges, e.0 as int), e.1 as int) == Some(e.2)
}

/// Two records name the same unordered pair of endpoints.
pub open spec fn same_pair(a: (NodeId, NodeId, Cost), b: (NodeId, NodeId, Cost)) -> bool {
    (a.0 == b.0 && a.1 == b.1) || (a.0 == b.1 && a.1 == b.0)
}

/// Every record is a graph edge with its cost, and no endpoint pair is
/// recorded twice.
pub open spec fn tree_edges_ok(list: Seq<(NodeId, NodeId, Cost)>, edges: Seq<Edge>) -> bool {
    &&& forall|k: int| 0 <= k < list.len() ==> edge_entry_ok(edges, #[trigger] list[k])
    &&& forall|j: int, k: int| 0 <= j < k < list.len() ==> !same_pair(#[trigger] list[j], #[trigger] list[k])
}

/// `list` with the edge between `a` and `b` recorded, when its endpoint pair
/// is not recorded yet and the graph has such an edge (the first listed at
/// `a`, with its cost).
pub open spec fn with_edge(list: Seq<(NodeId, NodeId, Cost)>, edges: Seq<Edge>, a: NodeId, b: NodeId) -> Seq<(NodeId, NodeId, Cost)> {
    if exists|j: int| 0 <= j < list.len() && same_pair(#[trigger] list[j], (a, b, 0u64)) {
        list
    } else {
        match first_edge_cost(edges, incidence(edges, a as int), b as int) {
            Some(c) => list.push((a, b, c)),
            None => list,
        }
    }
}

/// Record the edge between `a` and `b` unless its endpoint pair is recorded.
fn add_edge_once(graph: &UndirectedGraph, out: &mut Vec<(NodeId, NodeId, Cost)>, a: NodeId, b: NodeId)
    requires
        graph.wf(),
        tree_edges_ok(old(out)@, graph.edges@),
    ensures
        tree_edges_ok(final(out)@, graph.edges@),
        final(out)@ == with_edge(old(out)@, graph.edges@, a, b),
{
    let mut k: usize = 0;
    while k < out.len()
        invariant
            graph.wf(),
            tree_edges_ok(out@, graph.edges@),
            k <= out@.len(),
            forall|j: int| 0 <= j < k ==> !same_pair(#[trigger] out@[j], (a, b, 0u64)),
        decreases out@.len() - k,
    {
        let e = out[k];
        if (e.0 == a && e.1 == b) || (e.0 == b && e.1 == a) {
            proof {
                assert(same_pair(out@[k as int], (a, b, 0u64)));
            }
            return;
        }
        k += 1;
    }
    match find_edge_cost(graph, a, b) {
        Some(c) => {
            let ghost before = out@;
            out.push((a, b, c));
            proof {
                assert forall|j: int, k2: int| 0 <= j < k2 < out@.len() implies !same_pair(#[trigger] out@[j], #[trigger] out@[k2]) by {
                    if k2 < before.len() {
                        assert(out@[j] == before[j] && out@[k2] == before[k2]);
                    } else {
                        assert(out@[j] == before[j]);
                        assert(!same_pair(before[j], (a, b, 0u64)));
                    }
                }
                assert forall|j: int| 0 <= j < out@.len() implies edge_entry_ok(graph.edges@, #[trigger] out@[j]) by {
                    if j < before.len() {
                        assert(out@[j] == before[j]);
                    }
                }
            }
        },
        None => {},
    }
}

/// The parent tables: an extension parent is a vertex, and a split parent is
/// 0 or a proper nonempty submask of its mask.
pub open spec fn parents_ok(epar: Seq<Vec<usize>>, spar: Seq<Vec<u32>>, n: int) -> bool {
    &&& epar.len() == spar.len()
    &&& epar.len() <= u32::MAX + 1
    &&& forall|s2: int| 0 <= s2 < epar.len() ==> (#[trigger] epar[s2])@.len() == n && spar[s2]@.len() == n
    &&& forall|s2: int, w: int| 0 <= s2 < epar.len() && 0 <= w < n ==> (#[trigger] epar[s2]@[w]) < n
    &&& forall|s2: int, w: int| 0 <= s2 < epar.len() && 0 <= w < n ==> {
        let p = #[trigger] spar[s2]@[w];
        p == 0 || (p & (s2 as u32) == p && p < s2)
    }
}

/// Walk back from the mask `s` at `v`: record the shortest path that joined
/// `v` to its split vertex, then continue with the two halves of the split.
/// Singleton masks record nothing.
fn reconstruct(
    s: u32,
    v: usize,
    n: usize,
    epar: &Vec<Vec<usize>>,
    spar: &Vec<Vec<u32>>,
    apd: &Vec<ShortestPathResult>,
    dg: &DirectedGraph,
    graph: &UndirectedGraph,
    out: &mut Vec<(NodeId, NodeId, Cost)>,
)
    requires
        graph.wf(),
        n <= u32::MAX,
        all_pairs_ok(apd@, graph.edges@, n as int),
        dg.arcs@ == doubled_arcs(graph.edges@),
        parents_ok(epar@, spar@, n as int),
        v < n,
        (s as int) < epar@.len(),
        tree_edges_ok(old(out)@, graph.edges@),
    ensures
        tree_edges_ok(final(out)@, graph.edges@),
    decreases s,
{
    if s == 0 || s & (s - 1) == 0 {
        return;
    }
    let u = epar[s as usize][v];
    assert(epar@[s as int]@[v as int] < n);
    if u != v && u >= 1 {
        let path = apd[u].path_to(v as NodeId);
        match path {
            Some(p) => {
                let mut i: usize = p.len();
                while i > 0
                    invariant
                        graph.wf(),
                        dg.arcs@ == doubled_arcs(graph.edges@),
                        apd@[u as int].arcs() == doubled_arcs(graph.edges@),
                        is_path(apd@[u as int].arcs(), u as int, v as int, p@),
                        i <= p@.len(),
                        tree_edges_ok(out@, graph.edges@),
                    decreases i,
                {
                    i -= 1;
                    let a = p[i];
                    assert((a as int) < dg.arcs@.len());
                    let tail = dg.arcs[a as usize].tail;
                    let head = dg.arcs[a as usize].head;
                    add_edge_once(graph, out, tail, head);
                }
            },
            None => {},
        }
    }
    let sub = spar[s as usize][u];
    assert(sub == 0 || (sub & s == sub && sub < s));
    if sub > 0 {
        proof {
            lemma_submask_steps(s, sub);
        }
        reconstruct(sub, u, n, epar, spar, apd, dg, graph, out);
        reconstruct(s ^ sub, u, n, epar, spar, apd, dg, graph, out);
    }
}

/// The mask of all `k` terminals.
pub open spec fn full_mask(k: nat) -> u32 {
    ((1u32 << (k as u32)) - 1) as u32
}

proof fn lemma_full_mask(k: u32)
    requires
        2 <= k <= 24,
    ensures
        4 <= (1u32 << k) <= 0x100_0000,
{
    assert(4 <= (1u32 << k) <= 0x100_0000) by (bit_vector)
        requires
            2 <= k <= 24;
}

proof fn lemma_bit_terminal(t: Seq<NodeId>, s: u32, from: int)
    requires
        bit_terminal(t, s, from) is Some,
    ensures
        from <= bit_terminal(t, s, from)->0 < t.len(),
    decreases t.len() - from,
{
    if !(from < 0 || from >= t.len() || from >= 32) && s != 1u32 << (from as u32) {
        lemma_bit_terminal(t, s, from + 1);
    }
}

/// Solve the Steiner tree problem on `graph` for `terminals` by the
/// Dreyfus–Wagner recurrence over terminal subsets.
///
/// Fewer than two terminals cost nothing. More than 24 terminals are refused
/// (`None`): the tables grow as `2^k`. Otherwise the result is the cheapest
/// value of the full terminal set over the vertices `1..=num_nodes`, and
/// `None` when no vertex reaches every terminal.
pub fn dreyfus_wagner(graph: &UndirectedGraph, terminals: &[NodeId]) -> (r: Option<DreyfusWagnerResult>)
    requires
        graph.wf(),
        graph.num_nodes < u32::MAX,
        2 * graph.edges@.len() <= u32::MAX,
        2 <= terminals.len() <= 24 ==> forall|i: int| 0 <= i < terminals.len() ==> #[trigger] terminals[i] <= graph.num_nodes,
    ensures
        terminals.len() <= 1 ==> (r matches Some(res) && res.optimal_cost == 0 && res.tree_edges@.len() == 0),
        terminals.len() > 24 ==> r is None,
        2 <= terminals.len() <= 24 ==> ({
            let n = graph.num_nodes + 1;
            let best = dw_best(graph.edges@, terminals@, n, full_mask(terminals.len() as nat), n);
            &&& (r is None <==> best is None)
            &&& (r matches Some(res) ==> best == Some(res.optimal_cost) && tree_edges_ok(res.tree_edges@, graph.edges@))
        }),
{
    if terminals.len() <= 1 {
        return Some(DreyfusWagnerResult { optimal_cost: 0, tree_edges: Vec::new() });
    }
    let k = terminals.len();
    if k > 24 {
        return None;
    }
    let ghost edges = graph.edges@;
    let ghost t = terminals@;
    let n: usize = graph.num_nodes as usize + 1;
    proof {
        lemma_full_mask(k as u32);
    }
    let full: u32 = (1u32 << (k as u32)) - 1;
    let dg = DirectedGraph::from_undirected(graph);
    let mut costs: Vec<Cost> = Vec::new();
    let mut a: usize = 0;
    while a < dg.arcs.len()
        invariant
            a <= dg.arcs@.len(),
            costs@.len() == a,
            forall|j: int| 0 <= j < a ==> costs@[j] == #[trigger] dg.arcs@[j].cost,
        decreases dg.arcs@.len() - a,
    {
        costs.push(dg.arcs[a].cost);
        a += 1;
    }
    proof {
        assert(costs@ =~= arc_costs(dg.arcs@));
        lemma_doubling_arcs(graph, &dg);
    }
    let apd = all_pairs_dijkstra(graph, &dg, costs.as_slice(), n);

    let mut dp: Vec<Vec<Option<Cost>>> = Vec::new();
    let mut epar: Vec<Vec<usize>> = Vec::new();
    let mut spar: Vec<Vec<u32>> = Vec::new();
    dp.push(vec![None; n]);
    epar.push(vec![0; n]);
    spar.push(vec![0; n]);
    let mut s: u32 = 1;
    while s <= full
        invariant
            graph.wf(),
            edges == graph.edges@,
            t == terminals@,
            2 <= k <= 24,
            k == terminals.len(),
            forall|i: int| 0 <= i < k ==> #[trigger] terminals@[i] < n,
            n == graph.num_nodes + 1,
            1 <= n <= u32::MAX,
            full == full_mask(k as nat),
            full <= 0xff_ffff,
            all_pairs_ok(apd@, edges, n as int),
            1 <= s <= full + 1,
            dp@.len() == s,
            forall|s2: int| 0 <= s2 < s ==> (#[trigger] dp@[s2])@.len() == n,
            rows_ok(dp@, edges, t, n as int, s as int),
            epar@.len() == s,
            parents_ok(epar@, spar@, n as int),
        decreases full + 1 - s,
    {
        if s & (s - 1) == 0 {
            let fb = find_bit(terminals, s);
            proof {
                if fb is Some {
                    lemma_bit_terminal(t, s, 0);
                }
            }
            let row = match fb {
                Some(i) => base_row(&apd, terminals[i], n, Ghost(edges)),
                None => vec![None; n],
            };
            proof {
                assert forall|v: int| 1 <= v < n implies #[trigger] row@[v] == dw_value(edges, t, n as int, s, v) by {}
            }
            let ghost old_dp = dp@;
            dp.push(row);
            epar.push(vec![0; n]);
            spar.push(vec![0; n]);
            proof {
                assert forall|s2: int, v: int| 1 <= s2 < s + 1 && 1 <= v < n
                    implies (#[trigger] dp@[s2]@[v]) == dw_value(edges, t, n as int, s2 as u32, v) by {
                    if s2 < s {
                        assert(dp@[s2] == old_dp[s2]);
                    }
                }
            }
        } else {
            let (split, sp) = split_row(&dp, s, n, Ghost(edges), Ghost(t));
            let (row, ep) = extend_row(&apd, &split, s, n, Ghost(edges), Ghost(t));
            let ghost old_dp = dp@;
            dp.push(row);
            epar.push(ep);
            spar.push(sp);
            proof {
                assert forall|s2: int, v: int| 1 <= s2 < s + 1 && 1 <= v < n
                    implies (#[trigger] dp@[s2]@[v]) == dw_value(edges, t, n as int, s2 as u32, v) by {
                    if s2 < s {
                        assert(dp@[s2] == old_dp[s2]);
                    }
                }
            }
        }
        s += 1;
    }

    let mut best: Option<Cost> = None;
    let mut best_node: usize = 1;
    let mut v: usize = 1;
    while v < n
        invariant
            rows_ok(dp@, edges, t, n as int, full + 1),
            3 <= full,
            dp@.len() == full + 1,
            forall|s2: int| 0 <= s2 <= full ==> (#[trigger] dp@[s2])@.len() == n,
            1 <= v <= n,
            1 <= best_node < n || (best_node == 1 && n == 1),
            best == dw_best(edges, t, n as int, full, v as int),
        decreases n - v,
    {
        let x = dp[full as usize][v];
        assert(dp@[full as int]@[v as int] == dw_value(edges, t, n as int, full, v as int));
        if improves(x, best) {
            best = x;
            best_node = v;
        }
        v += 1;
    }
    match best {
        None => None,
        Some(cost) => {
            let mut tree_edges: Vec<(NodeId, NodeId, Cost)> = Vec::new();
            reconstruct(full, best_node, n, &epar, &spar, &apd, &dg, graph, &mut tree_edges);
            Some(DreyfusWagnerResult { optimal_cost: cost, tree_edges })
        },
    }
}

} // verus!
