//! Single-source shortest paths by Dijkstra's algorithm.
//!
//! Costs are nonnegative integers; the cost of a path is the sum of its arc
//! costs, saturating at `u64::MAX`.
use vstd::prelude::*;
use crate::graph::types::{NodeId, ArcId, Cost, Arc};
use crate::graph::directed::{DirectedGraph, out_arcs, lemma_out_arcs_sound, lemma_out_arcs_complete};

verus! {

/// `p` is a sequence of arcs leading from `s` to `v`.
pub open spec fn is_path(arcs: Seq<Arc>, s: int, v: int, p: Seq<ArcId>) -> bool {
    if p.len() == 0 {
        s == v
    } else {
        &&& forall|i: int| 0 <= i < p.len() ==> (#[trigger] p[i] as int) < arcs.len()
        &&& arcs[p[0] as int].tail == s
        &&& arcs[p[p.len() - 1] as int].head == v
        &&& forall|i: int| 0 <= i < p.len() - 1 ==> arcs[#[trigger] p[i] as int].head == arcs[p[i + 1] as int].tail
    }
}

/// Sum of the arc costs along `p`.
pub open spec fn path_sum(costs: Seq<u64>, p: Seq<ArcId>) -> int
    decreases p.len(),
{
    if p.len() == 0 {
        0
    } else {
        path_sum(costs, p.drop_last()) + costs[p.last() as int]
    }
}

/// `x`, or `u64::MAX` when it is larger.
pub open spec fn capped(x: int) -> int {
    if x > u64::MAX { u64::MAX as int } else { x }
}

/// The cost of a path: its sum, saturating at `u64::MAX`.
pub open spec fn path_cost(costs: Seq<u64>, p: Seq<ArcId>) -> int {
    capped(path_sum(costs, p))
}

/// Some path leads from `s` to `v`.
pub open spec fn reachable(arcs: Seq<Arc>, s: int, v: int) -> bool {
    exists|p: Seq<ArcId>| is_path(arcs, s, v, p)
}

/// `d` is the least cost of a path from `s` to `v`.
pub open spec fn is_distance(arcs: Seq<Arc>, costs: Seq<u64>, s: int, v: int, d: int) -> bool {
    &&& exists|p: Seq<ArcId>| is_path(arcs, s, v, p) && path_cost(costs, p) == d
    &&& forall|p: Seq<ArcId>| is_path(arcs, s, v, p) ==> path_cost(costs, p) >= d
}

/// The result of a search: tentative distances that are final, and a
/// predecessor arc for every reached vertex but the source.
pub struct ShortestPathResult {
    pub distances: Vec<Option<Cost>>,
    pub predecessors: Vec<Option<(NodeId, ArcId)>>,
    pub arcs: Ghost<Seq<Arc>>,
    pub costs: Ghost<Seq<u64>>,
    pub source: Ghost<int>,
    pub rank: Ghost<Seq<int>>,
}

/// Every reached vertex other than the source names a predecessor arc from a
/// vertex reached earlier, whose distance plus the arc cost is its distance.
pub open spec fn preds_consistent(
    arcs: Seq<Arc>,
    costs: Seq<u64>,
    s: int,
    dist: Seq<Option<Cost>>,
    pred: Seq<Option<(NodeId, ArcId)>>,
    rank: Seq<int>,
) -> bool {
    &&& dist.len() == pred.len()
    &&& rank.len() == dist.len()
    &&& forall|v: int| 0 <= v < rank.len() ==> (#[trigger] rank[v]) >= 0
    &&& 0 <= s < dist.len()
    &&& dist[s] == Some(0u64)
    &&& pred[s] is None
    &&& forall|v: int| 0 <= v < dist.len() && (#[trigger] dist[v]) is None ==> pred[v] is None
    &&& forall|v: int| 0 <= v < dist.len() && v != s && (#[trigger] dist[v]) is Some ==> {
        &&& pred[v] matches Some((u, a)) && {
            &&& (a as int) < arcs.len()
            &&& (u as int) < dist.len()
            &&& arcs[a as int].tail == u
            &&& arcs[a as int].head == v
            &&& dist[u as int] is Some
            &&& dist[v]->0 == capped(dist[u as int]->0 + costs[a as int])
            &&& rank[u as int] < rank[v]
        }
    }
}

impl ShortestPathResult {
    pub open spec fn wf(&self) -> bool {
        &&& preds_consistent(self.arcs@, self.costs@, self.source@, self.distances@, self.predecessors@, self.rank@)
        &&& self.costs@.len() == self.arcs@.len()
    }

    /// The arcs the search ran over.
    pub open spec fn arcs(&self) -> Seq<Arc> {
        self.arcs@
    }

    /// The arc costs the search used.
    pub open spec fn costs(&self) -> Seq<u64> {
        self.costs@
    }

    /// The source of the search.
    pub open spec fn source(&self) -> int {
        self.source@
    }
}

/// Following predecessors from `v` gives a path from the source of cost `dist[v]`.
proof fn lemma_pred_path(
    arcs: Seq<Arc>,
    costs: Seq<u64>,
    s: int,
    dist: Seq<Option<Cost>>,
    pred: Seq<Option<(NodeId, ArcId)>>,
    rank: Seq<int>,
    v: int,
)
    requires
        preds_consistent(arcs, costs, s, dist, pred, rank),
        0 <= v < dist.len(),
        dist[v] is Some,
        forall|u: int| 0 <= u < rank.len() ==> rank[u] >= 0,
    ensures
        exists|p: Seq<ArcId>| is_path(arcs, s, v, p) && path_cost(costs, p) == dist[v]->0,
    decreases rank[v],
{
    if v == s {
        let p = Seq::<ArcId>::empty();
        assert(is_path(arcs, s, v, p) && path_cost(costs, p) == dist[v]->0);
    } else {
        let (u, a) = pred[v]->0;
        lemma_pred_path(arcs, costs, s, dist, pred, rank, u as int);
        let q = choose|q: Seq<ArcId>| is_path(arcs, s, u as int, q) && path_cost(costs, q) == dist[u as int]->0;
        let p = q.push(a);
        assert(p.drop_last() =~= q);
        assert(path_sum(costs, p) == path_sum(costs, q) + costs[a as int]);
        assert(path_cost(costs, p) == dist[v]->0);
        if q.len() > 0 {
            assert forall|i: int| 0 <= i < p.len() - 1 implies arcs[#[trigger] p[i] as int].head == arcs[p[i + 1] as int].tail by {
                if i < q.len() - 1 {
                    assert(p[i] == q[i] && p[i + 1] == q[i + 1]);
                }
            }
        }
        assert(is_path(arcs, s, v, p));
    }
}

/// The state of a search in progress.
pub open spec fn search_inv(
    arcs: Seq<Arc>,
    costs: Seq<u64>,
    s: int,
    dist: Seq<Option<Cost>>,
    pred: Seq<Option<(NodeId, ArcId)>>,
    done: Seq<bool>,
    rank: Seq<int>,
    k: int,
    cur: int,
) -> bool {
    let n = dist.len() as int;
    &&& preds_consistent(arcs, costs, s, dist, pred, rank)
    &&& done.len() == n
    &&& n <= u32::MAX + 1
    &&& arcs.len() <= u32::MAX
    &&& costs.len() == arcs.len()
    &&& forall|i: int| 0 <= i < arcs.len() ==> (#[trigger] arcs[i]).tail < n && arcs[i].head < n
    &&& 0 <= k <= n
    &&& forall|v: int| 0 <= v < n ==> (#[trigger] rank[v]) >= 0
    &&& forall|v: int| 0 <= v < n && (#[trigger] done[v]) ==> dist[v] is Some && rank[v] < k
    &&& forall|v: int| 0 <= v < n && !(#[trigger] done[v]) ==> rank[v] == n
    // Settled vertices hold their final distance.
    &&& forall|v: int, p: Seq<ArcId>| 0 <= v < n && #[trigger] done[v] && #[trigger] is_path(arcs, s, v, p)
        ==> path_cost(costs, p) >= dist[v]->0
    // Every arc leaving a settled vertex has been relaxed, but those of the
    // vertex `cur` being settled.
    &&& forall|i: int| 0 <= i < arcs.len() && #[trigger] done[arcs[i].tail as int] && arcs[i].tail != cur ==> {
        &&& dist[arcs[i].head as int] is Some
        &&& dist[arcs[i].head as int]->0 <= capped(dist[arcs[i].tail as int]->0 + costs[i])
    }
    // Settled distances are at most every tentative one.
    &&& forall|u: int, v: int| 0 <= u < n && 0 <= v < n && #[trigger] done[u] && !(#[trigger] done[v]) && dist[v] is Some
        ==> dist[u]->0 <= dist[v]->0
    // Counting the settled vertices.
    &&& Set::new(|v: int| 0 <= v < n && done[v]).finite()
    &&& Set::new(|v: int| 0 <= v < n && done[v]).len() == k
}

/// A nonempty path without its last arc leads to that arc's tail.
proof fn lemma_path_prefix(arcs: Seq<Arc>, s: int, v: int, p: Seq<ArcId>)
    requires
        is_path(arcs, s, v, p),
        p.len() > 0,
    ensures
        is_path(arcs, s, arcs[p.last() as int].tail as int, p.drop_last()),
{
    let q = p.drop_last();
    if q.len() > 0 {
        assert(arcs[q[q.len() - 1] as int].head == arcs[p[p.len() - 1] as int].tail);
        assert forall|i: int| 0 <= i < q.len() - 1 implies arcs[#[trigger] q[i] as int].head == arcs[q[i + 1] as int].tail by {
            assert(q[i] == p[i] && q[i + 1] == p[i + 1]);
        }
        assert forall|i: int| 0 <= i < q.len() implies (#[trigger] q[i] as int) < arcs.len() by {
            assert(q[i] == p[i]);
        }
    }
}

/// While no settled vertex is farther than `m` and no reached unsettled
/// vertex is nearer, every path to an unsettled vertex costs at least `m`.
proof fn lemma_path_bound(
    arcs: Seq<Arc>,
    costs: Seq<u64>,
    s: int,
    dist: Seq<Option<Cost>>,
    pred: Seq<Option<(NodeId, ArcId)>>,
    done: Seq<bool>,
    rank: Seq<int>,
    k: int,
    m: int,
    v: int,
    p: Seq<ArcId>,
)
    requires
        search_inv(arcs, costs, s, dist, pred, done, rank, k, -1),
        forall|w: int| 0 <= w < dist.len() && !done[w] && (#[trigger] dist[w]) is Some ==> m <= dist[w]->0,
        is_path(arcs, s, v, p),
        0 <= v < dist.len(),
        !done[v],
    ensures
        path_cost(costs, p) >= m,
    decreases p.len(),
{
    if p.len() == 0 {
        assert(dist[s] is Some);
    } else {
        let a = p.last() as int;
        let u = arcs[a].tail as int;
        lemma_path_prefix(arcs, s, v, p);
        let q = p.drop_last();
        assert(arcs[p[p.len() - 1] as int].head == v);
        if done[u] {
            assert(path_cost(costs, q) >= dist[u]->0);
            assert(dist[v] is Some);
        } else {
            lemma_path_bound(arcs, costs, s, dist, pred, done, rank, k, m, u, q);
        }
    }
}

/// The unsettled reached vertex of least distance, ties to the larger id.
fn select_next(dist: &Vec<Option<Cost>>, done: &Vec<bool>) -> (r: Option<usize>)
    requires
        dist.len() == done.len(),
    ensures
        r is None ==> forall|w: int| 0 <= w < dist.len() && !done@[w] ==> (#[trigger] dist@[w]) is None,
        r matches Some(x) ==> {
            &&& x < dist.len()
            &&& !done@[x as int]
            &&& dist@[x as int] is Some
            &&& forall|w: int| 0 <= w < dist.len() && !done@[w] && (#[trigger] dist@[w]) is Some
                ==> dist@[x as int]->0 <= dist@[w]->0
        },
{
    let mut best: Option<usize> = None;
    let mut best_d: u64 = 0;
    let mut v: usize = 0;
    while v < dist.len()
        invariant
            dist.len() == done.len(),
            v <= dist.len(),
            best is None ==> forall|w: int| 0 <= w < v && !done@[w] ==> (#[trigger] dist@[w]) is None,
            best matches Some(x) ==> {
                &&& x < v
                &&& !done@[x as int]
                &&& dist@[x as int] == Some(best_d)
                &&& forall|w: int| 0 <= w < v && !done@[w] && (#[trigger] dist@[w]) is Some
                    ==> best_d <= dist@[w]->0
            },
        decreases dist.len() - v,
    {
        if !done[v] {
            match dist[v] {
                Some(d) => {
                    if best.is_none() || d <= best_d {
                        best = Some(v);
                        best_d = d;
                    }
                },
                None => {},
            }
        }
        v += 1;
    }
    best
}

/// `x + c`, or `u64::MAX` when that overflows.
fn add_capped(x: u64, c: u64) -> (r: u64)
    ensures
        r == capped(x + c),
{
    if x > u64::MAX - c {
        u64::MAX
    } else {
        x + c
    }
}

/// Settling `x`, the nearest unsettled vertex, keeps every settled distance final.
proof fn lemma_settle(
    arcs: Seq<Arc>,
    costs: Seq<u64>,
    s: int,
    dist: Seq<Option<Cost>>,
    pred: Seq<Option<(NodeId, ArcId)>>,
    done: Seq<bool>,
    rank: Seq<int>,
    k: int,
    x: int,
)
    requires
        search_inv(arcs, costs, s, dist, pred, done, rank, k, -1),
        0 <= x < dist.len(),
        !done[x],
        dist[x] is Some,
        forall|w: int| 0 <= w < dist.len() && !done[w] && (#[trigger] dist[w]) is Some ==> dist[x]->0 <= dist[w]->0,
    ensures
        search_inv(arcs, costs, s, dist, pred, done.update(x, true), rank.update(x, k), k + 1, x),
        forall|u: int| 0 <= u < dist.len() && #[trigger] done.update(x, true)[u] ==> dist[u]->0 <= dist[x]->0,
{
    let n = dist.len() as int;
    let nd = done.update(x, true);
    let nr = rank.update(x, k);
    assert forall|p: Seq<ArcId>| #[trigger] is_path(arcs, s, x, p) implies path_cost(costs, p) >= dist[x]->0 by {
        lemma_path_bound(arcs, costs, s, dist, pred, done, rank, k, dist[x]->0 as int, x, p);
    }
    let old_set = Set::new(|v: int| 0 <= v < n && done[v]);
    let new_set = Set::new(|v: int| 0 <= v < n && nd[v]);
    assert(new_set =~= old_set.insert(x));
    vstd::set_lib::lemma_int_range(0, n);
    assert(old_set.subset_of(vstd::set_lib::set_int_range(0, n).remove(x)));
    vstd::set_lib::lemma_len_subset(old_set, vstd::set_lib::set_int_range(0, n).remove(x));
    assert forall|v: int| 0 <= v < n && v != s && (#[trigger] dist[v]) is Some implies {
        &&& pred[v] matches Some((u, a)) && {
            &&& (a as int) < arcs.len()
            &&& (u as int) < dist.len()
            &&& arcs[a as int].tail == u
            &&& arcs[a as int].head == v
            &&& dist[u as int] is Some
            &&& dist[v]->0 == capped(dist[u as int]->0 + costs[a as int])
            &&& nr[u as int] < nr[v]
        }
    } by {
        let (u, a) = pred[v]->0;
        if v == x {
            assert(rank[u as int] < rank[x]);
            assert(done[u as int]);
        }
    }
}

/// Lowering the distance of `h` along an arc from the vertex `x` being settled
/// keeps the search state.
proof fn lemma_relax(
    arcs: Seq<Arc>,
    costs: Seq<u64>,
    s: int,
    dist: Seq<Option<Cost>>,
    pred: Seq<Option<(NodeId, ArcId)>>,
    done: Seq<bool>,
    rank: Seq<int>,
    k: int,
    x: int,
    dx: u64,
    a: int,
    nd: u64,
)
    requires
        search_inv(arcs, costs, s, dist, pred, done, rank, k, x),
        0 <= x < dist.len(),
        dist[x] == Some(dx),
        done[x],
        rank[x] == k - 1,
        forall|u: int| 0 <= u < dist.len() && #[trigger] done[u] ==> dist[u]->0 <= dx,
        0 <= a < arcs.len(),
        arcs[a].tail == x,
        nd == capped(dx + costs[a]),
        dist[arcs[a].head as int] is None || nd < dist[arcs[a].head as int]->0,
    ensures
        ({
            let h = arcs[a].head as int;
            let nd2 = dist.update(h, Some(nd));
            let np = pred.update(h, Some((x as NodeId, a as ArcId)));
            &&& search_inv(arcs, costs, s, nd2, np, done, rank, k, x)
            &&& !done[h]
            &&& h != x
            &&& forall|u: int| 0 <= u < dist.len() && #[trigger] done[u] ==> nd2[u]->0 <= dx
        }),
{
    let h = arcs[a].head as int;
    let n = dist.len() as int;
    let nd2 = dist.update(h, Some(nd));
    let np = pred.update(h, Some((x as NodeId, a as ArcId)));
    if done[h] {
        assert(dist[h]->0 <= dx);
    }
    assert(!done[h]);
    assert(h != s);
    assert(Set::new(|v: int| 0 <= v < n && done[v]).len() == k);
    assert forall|v: int, p: Seq<ArcId>| 0 <= v < n && #[trigger] done[v] && #[trigger] is_path(arcs, s, v, p)
        implies path_cost(costs, p) >= nd2[v]->0 by {
        assert(nd2[v] == dist[v]);
    }
    assert forall|i: int| 0 <= i < arcs.len() && #[trigger] done[arcs[i].tail as int] && arcs[i].tail != x implies {
        &&& nd2[arcs[i].head as int] is Some
        &&& nd2[arcs[i].head as int]->0 <= capped(nd2[arcs[i].tail as int]->0 + costs[i])
    } by {
        assert(nd2[arcs[i].tail as int] == dist[arcs[i].tail as int]);
    }
    assert forall|v: int| 0 <= v < n && v != s && (#[trigger] nd2[v]) is Some implies {
        &&& np[v] matches Some((u, b)) && {
            &&& (b as int) < arcs.len()
            &&& (u as int) < nd2.len()
            &&& arcs[b as int].tail == u
            &&& arcs[b as int].head == v
            &&& nd2[u as int] is Some
            &&& nd2[v]->0 == capped(nd2[u as int]->0 + costs[b as int])
            &&& rank[u as int] < rank[v]
        }
    } by {
        if v != h {
            let (u, b) = pred[v]->0;
            assert(rank[v] <= n) by {
                if done[v] {
                    assert(rank[v] < k);
                }
            }
            assert(done[u as int]) by {
                if !done[u as int] {
                    assert(rank[u as int] == n);
                }
            }
            assert(nd2[u as int] == dist[u as int]);
        } else {
            assert(rank[x] < n);
            assert(rank[h] == n);
            assert(h != x);
            assert(nd2[x] == dist[x]);
            assert(np[v] == Some((x as NodeId, a as ArcId)));
            assert(arcs[a].head == v);
        }
    }
}

/// Shortest distances from `source` under `costs`, with a predecessor arc for
/// every reached vertex but the source.
pub fn shortest_paths_from(graph: &DirectedGraph, source: NodeId, costs: &[Cost]) -> (r: ShortestPathResult)
    requires
        graph.wf(),
        (source as int) < graph.slots(),
        costs.len() == graph.arcs@.len(),
    ensures
        r.wf(),
        r.arcs() == graph.arcs@,
        r.costs() == costs@,
        r.source() == source as int,
        r.distances@.len() == graph.slots(),
        forall|v: int| 0 <= v < graph.slots() ==> match #[trigger] r.distances@[v] {
            Some(d) => is_distance(graph.arcs@, costs@, source as int, v, d as int),
            None => !reachable(graph.arcs@, source as int, v),
        },
{
    let ghost arcs = graph.arcs@;
    let ghost cs = costs@;
    let ghost s = source as int;
    let n = graph.out_adjacency.len();
    let mut dist: Vec<Option<Cost>> = vec![None; n];
    let mut pred: Vec<Option<(NodeId, ArcId)>> = vec![None; n];
    let mut done: Vec<bool> = vec![false; n];
    dist.set(source as usize, Some(0));
    let ghost mut rank: Seq<int> = Seq::new(n as nat, |v: int| n as int);
    let ghost mut k: int = 0;
    proof {
        assert(Set::new(|v: int| 0 <= v < n && done@[v]) =~= Set::<int>::empty());
    }
    loop
        invariant
            graph.wf(),
            arcs == graph.arcs@,
            cs == costs@,
            s == source as int,
            n == graph.slots(),
            dist@.len() == n,
            search_inv(arcs, cs, s, dist@, pred@, done@, rank, k, -1),
        ensures
            search_inv(arcs, cs, s, dist@, pred@, done@, rank, k, -1),
            dist@.len() == n,
            forall|w: int| 0 <= w < n && !done@[w] ==> (#[trigger] dist@[w]) is None,
        decreases n - k,
    {
        let x = match select_next(&dist, &done) {
            None => break,
            Some(x) => x,
        };
        let dx = match dist[x] {
            Some(d) => d,
            None => 0,
        };
        proof {
            lemma_settle(arcs, cs, s, dist@, pred@, done@, rank, k, x as int);
            rank = rank.update(x as int, k);
            k = k + 1;
        }
        done.set(x, true);
        let outs = graph.delta_plus(x as NodeId);
        let mut j: usize = 0;
        while j < outs.len()
            invariant
                graph.wf(),
                arcs == graph.arcs@,
                cs == costs@,
                n == graph.slots(),
                dist@.len() == n,
                0 <= x < n,
                outs@ == out_arcs(arcs, x as int),
                dist@[x as int] == Some(dx),
                done@[x as int],
                rank[x as int] == k - 1,
                search_inv(arcs, cs, s, dist@, pred@, done@, rank, k, x as int),
                forall|u: int| 0 <= u < n && #[trigger] done@[u] ==> dist@[u]->0 <= dx,
                j <= outs.len(),
                forall|t: int| 0 <= t < j ==> {
                    &&& dist@[(#[trigger] outs@[t]).0 as int] is Some
                    &&& dist@[outs@[t].0 as int]->0 <= capped(dx + cs[outs@[t].1 as int])
                },
            decreases outs.len() - j,
        {
            let (h, a) = outs[j];
            proof {
                lemma_out_arcs_sound(arcs, x as int, j as int);
            }
            let nd = add_capped(dx, costs[a as usize]);
            let better = match dist[h as usize] {
                None => true,
                Some(dh) => nd < dh,
            };
            if better {
                proof {
                    lemma_relax(arcs, cs, s, dist@, pred@, done@, rank, k, x as int, dx, a as int, nd);
                }
                let ghost old_dist = dist@;
                dist.set(h as usize, Some(nd));
                pred.set(h as usize, Some((x as NodeId, a)));
                proof {
                    assert(dist@ == old_dist.update(h as int, Some(nd)));
                    assert forall|t: int| 0 <= t < j + 1 implies {
                        &&& dist@[(#[trigger] outs@[t]).0 as int] is Some
                        &&& dist@[outs@[t].0 as int]->0 <= capped(dx + cs[outs@[t].1 as int])
                    } by {
                        lemma_out_arcs_sound(arcs, x as int, t);
                        if t < j && outs@[t].0 as int != h as int {
                            assert(dist@[outs@[t].0 as int] == old_dist[outs@[t].0 as int]);
                        }
                    }
                }
            }
            j += 1;
        }
        proof {
            assert forall|i: int| 0 <= i < arcs.len() && #[trigger] done@[arcs[i].tail as int] implies {
                &&& dist@[arcs[i].head as int] is Some
                &&& dist@[arcs[i].head as int]->0 <= capped(dist@[arcs[i].tail as int]->0 + cs[i])
            } by {
                if arcs[i].tail == x as int {
                    lemma_out_arcs_complete(arcs, x as int, i);
                    let t = choose|t: int| 0 <= t < outs@.len() && outs@[t] == (arcs[i].head, i as ArcId);
                    assert(outs@[t].0 == arcs[i].head);
                }
            }
        }
    }
    proof {
        assert forall|v: int| 0 <= v < n implies match #[trigger] dist@[v] {
            Some(d) => is_distance(arcs, cs, s, v, d as int),
            None => !reachable(arcs, s, v),
        } by {
            match dist@[v] {
                Some(d) => {
                    assert(done@[v]);
                    lemma_pred_path(arcs, cs, s, dist@, pred@, rank, v);
                },
                None => {
                    if reachable(arcs, s, v) {
                        let p = choose|p: Seq<ArcId>| is_path(arcs, s, v, p);
                        lemma_path_bound(arcs, cs, s, dist@, pred@, done@, rank, k, u64::MAX + 1, v, p);
                    }
                },
            }
        }
    }
    ShortestPathResult {
        distances: dist,
        predecessors: pred,
        arcs: Ghost(arcs),
        costs: Ghost(cs),
        source: Ghost(s),
        rank: Ghost(rank),
    }
}

proof fn lemma_path_sum_nonneg(costs: Seq<u64>, p: Seq<ArcId>)
    ensures
        path_sum(costs, p) >= 0,
    decreases p.len(),
{
    if p.len() > 0 {
        lemma_path_sum_nonneg(costs, p.drop_last());
    }
}

proof fn lemma_path_sum_prepend(costs: Seq<u64>, a: ArcId, q: Seq<ArcId>)
    ensures
        path_sum(costs, seq![a] + q) == costs[a as int] + path_sum(costs, q),
    decreases q.len(),
{
    let p = seq![a] + q;
    if q.len() == 0 {
        assert(p =~= seq![a]);
        assert(p.drop_last() =~= Seq::<ArcId>::empty());
        assert(path_sum(costs, p.drop_last()) == 0);
    } else {
        lemma_path_sum_prepend(costs, a, q.drop_last());
        assert(p.drop_last() =~= seq![a] + q.drop_last());
        assert(p.last() == q.last());
    }
}

pub proof fn lemma_path_prepend(arcs: Seq<Arc>, u: int, v: int, t: int, a: ArcId, q: Seq<ArcId>)
    requires
        (a as int) < arcs.len(),
        arcs[a as int].tail == u,
        arcs[a as int].head == v,
        is_path(arcs, v, t, q),
    ensures
        is_path(arcs, u, t, seq![a] + q),
{
    let p = seq![a] + q;
    assert(p[0] == a);
    if q.len() > 0 {
        assert forall|i: int| 0 <= i < p.len() - 1 implies arcs[#[trigger] p[i] as int].head == arcs[p[i + 1] as int].tail by {
            if i > 0 {
                assert(p[i] == q[i - 1] && p[i + 1] == q[i]);
            } else {
                assert(p[1] == q[0]);
            }
        }
        assert forall|i: int| 0 <= i < p.len() implies (#[trigger] p[i] as int) < arcs.len() by {
            if i > 0 {
                assert(p[i] == q[i - 1]);
            }
        }
        assert(p[p.len() - 1] == q[q.len() - 1]);
    }
}

impl ShortestPathResult {
    /// The arcs of a shortest path from the source to `target`, in order;
    /// `None` when `target` is unreachable.
    pub fn path_to(&self, target: NodeId) -> (r: Option<Vec<ArcId>>)
        requires
            self.wf(),
            (target as int) < self.distances@.len(),
        ensures
            r is None <==> self.distances@[target as int] is None,
            r matches Some(p) ==> is_path(self.arcs(), self.source(), target as int, p@)
                && path_cost(self.costs(), p@) == self.distances@[target as int]->0,
    {
        if self.distances[target as usize].is_none() {
            return None;
        }
        let ghost arcs = self.arcs@;
        let ghost cs = self.costs@;
        let ghost dist = self.distances@;
        let mut rev: Vec<ArcId> = Vec::new();
        let ghost mut suffix: Seq<ArcId> = Seq::empty();
        let mut current: usize = target as usize;
        loop
            invariant
                self.wf(),
                arcs == self.arcs@,
                cs == self.costs@,
                dist == self.distances@,
                (target as int) < dist.len(),
                current < dist.len(),
                dist[current as int] is Some,
                rev@.len() == suffix.len(),
                forall|i: int| 0 <= i < suffix.len() ==> #[trigger] suffix[i] == rev@[rev@.len() - 1 - i],
                is_path(arcs, current as int, target as int, suffix),
                dist[target as int]->0 == capped(dist[current as int]->0 + path_sum(cs, suffix)),
            ensures
                current as int == self.source(),
                rev@.len() == suffix.len(),
                forall|i: int| 0 <= i < suffix.len() ==> #[trigger] suffix[i] == rev@[rev@.len() - 1 - i],
                is_path(arcs, current as int, target as int, suffix),
                dist[target as int]->0 == capped(dist[current as int]->0 + path_sum(cs, suffix)),
            decreases self.rank@[current as int],
        {
            match self.predecessors[current] {
                Some((u, a)) => {
                    proof {
                        lemma_path_prepend(arcs, u as int, current as int, target as int, a, suffix);
                        lemma_path_sum_prepend(cs, a, suffix);
                        lemma_path_sum_nonneg(cs, suffix);
                        suffix = seq![a] + suffix;
                    }
                    rev.push(a);
                    current = u as usize;
                },
                None => {
                    break;
                },
            }
        }
        let mut path: Vec<ArcId> = Vec::new();
        let mut i: usize = rev.len();
        while i > 0
            invariant
                i <= rev@.len(),
                rev@.len() == suffix.len(),
                forall|t: int| 0 <= t < suffix.len() ==> #[trigger] suffix[t] == rev@[rev@.len() - 1 - t],
                path@.len() == rev@.len() - i,
                forall|t: int| 0 <= t < path@.len() ==> #[trigger] path@[t] == suffix[t],
            decreases i,
        {
            i -= 1;
            path.push(rev[i]);
        }
        proof {
            assert(path@ =~= suffix);
        }
        Some(path)
    }

    /// The vertices of a shortest path from the source to `target`, in order;
    /// `None` when `target` is unreachable.
    pub fn nodes_on_path_to(&self, target: NodeId) -> (r: Option<Vec<NodeId>>)
        requires
            self.wf(),
            (target as int) < self.distances@.len(),
        ensures
            r is None <==> self.distances@[target as int] is None,
            r matches Some(ns) ==> exists|p: Seq<ArcId>| {
                &&& is_path(self.arcs(), self.source(), target as int, p)
                &&& path_cost(self.costs(), p) == self.distances@[target as int]->0
                &&& ns@.len() == p.len() + 1
                &&& ns@[0] == self.source()
                &&& forall|i: int| 0 <= i < p.len() ==> ns@[i + 1] == #[trigger] self.arcs()[p[i] as int].head
            },
    {
        if self.distances[target as usize].is_none() {
            return None;
        }
        let ghost arcs = self.arcs@;
        let ghost cs = self.costs@;
        let ghost dist = self.distances@;
        let mut rev: Vec<NodeId> = Vec::new();
        rev.push(target);
        let ghost mut suffix: Seq<ArcId> = Seq::empty();
        let mut current: usize = target as usize;
        loop
            invariant
                self.wf(),
                arcs == self.arcs@,
                cs == self.costs@,
                dist == self.distances@,
                (target as int) < dist.len(),
                current < dist.len(),
                dist[current as int] is Some,
                rev@.len() == suffix.len() + 1,
                rev@[rev@.len() - 1] == current,
                forall|i: int| 0 <= i < suffix.len() ==> #[trigger] arcs[suffix[i] as int].head == rev@[rev@.len() - 2 - i],
                is_path(arcs, current as int, target as int, suffix),
                dist[target as int]->0 == capped(dist[current as int]->0 + path_sum(cs, suffix)),
            ensures
                current as int == self.source(),
                rev@.len() == suffix.len() + 1,
                rev@[rev@.len() - 1] == current,
                forall|i: int| 0 <= i < suffix.len() ==> #[trigger] arcs[suffix[i] as int].head == rev@[rev@.len() - 2 - i],
                is_path(arcs, current as int, target as int, suffix),
                dist[target as int]->0 == capped(dist[current as int]->0 + path_sum(cs, suffix)),
            decreases self.rank@[current as int],
        {
            match self.predecessors[current] {
                Some((u, a)) => {
                    proof {
                        lemma_path_prepend(arcs, u as int, current as int, target as int, a, suffix);
                        lemma_path_sum_prepend(cs, a, suffix);
                        lemma_path_sum_nonneg(cs, suffix);
                        let old_suffix = suffix;
                        suffix = seq![a] + suffix;
                        assert forall|i: int| 0 <= i < suffix.len() implies #[trigger] arcs[suffix[i] as int].head
                            == rev@.push(u)[rev@.len() + 1 - 2 - i] by {
                            if i > 0 {
                                assert(suffix[i] == old_suffix[i - 1]);
                            }
                        }
                    }
                    rev.push(u);
                    current = u as usize;
                },
                None => {
                    break;
                },
            }
        }
        let mut nodes: Vec<NodeId> = Vec::new();
        let mut i: usize = rev.len();
        while i > 0
            invariant
                i <= rev@.len(),
                nodes@.len() == rev@.len() - i,
                forall|t: int| 0 <= t < nodes@.len() ==> #[trigger] nodes@[t] == rev@[rev@.len() - 1 - t],
            decreases i,
        {
            i -= 1;
            nodes.push(rev[i]);
        }
        proof {
            assert forall|t: int| 0 <= t < suffix.len() implies nodes@[t + 1] == #[trigger] arcs[suffix[t] as int].head by {
                assert(nodes@[t + 1] == rev@[rev@.len() - 2 - t]);
            }
            assert(nodes@[0] == rev@[rev@.len() - 1]);
            assert(is_path(self.arcs(), self.source(), target as int, suffix));
            assert(path_cost(self.costs(), suffix) == self.distances@[target as int]->0);
        }
        Some(nodes)
    }

    /// The distance to `target`; `None` when it is unreachable.
    pub fn distance_to(&self, target: NodeId) -> (r: Option<Cost>)
        requires
            (target as int) < self.distances@.len(),
        ensures
            r == self.distances@[target as int],
    {
        self.distances[target as usize]
    }
}

/// A shortest path from `source` to `target` and its cost, or `None` when
/// `target` is unreachable.
pub fn shortest_path(graph: &DirectedGraph, source: NodeId, target: NodeId, costs: &[Cost]) -> (r: Option<(Cost, Vec<ArcId>)>)
    requires
        graph.wf(),
        (source as int) < graph.slots(),
        (target as int) < graph.slots(),
        costs.len() == graph.arcs@.len(),
    ensures
        r is None <==> !reachable(graph.arcs@, source as int, target as int),
        r matches Some((d, p)) ==> {
            &&& is_path(graph.arcs@, source as int, target as int, p@)
            &&& path_cost(costs@, p@) == d
            &&& is_distance(graph.arcs@, costs@, source as int, target as int, d as int)
        },
{
    let result = shortest_paths_from(graph, source, costs);
    let dist = result.distance_to(target);
    match dist {
        None => None,
        Some(d) => match result.path_to(target) {
            Some(path) => Some((d, path)),
            None => None,
        },
    }
}

} // verus!
