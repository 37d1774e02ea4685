//! Key-vertex elimination and vertex insertion: the moves that change a
//! tree's branching structure.
//!
//! A **key vertex** of a tree `T` here is a non-terminal vertex other than the
//! root with at least three tree edges. Deleting it and its edges leaves one
//! component per edge; they are reconnected greedily through `G - v`: while
//! more than one group remains, one multi-source search seeded with every kept
//! vertex at distance zero (a Voronoi diagram of the groups) is run, and the
//! cheapest arc `(x, y)` between two groups, with the search paths back from
//! `x` and `y`, joins two groups. Every search is cut off at the cost of `v`'s
//! own star. The tree is then rebuilt by [`mst_prune`] over the kept vertices,
//! without `v`, and returned only when it is strictly cheaper.
//!
//! **Vertex insertion** goes the other way: for a vertex `w` outside `T` with
//! at least two neighbours inside it, the tree rebuilt over `V(T) ∪ {w}` is
//! returned when it is strictly cheaper.
//!
//! Only this is claimed of a returned tree: it is an arborescence out of the
//! root over the vertices it was rebuilt from, its cost is the sum of its arc
//! costs, and it is strictly cheaper than the tree given.
use vstd::prelude::*;
use crate::graph::types::{Arc, ArcId, Cost, NodeId};
use crate::graph::algorithms::dual_ascent::{ArcIndex, ids_out_of, lemma_ids_out_of, count_true, lemma_count_true_le, lemma_count_true_set, lemma_count_true_zero};
use crate::graph::algorithms::vertex_sets::{strictly_sorted, sorted_set, sorted_without, list_copy};
use super::sph::{mst_prune, find, uf_ok, paired, oriented_tree, inside, arc_sum, saturated, SphResult, SphWorkspace, first_cheapest, lemma_first_cheapest_push};

verus! {

/// Marks a vertex reached by no search.
pub const UNREACHED: Cost = 0xFFFF_FFFF_FFFF_FFFFu64;

/// Marks a seed, which has no parent arc.
pub const NO_ARC: u32 = 0xFFFF_FFFFu32;

/// Marks a vertex outside every component.
pub const NO_COMPONENT: u32 = 0xFFFF_FFFFu32;

/// The tree as undirected adjacency lists, reused across calls.
pub struct KeyVertexWorkspace {
    pub adj: Vec<Vec<(NodeId, ArcId)>>,
    pub degree: Vec<u32>,
    /// The tree rebuilt without each vertex in the last elimination pass,
    /// by vertex (`None` where the vertex was not tried or nothing improved).
    pub runs: Ghost<Seq<Option<SphResult>>>,
}

impl KeyVertexWorkspace {
    /// Room for `n` vertices.
    pub open spec fn sized(&self, n: int) -> bool {
        &&& self.adj@.len() == n
        &&& self.degree@.len() == n
    }

    /// Room for `n` vertices, and every listed neighbour and arc exists.
    pub open spec fn wf(&self, arcs: Seq<Arc>, n: int) -> bool {
        &&& self.sized(n)
        &&& forall|x: int, j: int| 0 <= x < n && 0 <= j < self.adj@[x]@.len() ==>
            ((#[trigger] self.adj@[x]@[j]).0 as int) < n && (self.adj@[x]@[j].1 as int) < arcs.len()
    }

    pub fn new(num_nodes: usize) -> (ws: Self)
        ensures
            ws.sized(num_nodes as int),
    {
        let mut adj: Vec<Vec<(NodeId, ArcId)>> = Vec::new();
        let mut degree: Vec<u32> = Vec::new();
        let mut k: usize = 0;
        while k < num_nodes
            invariant
                k <= num_nodes,
                adj@.len() == k,
                degree@.len() == k,
            decreases num_nodes - k,
        {
            adj.push(Vec::new());
            degree.push(0);
            k += 1;
        }
        KeyVertexWorkspace { adj, degree, runs: Ghost(Seq::empty()) }
    }
}

/// What one Voronoi search leaves: each reached vertex carries the group of
/// the seed it came from and, unless it is a seed, an arc into it from a
/// reached vertex settled before it.
pub open spec fn voronoi_ok(arcs: Seq<Arc>, n: int, groups: int, dist: Seq<Cost>, parent: Seq<u32>, origin: Seq<u32>, ord: Seq<int>) -> bool {
    &&& dist.len() == n
    &&& parent.len() == n
    &&& origin.len() == n
    &&& ord.len() == n
    &&& forall|x: int| 0 <= x < n && #[trigger] dist[x] != UNREACHED ==> (origin[x] as int) < groups && ord[x] >= 0
    &&& forall|x: int| 0 <= x < n && dist[x] != UNREACHED && #[trigger] parent[x] != NO_ARC ==> {
        let a = parent[x] as int;
        &&& 0 <= a < arcs.len()
        &&& arcs[a].head == x
        &&& (arcs[a].tail as int) < n
        &&& dist[arcs[a].tail as int] != UNREACHED
        &&& ord[arcs[a].tail as int] < ord[x]
    }
}

/// The search in progress: reached vertices are listed, settled ones are
/// reached and numbered in settling order, and a parent arc leaves a settled
/// vertex, settled before its head when that is settled too.
pub open spec fn search_inv(
    arcs: Seq<Arc>,
    n: int,
    groups: int,
    dist: Seq<Cost>,
    parent: Seq<u32>,
    origin: Seq<u32>,
    settled: Seq<bool>,
    touched: Seq<NodeId>,
    ord: Seq<int>,
    time: int,
) -> bool {
    &&& dist.len() == n
    &&& parent.len() == n
    &&& origin.len() == n
    &&& settled.len() == n
    &&& ord.len() == n
    &&& forall|j: int| 0 <= j < touched.len() ==> (#[trigger] touched[j] as int) < n && dist[touched[j] as int] != UNREACHED
    &&& forall|x: int| 0 <= x < n && #[trigger] dist[x] != UNREACHED ==> touched.contains(x as NodeId) && (origin[x] as int) < groups
    &&& forall|x: int| 0 <= x < n && #[trigger] settled[x] ==> dist[x] != UNREACHED && 0 <= ord[x] < time
    &&& forall|x: int| 0 <= x < n && dist[x] != UNREACHED && #[trigger] parent[x] != NO_ARC ==> {
        let a = parent[x] as int;
        &&& 0 <= a < arcs.len()
        &&& arcs[a].head == x
        &&& (arcs[a].tail as int) < n
        &&& settled[arcs[a].tail as int]
        &&& (settled[x] ==> ord[arcs[a].tail as int] < ord[x])
    }
}

/// The reached, unsettled vertex of least distance among `touched`, if any.
pub(crate) fn select_open(dist: &Vec<Cost>, settled: &Vec<bool>, touched: &Vec<NodeId>) -> (r: Option<NodeId>)
    requires
        dist@.len() == settled@.len(),
        forall|j: int| 0 <= j < touched@.len() ==> (#[trigger] touched@[j] as int) < dist@.len(),
    ensures
        match r {
            Some(x) => touched@.contains(x) && !settled@[x as int],
            None => forall|j: int| 0 <= j < touched@.len() ==> settled@[#[trigger] touched@[j] as int],
        },
{
    let mut best: Option<NodeId> = None;
    let mut j: usize = 0;
    while j < touched.len()
        invariant
            dist@.len() == settled@.len(),
            forall|i: int| 0 <= i < touched@.len() ==> (#[trigger] touched@[i] as int) < dist@.len(),
            j <= touched@.len(),
            match best {
                Some(x) => touched@.contains(x) && !settled@[x as int] && (x as int) < dist@.len(),
                None => forall|i: int| 0 <= i < j ==> settled@[#[trigger] touched@[i] as int],
            },
        decreases touched@.len() - j,
    {
        let x = touched[j];
        if !settled[x as usize] {
            match best {
                None => {
                    best = Some(x);
                },
                Some(b) => {
                    if dist[x as usize] < dist[b as usize] {
                        best = Some(x);
                    }
                },
            }
        }
        j += 1;
    }
    best
}

/// One multi-source search in `G - v` over active arcs, seeded with every
/// vertex of `seeds` at distance zero and the group given for it; each
/// reached vertex inherits the group of the seed that reached it. Nothing
/// beyond `budget` is reached. Returns the distances, parent arcs, groups and
/// the reached vertices.
fn voronoi(
    idx: &ArcIndex,
    active: &[bool],
    v: NodeId,
    budget: Cost,
    seeds: &Vec<NodeId>,
    seed_group: &Vec<u32>,
    groups: usize,
) -> (r: (Vec<Cost>, Vec<ArcId>, Vec<u32>, Vec<NodeId>, Ghost<Seq<int>>))
    requires
        idx.wf(),
        active@.len() >= idx.tails@.len(),
        seed_group@.len() == seeds@.len(),
        forall|j: int| 0 <= j < seeds@.len() ==> (#[trigger] seeds@[j] as int) < idx.num_nodes,
        forall|j: int| 0 <= j < seed_group@.len() ==> (#[trigger] seed_group@[j] as int) < groups,
    ensures
        voronoi_ok(idx.arcs(), idx.num_nodes as int, groups as int, r.0@, r.1@, r.2@, r.4@),
        forall|j: int| 0 <= j < r.3@.len() ==> (#[trigger] r.3@[j] as int) < idx.num_nodes && r.0@[r.3@[j] as int] != UNREACHED,
{
    let n = idx.num_nodes();
    let ghost arcs = idx.arcs();
    let mut dist: Vec<Cost> = Vec::new();
    let mut parent: Vec<ArcId> = Vec::new();
    let mut origin: Vec<u32> = Vec::new();
    let mut settled: Vec<bool> = Vec::new();
    let mut k: usize = 0;
    while k < n
        invariant
            k <= n,
            dist@.len() == k,
            parent@.len() == k,
            origin@.len() == k,
            settled@.len() == k,
            forall|x: int| 0 <= x < k ==> #[trigger] dist@[x] == UNREACHED,
            forall|x: int| 0 <= x < k ==> !(#[trigger] settled@[x]),
        decreases n - k,
    {
        dist.push(UNREACHED);
        parent.push(NO_ARC);
        origin.push(NO_COMPONENT);
        settled.push(false);
        k += 1;
    }
    let ghost mut ord: Seq<int> = Seq::new(n as nat, |x: int| 0int);
    let ghost mut time: int = 0;
    let mut touched: Vec<NodeId> = Vec::new();
    let mut s: usize = 0;
    while s < seeds.len()
        invariant
            idx.wf(),
            arcs == idx.arcs(),
            n == idx.num_nodes,
            seed_group@.len() == seeds@.len(),
            forall|j: int| 0 <= j < seeds@.len() ==> (#[trigger] seeds@[j] as int) < n,
            forall|j: int| 0 <= j < seed_group@.len() ==> (#[trigger] seed_group@[j] as int) < groups,
            s <= seeds@.len(),
            time == 0,
            forall|x: int| 0 <= x < n ==> !(#[trigger] settled@[x]),
            search_inv(arcs, n as int, groups as int, dist@, parent@, origin@, settled@, touched@, ord, time),
        decreases seeds@.len() - s,
    {
        let x = seeds[s];
        let ghost t0 = touched@;
        dist.set(x as usize, 0);
        parent.set(x as usize, NO_ARC);
        origin.set(x as usize, seed_group[s]);
        touched.push(x);
        proof {
            assert(touched@.last() == x);
            assert forall|w: int| 0 <= w < n && #[trigger] dist@[w] != UNREACHED implies
                touched@.contains(w as NodeId) && (origin@[w] as int) < groups by {
                if w != x as int {
                    let j = choose|j: int| 0 <= j < t0.len() && t0[j] == w as NodeId;
                    assert(touched@[j] == t0[j]);
                }
            }
            assert forall|j: int| 0 <= j < touched@.len() implies (#[trigger] touched@[j] as int) < n && dist@[touched@[j] as int] != UNREACHED by {
                if j < t0.len() {
                    assert(touched@[j] == t0[j]);
                }
            }
        }
        s += 1;
    }
    let mut count: usize = 0;
    proof {
        assert(settled@ =~= Seq::new(n as nat, |x: int| false));
        lemma_count_true_zero(n as nat);
    }
    loop
        invariant
            idx.wf(),
            arcs == idx.arcs(),
            n == idx.num_nodes,
            active@.len() >= idx.tails@.len(),
            search_inv(arcs, n as int, groups as int, dist@, parent@, origin@, settled@, touched@, ord, time),
            count == count_true(settled@),
            time >= 0,
        ensures
            search_inv(arcs, n as int, groups as int, dist@, parent@, origin@, settled@, touched@, ord, time),
            forall|j: int| 0 <= j < touched@.len() ==> settled@[#[trigger] touched@[j] as int],
        decreases n - count,
    {
        proof {
            lemma_count_true_le(settled@);
        }
        let x = match select_open(&dist, &settled, &touched) {
            Some(x) => x,
            None => break,
        };
        proof {
            let j = choose|j: int| 0 <= j < touched@.len() && touched@[j] == x;
            assert((touched@[j] as int) < n);
            lemma_count_true_set(settled@, x as int);
            lemma_count_true_le(settled@.update(x as int, true));
        }
        settled.set(x as usize, true);
        count = count + 1;
        proof {
            ord = ord.update(x as int, time);
            time = time + 1;
            assert forall|w: int| 0 <= w < n && dist@[w] != UNREACHED && #[trigger] parent@[w] != NO_ARC implies {
                let a = parent@[w] as int;
                &&& 0 <= a < arcs.len()
                &&& arcs[a].head == w
                &&& (arcs[a].tail as int) < n
                &&& settled@[arcs[a].tail as int]
                &&& (settled@[w] ==> ord[arcs[a].tail as int] < ord[w])
            } by {
                let a = parent@[w] as int;
                if w == x as int {
                    assert(arcs[a].tail != x);
                }
            }
        }
        let dx = dist[x as usize];
        let out = idx.outgoing(x);
        proof {
            lemma_ids_out_of(arcs, x as int);
        }
        let mut i: usize = 0;
        while i < out.len()
            invariant
                idx.wf(),
                arcs == idx.arcs(),
                n == idx.num_nodes,
                active@.len() >= idx.tails@.len(),
                (x as int) < n,
                settled@[x as int],
                dx == dist@[x as int],
                dx != UNREACHED,
                (origin@[x as int] as int) < groups,
                out@ == ids_out_of(arcs, x as int),
                forall|k: int| 0 <= k < out@.len() ==> (#[trigger] out@[k]) < arcs.len() && arcs[out@[k] as int].tail == x,
                i <= out@.len(),
                search_inv(arcs, n as int, groups as int, dist@, parent@, origin@, settled@, touched@, ord, time),
                count == count_true(settled@),
            decreases out@.len() - i,
        {
            let a = out[i];
            if active[a as usize] {
                let y = idx.head(a);
                if y != v && (y as usize) < n && !settled[y as usize] {
                    let nd = dx.saturating_add(idx.cost(a));
                    if nd <= budget && nd < dist[y as usize] {
                        let ghost t0 = touched@;
                        if dist[y as usize] == UNREACHED {
                            touched.push(y);
                        }
                        dist.set(y as usize, nd);
                        parent.set(y as usize, a);
                        let gx = origin[x as usize];
                        origin.set(y as usize, gx);
                        proof {
                            assert forall|w: int| 0 <= w < n && #[trigger] dist@[w] != UNREACHED implies
                                touched@.contains(w as NodeId) && (origin@[w] as int) < groups by {
                                if w != y as int {
                                    let j = choose|j: int| 0 <= j < t0.len() && t0[j] == w as NodeId;
                                    if touched@.len() > t0.len() {
                                        assert(touched@[j] == t0[j]);
                                    }
                                } else if touched@.len() > t0.len() {
                                    assert(touched@[t0.len() as int] == y);
                                }
                            }
                            assert forall|j: int| 0 <= j < touched@.len() implies (#[trigger] touched@[j] as int) < n && dist@[touched@[j] as int] != UNREACHED by {
                                if j < t0.len() {
                                    assert(touched@[j] == t0[j]);
                                }
                            }
                        }
                    }
                }
            }
            i += 1;
        }
    }
    proof {
        assert forall|w: int| 0 <= w < n && #[trigger] dist@[w] != UNREACHED implies (origin@[w] as int) < groups && ord[w] >= 0 by {
            let j = choose|j: int| 0 <= j < touched@.len() && touched@[j] == w as NodeId;
            assert(settled@[touched@[j] as int]);
        }
        assert forall|w: int| 0 <= w < n && dist@[w] != UNREACHED && #[trigger] parent@[w] != NO_ARC implies {
            let a = parent@[w] as int;
            &&& 0 <= a < arcs.len()
            &&& arcs[a].head == w
            &&& (arcs[a].tail as int) < n
            &&& dist@[arcs[a].tail as int] != UNREACHED
            &&& ord[arcs[a].tail as int] < ord[w]
        } by {
            let j = choose|j: int| 0 <= j < touched@.len() && touched@[j] == w as NodeId;
            assert(settled@[touched@[j] as int]);
        }
    }
    (dist, parent, origin, touched, Ghost(ord))
}

/// The vertices from `start` back along parent arcs to its seed.
fn walk_back(idx: &ArcIndex, dist: &Vec<Cost>, parent: &Vec<ArcId>, start: NodeId, Ghost(groups): Ghost<int>, Ghost(origin): Ghost<Seq<u32>>, Ghost(ord): Ghost<Seq<int>>) -> (r: Vec<NodeId>)
    requires
        idx.wf(),
        voronoi_ok(idx.arcs(), idx.num_nodes as int, groups, dist@, parent@, origin, ord),
        (start as int) < idx.num_nodes,
        dist@[start as int] != UNREACHED,
    ensures
        forall|j: int| 0 <= j < r@.len() ==> (#[trigger] r@[j] as int) < idx.num_nodes,
        r@.len() >= 1,
        r@[0] == start,
        parent@[r@.last() as int] == NO_ARC,
        forall|j: int| 0 <= j < r@.len() - 1 ==> parent@[#[trigger] r@[j] as int] != NO_ARC
            && r@[j + 1] == idx.arcs()[parent@[r@[j] as int] as int].tail,
{
    let ghost arcs = idx.arcs();
    let ghost n = idx.num_nodes as int;
    let mut out: Vec<NodeId> = Vec::new();
    let mut cur = start;
    out.push(cur);
    while parent[cur as usize] != NO_ARC
        invariant
            idx.wf(),
            arcs == idx.arcs(),
            n == idx.num_nodes,
            voronoi_ok(arcs, n, groups, dist@, parent@, origin, ord),
            (cur as int) < n,
            dist@[cur as int] != UNREACHED,
            forall|j: int| 0 <= j < out@.len() ==> (#[trigger] out@[j] as int) < n,
            out@.len() >= 1,
            out@[0] == start,
            out@.last() == cur,
            forall|j: int| 0 <= j < out@.len() - 1 ==> parent@[#[trigger] out@[j] as int] != NO_ARC
                && out@[j + 1] == arcs[parent@[out@[j] as int] as int].tail,
        decreases ord[cur as int],
    {
        let ghost before = out@;
        let a = parent[cur as usize];
        proof {
            assert(parent@[cur as int] != NO_ARC);
        }
        let next = idx.tail(a);
        proof {
            assert(ord[next as int] < ord[cur as int]);
            assert(ord[next as int] >= 0);
        }
        cur = next;
        out.push(cur);
        proof {
            assert forall|j: int| 0 <= j < out@.len() - 1 implies parent@[#[trigger] out@[j] as int] != NO_ARC
                && out@[j + 1] == arcs[parent@[out@[j] as int] as int].tail by {
                assert(out@[j] == before[j]);
                if j < before.len() - 1 {
                    assert(out@[j + 1] == before[j + 1]);
                }
            }
        }
    }
    out
}

/// `res` is an arborescence out of `root` over active arcs (or their
/// partners), and its cost is the sum of its arc costs.
pub open spec fn rebuilt(arcs: Seq<Arc>, active: Seq<bool>, root: int, res: SphResult) -> bool {
    &&& exists|tn: Seq<NodeId>| #[trigger] oriented_tree(arcs, active, root, tn, res.arcs@)
    &&& res.cost == saturated(arc_sum(arcs, res.arcs@))
}

/// No arc of `res` touches `v`.
pub open spec fn avoids(arcs: Seq<Arc>, res: SphResult, v: int) -> bool {
    forall|k: int| 0 <= k < res.arcs@.len() ==> arcs[#[trigger] res.arcs@[k] as int].tail != v
        && arcs[res.arcs@[k] as int].head != v
}

/// The tree rebuilt over the vertices of `nodes` and the root, without `v`.
fn rebuild_without(
    idx: &ArcIndex,
    active: &[bool],
    root: NodeId,
    nodes: &Vec<NodeId>,
    is_terminal: &[bool],
    v: NodeId,
    sws: &mut SphWorkspace,
) -> (r: SphResult)
    requires
        idx.wf(),
        paired(idx.arcs()),
        active@.len() >= idx.tails@.len(),
        (root as int) < idx.num_nodes,
        v != root,
        is_terminal@.len() >= idx.num_nodes,
        forall|j: int| 0 <= j < nodes@.len() ==> (#[trigger] nodes@[j] as int) < idx.num_nodes,
        old(sws).wf(idx.num_nodes as int),
    ensures
        final(sws).wf(idx.num_nodes as int),
        rebuilt(idx.arcs(), active@, root as int, r),
        avoids(idx.arcs(), r, v as int),
{
    let mut all = list_copy(nodes);
    all.push(root);
    let set = sorted_set(&all);
    let kept = sorted_without(&set, v);
    proof {
        assert forall|j: int| 0 <= j < kept@.len() implies (#[trigger] kept@[j] as int) < idx.num_nodes by {
            let x = kept@[j];
            assert(kept@.to_set().contains(x));
            assert(set@.to_set().contains(x));
            assert(all@.to_set().contains(x));
            let i = choose|i: int| 0 <= i < all@.len() && all@[i] == x;
            if i < nodes@.len() {
                assert(all@[i] == nodes@[i]);
            }
        }
    }
    let r = mst_prune(idx, active, root, kept.as_slice(), is_terminal, sws);
    proof {
        let arcs = idx.arcs();
        assert forall|k: int| 0 <= k < r.arcs@.len() implies arcs[#[trigger] r.arcs@[k] as int].tail != v
            && arcs[r.arcs@[k] as int].head != v by {
            assert(inside(kept@, root as int, arcs[r.arcs@[k] as int].tail as int));
            assert(inside(kept@, root as int, arcs[r.arcs@[k] as int].head as int));
            if kept@.contains(v) {
                assert(kept@.to_set().contains(v));
            }
        }
    }
    r
}

/// Delete `v` from the tree held in `ws` and reconnect the pieces through
/// `G - v`; the rebuilt tree when it is strictly cheaper than `solution`.
#[verifier::rlimit(40)]
fn eliminate_one(
    idx: &ArcIndex,
    active: &[bool],
    root: NodeId,
    solution: &SphResult,
    is_terminal: &[bool],
    v: NodeId,
    ws: &KeyVertexWorkspace,
    sws: &mut SphWorkspace,
) -> (r: Option<SphResult>)
    requires
        idx.wf(),
        paired(idx.arcs()),
        active@.len() >= idx.tails@.len(),
        (root as int) < idx.num_nodes,
        (v as int) < idx.num_nodes,
        v != root,
        is_terminal@.len() >= idx.num_nodes,
        ws.wf(idx.arcs(), idx.num_nodes as int),
        old(sws).wf(idx.num_nodes as int),
    ensures
        final(sws).wf(idx.num_nodes as int),
        r matches Some(res) ==> rebuilt(idx.arcs(), active@, root as int, res)
            && avoids(idx.arcs(), res, v as int) && res.cost < solution.cost,
{
    let n = idx.num_nodes();
    let ghost arcs = idx.arcs();
    // The components of `T - v`, by flooding the tree from each neighbour of
    // `v` without crossing `v`.
    let mut seen: Vec<bool> = Vec::new();
    let mut component: Vec<u32> = Vec::new();
    let mut k: usize = 0;
    while k < n
        invariant
            k <= n,
            seen@.len() == k,
            component@.len() == k,
            forall|x: int| 0 <= x < k ==> !(#[trigger] seen@[x]),
        decreases n - k,
    {
        seen.push(false);
        component.push(NO_COMPONENT);
        k += 1;
    }
    proof {
        assert(seen@ =~= Seq::new(n as nat, |x: int| false));
        lemma_count_true_zero(n as nat);
        lemma_count_true_set(seen@, v as int);
    }
    seen.set(v as usize, true);
    let mut count: usize = 1;
    let mut num_components: u32 = 0;
    let mut members: Vec<NodeId> = Vec::new();
    let mut q: usize = 0;
    while q < ws.adj[v as usize].len()
        invariant
            idx.wf(),
            n == idx.num_nodes,
            (v as int) < n,
            ws.wf(idx.arcs(), n as int),
            seen@.len() == n,
            component@.len() == n,
            seen@[v as int],
            count == count_true(seen@),
            (num_components as int) < count,
            forall|x: int| 0 <= x < n && #[trigger] seen@[x] && x != v ==> (component@[x] as int) < num_components,
            forall|j: int| 0 <= j < members@.len() ==> (#[trigger] members@[j] as int) < n
                && seen@[members@[j] as int] && members@[j] != v,
            q <= ws.adj@[v as int]@.len(),
        decreases ws.adj@[v as int]@.len() - q,
    {
        let start = ws.adj[v as usize][q].0;
        proof {
            assert((ws.adj@[v as int]@[q as int].0 as int) < n);
        }
        if !seen[start as usize] {
            let id = num_components;
            proof {
                lemma_count_true_set(seen@, start as int);
                lemma_count_true_le(seen@.update(start as int, true));
            }
            seen.set(start as usize, true);
            count = count + 1;
            num_components = num_components + 1;
            component.set(start as usize, id);
            let mut stack: Vec<NodeId> = Vec::new();
            stack.push(start);
            while stack.len() > 0
                invariant
                    idx.wf(),
                    n == idx.num_nodes,
                    (v as int) < n,
                    ws.wf(idx.arcs(), n as int),
                    seen@.len() == n,
                    component@.len() == n,
                    seen@[v as int],
                    count == count_true(seen@),
                    count <= n,
                    (num_components as int) < count,
                    id < num_components,
                    forall|x: int| 0 <= x < n && #[trigger] seen@[x] && x != v ==> (component@[x] as int) < num_components,
                    forall|j: int| 0 <= j < members@.len() ==> (#[trigger] members@[j] as int) < n
                        && seen@[members@[j] as int] && members@[j] != v,
                    forall|j: int| 0 <= j < stack@.len() ==> (#[trigger] stack@[j] as int) < n
                        && seen@[stack@[j] as int] && stack@[j] != v,
                decreases 2 * (n - count) + stack@.len(),
            {
                let ghost before = stack@;
                let x = match stack.pop() {
                    Some(x) => x,
                    None => break,
                };
                proof {
                    assert(stack@ == before.drop_last());
                    assert(x == before[before.len() - 1]);
                }
                let ghost c0 = count;
                members.push(x);
                let mut i: usize = 0;
                while i < ws.adj[x as usize].len()
                    invariant
                        idx.wf(),
                        n == idx.num_nodes,
                        (v as int) < n,
                        (x as int) < n,
                        ws.wf(idx.arcs(), n as int),
                        seen@.len() == n,
                        component@.len() == n,
                        seen@[v as int],
                        count == count_true(seen@),
                        count <= n,
                        (num_components as int) < count,
                        id < num_components,
                        forall|y: int| 0 <= y < n && #[trigger] seen@[y] && y != v ==> (component@[y] as int) < num_components,
                        forall|j: int| 0 <= j < stack@.len() ==> (#[trigger] stack@[j] as int) < n
                            && seen@[stack@[j] as int] && stack@[j] != v,
                        forall|j: int| 0 <= j < members@.len() ==> (#[trigger] members@[j] as int) < n
                            && seen@[members@[j] as int] && members@[j] != v,
                        i <= ws.adj@[x as int]@.len(),
                        before.len() >= 1,
                        2 * (n - count) + stack@.len() <= 2 * (n - c0) + before.len() - 1,
                    decreases ws.adj@[x as int]@.len() - i,
                {
                    let y = ws.adj[x as usize][i].0;
                    proof {
                        assert((ws.adj@[x as int]@[i as int].0 as int) < n);
                    }
                    if !seen[y as usize] {
                        proof {
                            lemma_count_true_set(seen@, y as int);
                            lemma_count_true_le(seen@.update(y as int, true));
                        }
                        seen.set(y as usize, true);
                        count = count + 1;
                        component.set(y as usize, id);
                        stack.push(y);
                    }
                    i += 1;
                }
            }
        }
        q += 1;
    }
    if num_components < 2 {
        return None;
    }
    let mut nodes = list_copy(&members);
    // The groups, by union-find over component ids.
    let mut union: Vec<u32> = Vec::new();
    let mut c: u32 = 0;
    while c < num_components
        invariant
            c <= num_components,
            union@.len() == c,
            forall|i: int| 0 <= i < c ==> #[trigger] union@[i] == i,
        decreases num_components - c,
    {
        union.push(c);
        c += 1;
    }
    let ghost mut level: Seq<int> = Seq::new(num_components as nat, |i: int| 0int);
    let ghost mut bound: int = 0;
    // Nothing above the star's own cost can pay for itself.
    let mut budget: Cost = 0;
    let mut q: usize = 0;
    while q < ws.adj[v as usize].len()
        invariant
            idx.wf(),
            n == idx.num_nodes,
            (v as int) < n,
            ws.wf(idx.arcs(), n as int),
            q <= ws.adj@[v as int]@.len(),
        decreases ws.adj@[v as int]@.len() - q,
    {
        let a = ws.adj[v as usize][q].1;
        proof {
            assert((ws.adj@[v as int]@[q as int].1 as int) < idx.tails@.len());
        }
        budget = budget.saturating_add(idx.cost(a));
        q += 1;
    }
    let mut round: u32 = 1;
    while round < num_components
        invariant
            idx.wf(),
            arcs == idx.arcs(),
            n == idx.num_nodes,
            paired(arcs),
            active@.len() >= idx.tails@.len(),
            (v as int) < n,
            (root as int) < n,
            v != root,
            is_terminal@.len() >= n,
            component@.len() == n,
            union@.len() == num_components,
            uf_ok(union@, level, bound),
            forall|j: int| 0 <= j < nodes@.len() ==> (#[trigger] nodes@[j] as int) < n
                && (component@[nodes@[j] as int] as int) < num_components,
            sws.wf(n as int),
        decreases num_components - round,
    {
        // Every kept vertex seeds the search with its group.
        let mut seed_group: Vec<u32> = Vec::new();
        let mut s: usize = 0;
        while s < nodes.len()
            invariant
                component@.len() == n,
                union@.len() == num_components,
                uf_ok(union@, level, bound),
                forall|j: int| 0 <= j < nodes@.len() ==> (#[trigger] nodes@[j] as int) < n
                    && (component@[nodes@[j] as int] as int) < num_components,
                s <= nodes@.len(),
                seed_group@.len() == s,
                forall|j: int| 0 <= j < s ==> (#[trigger] seed_group@[j] as int) < num_components,
            decreases nodes@.len() - s,
        {
            let cx = component[nodes[s] as usize];
            proof {
                assert((component@[nodes@[s as int] as int] as int) < num_components);
            }
            let g = find(&mut union, cx, Ghost(level), Ghost(bound));
            seed_group.push(g);
            s += 1;
        }
        let (dist, parent, origin, touched, Ghost(ord)) = voronoi(idx, active, v, budget, &nodes, &seed_group, num_components as usize);
        // The cheapest arc between two groups, through the search distances
        // at both ends.
        let mut link: Option<(Cost, ArcId)> = None;
        let mut t: usize = 0;
        while t < touched.len()
            invariant
                idx.wf(),
                arcs == idx.arcs(),
                n == idx.num_nodes,
                active@.len() >= idx.tails@.len(),
                voronoi_ok(arcs, n as int, num_components as int, dist@, parent@, origin@, ord),
                forall|j: int| 0 <= j < touched@.len() ==> (#[trigger] touched@[j] as int) < n && dist@[touched@[j] as int] != UNREACHED,
                t <= touched@.len(),
                link matches Some((_, a)) ==> (a as int) < arcs.len() && (arcs[a as int].tail as int) < n
                    && (arcs[a as int].head as int) < n
                    && dist@[arcs[a as int].tail as int] != UNREACHED && dist@[arcs[a as int].head as int] != UNREACHED,
            decreases touched@.len() - t,
        {
            let x = touched[t];
            proof {
                assert((touched@[t as int] as int) < n);
            }
            if dist[x as usize] != UNREACHED {
                let out = idx.outgoing(x);
                proof {
                    lemma_ids_out_of(arcs, x as int);
                }
                let mut i: usize = 0;
                while i < out.len()
                    invariant
                        idx.wf(),
                        arcs == idx.arcs(),
                        n == idx.num_nodes,
                        active@.len() >= idx.tails@.len(),
                        (x as int) < n,
                        dist@.len() == n,
                        origin@.len() == n,
                        dist@[x as int] != UNREACHED,
                        out@ == ids_out_of(arcs, x as int),
                        forall|k2: int| 0 <= k2 < out@.len() ==> (#[trigger] out@[k2]) < arcs.len() && arcs[out@[k2] as int].tail == x,
                        i <= out@.len(),
                        link matches Some((_, a)) ==> (a as int) < arcs.len() && (arcs[a as int].tail as int) < n
                            && (arcs[a as int].head as int) < n
                            && dist@[arcs[a as int].tail as int] != UNREACHED && dist@[arcs[a as int].head as int] != UNREACHED,
                    decreases out@.len() - i,
                {
                    let a = out[i];
                    if active[a as usize] {
                        let y = idx.head(a);
                        if y != v && dist[y as usize] != UNREACHED && origin[x as usize] != origin[y as usize] {
                            let w = dist[x as usize].saturating_add(idx.cost(a)).saturating_add(dist[y as usize]);
                            let better = match link {
                                None => true,
                                Some((b, _)) => w < b,
                            };
                            if better {
                                link = Some((w, a));
                            }
                        }
                    }
                    i += 1;
                }
            }
            t += 1;
        }
        let join = match link {
            Some((_, a)) => a,
            // The components cannot be reconnected without `v`.
            None => return None,
        };
        let ta = idx.tail(join);
        let hb = idx.head(join);
        let ga = origin[ta as usize];
        let gb = origin[hb as usize];
        let ra = find(&mut union, ga, Ghost(level), Ghost(bound));
        let rb = find(&mut union, gb, Ghost(level), Ghost(bound));
        if ra != rb {
            union.set(ra as usize, rb);
            proof {
                let lv = if level[rb as int] > level[ra as int] { level[rb as int] } else { level[ra as int] + 1 };
                level = level.update(rb as int, lv);
                bound = bound + 1;
                assert forall|i2: int| 0 <= i2 < union@.len() && union@[i2] != i2 implies level[i2] < level[#[trigger] union@[i2] as int] by {}
            }
        }
        // Both halves of the joining path, back to their own groups, join
        // the merged group.
        let left = walk_back(idx, &dist, &parent, ta, Ghost(num_components as int), Ghost(origin@), Ghost(ord));
        let right = walk_back(idx, &dist, &parent, hb, Ghost(num_components as int), Ghost(origin@), Ghost(ord));
        let mut j: usize = 0;
        while j < left.len()
            invariant
                component@.len() == n,
                (rb as int) < num_components,
                forall|i2: int| 0 <= i2 < left@.len() ==> (#[trigger] left@[i2] as int) < n,
                forall|i2: int| 0 <= i2 < nodes@.len() ==> (#[trigger] nodes@[i2] as int) < n
                    && (component@[nodes@[i2] as int] as int) < num_components,
                j <= left@.len(),
            decreases left@.len() - j,
        {
            let x = left[j];
            nodes.push(x);
            component.set(x as usize, rb);
            j += 1;
        }
        let mut j: usize = 0;
        while j < right.len()
            invariant
                component@.len() == n,
                (rb as int) < num_components,
                forall|i2: int| 0 <= i2 < right@.len() ==> (#[trigger] right@[i2] as int) < n,
                forall|i2: int| 0 <= i2 < nodes@.len() ==> (#[trigger] nodes@[i2] as int) < n
                    && (component@[nodes@[i2] as int] as int) < num_components,
                j <= right@.len(),
            decreases right@.len() - j,
        {
            let x = right[j];
            nodes.push(x);
            component.set(x as usize, rb);
            j += 1;
        }
        round += 1;
    }
    // `v` must not creep back in through the induced subgraph.
    let rebuilt_tree = rebuild_without(idx, active, root, &nodes, is_terminal, v, sws);
    if rebuilt_tree.cost < solution.cost {
        Some(rebuilt_tree)
    } else {
        None
    }
}

/// Try deleting each non-terminal key vertex of `solution` in turn: the
/// cheapest rebuilt tree (the first among equals), when one is strictly
/// cheaper than `solution`.
pub fn key_vertex_elimination(
    idx: &ArcIndex,
    active: &[bool],
    root: NodeId,
    solution: &SphResult,
    is_terminal: &[bool],
    ws: &mut KeyVertexWorkspace,
    sws: &mut SphWorkspace,
) -> (r: Option<SphResult>)
    requires
        idx.wf(),
        paired(idx.arcs()),
        active@.len() >= idx.tails@.len(),
        (root as int) < idx.num_nodes,
        is_terminal@.len() >= idx.num_nodes,
        forall|k: int| 0 <= k < solution.arcs@.len() ==> (#[trigger] solution.arcs@[k] as int) < idx.tails@.len(),
        old(ws).sized(idx.num_nodes as int),
        old(sws).wf(idx.num_nodes as int),
    ensures
        final(ws).wf(idx.arcs(), idx.num_nodes as int),
        final(sws).wf(idx.num_nodes as int),
        r matches Some(res) ==> rebuilt(idx.arcs(), active@, root as int, res) && res.cost < solution.cost,
        final(ws).runs@.len() == idx.num_nodes,
        forall|v: int| 0 <= v < idx.num_nodes && (#[trigger] final(ws).runs@[v]) is Some ==> {
            &&& v != root
            &&& !is_terminal@[v]
            &&& final(ws).degree@[v] >= 3
            &&& rebuilt(idx.arcs(), active@, root as int, final(ws).runs@[v]->Some_0)
            &&& avoids(idx.arcs(), final(ws).runs@[v]->Some_0, v)
            &&& final(ws).runs@[v]->Some_0.cost < solution.cost
        },
        first_cheapest(final(ws).runs@, r),
{
    let n = idx.num_nodes();
    let ghost arcs = idx.arcs();
    // The tree as undirected adjacency lists.
    let mut x: usize = 0;
    while x < n
        invariant
            n == idx.num_nodes,
            ws.sized(n as int),
            x <= n,
            forall|y: int, j: int| 0 <= y < x && 0 <= j < ws.adj@[y]@.len() ==>
                ((#[trigger] ws.adj@[y]@[j]).0 as int) < n && (ws.adj@[y]@[j].1 as int) < arcs.len(),
        decreases n - x,
    {
        ws.adj[x] = Vec::new();
        ws.degree.set(x, 0);
        x += 1;
    }
    let mut k: usize = 0;
    while k < solution.arcs.len()
        invariant
            idx.wf(),
            arcs == idx.arcs(),
            n == idx.num_nodes,
            forall|k2: int| 0 <= k2 < solution.arcs@.len() ==> (#[trigger] solution.arcs@[k2] as int) < idx.tails@.len(),
            ws.wf(arcs, n as int),
            k <= solution.arcs@.len(),
        decreases solution.arcs@.len() - k,
    {
        let a = solution.arcs[k];
        let t = idx.tail(a);
        let h = idx.head(a);
        let ghost before = ws.adj@;
        ws.adj[t as usize].push((h, a));
        ws.adj[h as usize].push((t, a));
        proof {
            assert forall|y: int, j: int| 0 <= y < n && 0 <= j < ws.adj@[y]@.len() implies
                ((#[trigger] ws.adj@[y]@[j]).0 as int) < n && (ws.adj@[y]@[j].1 as int) < arcs.len() by {
                if y != t as int && y != h as int {
                    assert(ws.adj@[y] == before[y]);
                } else if j < before[y]@.len() && !(y == h as int && t != h && j >= before[y]@.len()) {
                    if y == t as int && y == h as int {
                        if j < before[y]@.len() {
                            assert(ws.adj@[y]@[j] == before[y]@[j]);
                        }
                    } else {
                        assert(ws.adj@[y]@[j] == before[y]@[j]);
                    }
                }
            }
        }
        let dt = ws.degree[t as usize];
        ws.degree.set(t as usize, dt.saturating_add(1));
        let dh = ws.degree[h as usize];
        ws.degree.set(h as usize, dh.saturating_add(1));
        k += 1;
    }
    let mut best: Option<SphResult> = None;
    let ghost mut runs: Seq<Option<SphResult>> = Seq::empty();
    let mut w: usize = 0;
    while w < n
        invariant
            idx.wf(),
            arcs == idx.arcs(),
            n == idx.num_nodes,
            paired(arcs),
            active@.len() >= idx.tails@.len(),
            (root as int) < n,
            is_terminal@.len() >= n,
            ws.wf(arcs, n as int),
            sws.wf(n as int),
            w <= n,
            best matches Some(res) ==> rebuilt(arcs, active@, root as int, res) && res.cost < solution.cost,
            runs.len() == w,
            forall|v: int| 0 <= v < w && (#[trigger] runs[v]) is Some ==> {
                &&& v != root
                &&& !is_terminal@[v]
                &&& ws.degree@[v] >= 3
                &&& rebuilt(arcs, active@, root as int, runs[v]->Some_0)
                &&& avoids(arcs, runs[v]->Some_0, v)
                &&& runs[v]->Some_0.cost < solution.cost
            },
            first_cheapest(runs, best),
        decreases n - w,
    {
        let v = w as NodeId;
        let ghost old_runs = runs;
        let ghost old_best = best;
        let ghost mut got: Option<SphResult> = None;
        if v != root && !is_terminal[w] && ws.degree[w] >= 3 {
            match eliminate_one(idx, active, root, solution, is_terminal, v, ws, sws) {
                Some(res) => {
                    let replace = match &best {
                        None => true,
                        Some(b) => res.cost < b.cost,
                    };
                    proof {
                        got = Some(res);
                    }
                    if replace {
                        best = Some(res);
                    }
                },
                None => {},
            }
        }
        proof {
            runs = runs.push(got);
            lemma_first_cheapest_push(old_runs, old_best, got, best);
        }
        w += 1;
    }
    ws.runs = Ghost(runs);
    best
}

/// Try routing the tree through one more vertex: for each vertex outside
/// `solution` with at least two neighbours inside it, the tree rebuilt over
/// its vertices and that one. The cheapest (the first among equals), when
/// strictly cheaper than `solution`.
pub fn vertex_insertion(
    idx: &ArcIndex,
    active: &[bool],
    root: NodeId,
    solution: &SphResult,
    is_terminal: &[bool],
    sws: &mut SphWorkspace,
) -> (r: Option<SphResult>)
    requires
        idx.wf(),
        paired(idx.arcs()),
        active@.len() >= idx.tails@.len(),
        (root as int) < idx.num_nodes,
        is_terminal@.len() >= idx.num_nodes,
        forall|k: int| 0 <= k < solution.arcs@.len() ==> (#[trigger] solution.arcs@[k] as int) < idx.tails@.len(),
        old(sws).wf(idx.num_nodes as int),
    ensures
        final(sws).wf(idx.num_nodes as int),
        r matches Some(res) ==> rebuilt(idx.arcs(), active@, root as int, res) && res.cost < solution.cost,
        final(sws).runs@.len() == idx.num_nodes,
        forall|w: int| 0 <= w < idx.num_nodes && (#[trigger] final(sws).runs@[w]) is Some ==> {
            &&& rebuilt(idx.arcs(), active@, root as int, final(sws).runs@[w]->Some_0)
            &&& final(sws).runs@[w]->Some_0.cost < solution.cost
        },
        first_cheapest(final(sws).runs@, r),
{
    let n = idx.num_nodes();
    let ghost arcs = idx.arcs();
    let mut inside_tree: Vec<bool> = Vec::new();
    let mut contacts: Vec<u32> = Vec::new();
    let mut x: usize = 0;
    while x < n
        invariant
            x <= n,
            inside_tree@.len() == x,
            contacts@.len() == x,
        decreases n - x,
    {
        inside_tree.push(false);
        contacts.push(0);
        x += 1;
    }
    inside_tree.set(root as usize, true);
    let mut k: usize = 0;
    while k < solution.arcs.len()
        invariant
            idx.wf(),
            n == idx.num_nodes,
            forall|k2: int| 0 <= k2 < solution.arcs@.len() ==> (#[trigger] solution.arcs@[k2] as int) < idx.tails@.len(),
            inside_tree@.len() == n,
            k <= solution.arcs@.len(),
        decreases solution.arcs@.len() - k,
    {
        let a = solution.arcs[k];
        inside_tree.set(idx.tail(a) as usize, true);
        inside_tree.set(idx.head(a) as usize, true);
        k += 1;
    }
    let mut base: Vec<NodeId> = Vec::new();
    let mut x: usize = 0;
    while x < n
        invariant
            n == idx.num_nodes,
            n <= u32::MAX,
            inside_tree@.len() == n,
            x <= n,
            forall|j: int| 0 <= j < base@.len() ==> (#[trigger] base@[j] as int) < n,
        decreases n - x,
    {
        if inside_tree[x] {
            base.push(x as NodeId);
        }
        x += 1;
    }
    // Two contacts is the least that can help: one makes the vertex a
    // Steiner leaf, which the rebuild strips again.
    let mut j: usize = 0;
    while j < base.len()
        invariant
            idx.wf(),
            arcs == idx.arcs(),
            n == idx.num_nodes,
            active@.len() >= idx.tails@.len(),
            inside_tree@.len() == n,
            contacts@.len() == n,
            forall|i: int| 0 <= i < base@.len() ==> (#[trigger] base@[i] as int) < n,
            j <= base@.len(),
        decreases base@.len() - j,
    {
        let v = base[j];
        let out = idx.outgoing(v);
        proof {
            lemma_ids_out_of(arcs, v as int);
        }
        let mut i: usize = 0;
        while i < out.len()
            invariant
                idx.wf(),
                arcs == idx.arcs(),
                n == idx.num_nodes,
                active@.len() >= idx.tails@.len(),
                inside_tree@.len() == n,
                contacts@.len() == n,
                forall|k2: int| 0 <= k2 < out@.len() ==> (#[trigger] out@[k2]) < arcs.len(),
                i <= out@.len(),
            decreases out@.len() - i,
        {
            let a = out[i];
            if active[a as usize] {
                let h = idx.head(a);
                if !inside_tree[h as usize] {
                    let c = contacts[h as usize];
                    contacts.set(h as usize, c.saturating_add(1));
                }
            }
            i += 1;
        }
        j += 1;
    }
    let mut best: Option<SphResult> = None;
    let ghost mut runs: Seq<Option<SphResult>> = Seq::empty();
    let mut w: usize = 0;
    while w < n
        invariant
            idx.wf(),
            arcs == idx.arcs(),
            n == idx.num_nodes,
            n <= u32::MAX,
            runs.len() == w,
            forall|w2: int| 0 <= w2 < w && (#[trigger] runs[w2]) is Some ==> {
                &&& rebuilt(arcs, active@, root as int, runs[w2]->Some_0)
                &&& runs[w2]->Some_0.cost < solution.cost
            },
            first_cheapest(runs, best),
            paired(arcs),
            active@.len() >= idx.tails@.len(),
            (root as int) < n,
            is_terminal@.len() >= n,
            inside_tree@.len() == n,
            contacts@.len() == n,
            forall|i: int| 0 <= i < base@.len() ==> (#[trigger] base@[i] as int) < n,
            sws.wf(n as int),
            w <= n,
            best matches Some(res) ==> rebuilt(arcs, active@, root as int, res) && res.cost < solution.cost,
        decreases n - w,
    {
        let ghost old_runs = runs;
        let ghost old_best = best;
        let ghost mut got: Option<SphResult> = None;
        if !inside_tree[w] && contacts[w] >= 2 {
            let mut nodes = list_copy(&base);
            nodes.push(w as NodeId);
            proof {
                assert forall|i: int| 0 <= i < nodes@.len() implies (#[trigger] nodes@[i] as int) < n by {
                    if i < base@.len() {
                        assert(nodes@[i] == base@[i]);
                    }
                }
            }
            let res = mst_prune(idx, active, root, nodes.as_slice(), is_terminal, sws);
            if res.cost < solution.cost {
                let replace = match &best {
                    None => true,
                    Some(b) => res.cost < b.cost,
                };
                proof {
                    got = Some(res);
                    assert(oriented_tree(arcs, active@, root as int, nodes@, res.arcs@));
                }
                if replace {
                    best = Some(res);
                }
            }
        }
        proof {
            runs = runs.push(got);
            lemma_first_cheapest_push(old_runs, old_best, got, best);
            assert forall|w2: int| 0 <= w2 < w + 1 && (#[trigger] runs[w2]) is Some implies {
                &&& rebuilt(arcs, active@, root as int, runs[w2]->Some_0)
                &&& runs[w2]->Some_0.cost < solution.cost
            } by {
                if w2 < w {
                    assert(runs[w2] == old_runs[w2]);
                }
            }
        }
        w += 1;
    }
    sws.runs = Ghost(runs);
    best
}

} // verus!
