//! Recombination: the union of the arcs of the best solutions in a pool is
//! a small subgraph that holds every one of them; a tree is constructed
//! over it, mapped back to the graph, improved by local search, and kept in
//! the pool when it beats the best solution known.
use vstd::prelude::*;
use crate::graph::directed::{DirectedGraph, out_arcs, lemma_out_arcs_sound, lemma_out_arcs_complete};
use crate::graph::types::{Arc, ArcId, Cost, NodeId, NodeType};
use crate::graph::algorithms::rank_reduction::{by_cost, by_cost_order, cost_sorted};
use crate::graph::algorithms::dual_ascent::{count_true, lemma_count_true_le, lemma_count_true_set, lemma_count_true_zero};
use crate::model::SteinerSolution;
use super::PrimalHeuristic;
use super::constructive::ConstructiveHeuristic;
use super::local_search::{LocalSearchHeuristic, same_solution};
use super::sph::{arc_sum, saturated};

verus! {

/// Recombination over a pool of solutions kept cheapest first.
pub struct RecombinationHeuristic {
    pub graph: DirectedGraph,
    pub root: NodeId,
    pub terminals: Vec<NodeId>,
    pub solution_pool: Vec<SteinerSolution>,
    pub max_pool_size: usize,
    pub recombination_size: usize,
}

/// The objective values of a pool, in order.
pub open spec fn pool_costs(pool: Seq<SteinerSolution>) -> Seq<u64> {
    pool.map_values(|s: SteinerSolution| s.objective_value)
}

/// The pool ordered by objective value, ties kept in pool order.
pub open spec fn by_objective(pool: Seq<SteinerSolution>) -> Seq<SteinerSolution> {
    let o = by_cost_order(pool_costs(pool));
    Seq::new(pool.len(), |i: int| pool[o[i] as int])
}

/// Every arc of every solution of the pool is an arc of the graph.
pub open spec fn pool_arcs_ok(pool: Seq<SteinerSolution>, m: int) -> bool {
    forall|p: int, j: int| 0 <= p < pool.len() && 0 <= j < pool[p].arcs@.len() ==> (#[trigger] pool[p].arcs@[j] as int) < m
}

/// Some arc of `used` has the ends and cost of arc `a`.
pub open spec fn twin_in(arcs: Seq<Arc>, used: Seq<ArcId>, a: ArcId) -> bool {
    exists|i: int| 0 <= i < used.len() && (#[trigger] used[i] as int) < arcs.len()
        && arcs[used[i] as int].tail == arcs[a as int].tail
        && arcs[used[i] as int].head == arcs[a as int].head && arcs[used[i] as int].cost == arcs[a as int].cost
}

/// `a` is an arc of one of the first `k` solutions of the pool.
pub open spec fn parent_arc(pool: Seq<SteinerSolution>, k: int, a: ArcId) -> bool {
    exists|p: int, j: int| 0 <= p < k && 0 <= j < pool[p].arcs@.len() && #[trigger] pool[p].arcs@[j] == a
}

/// `a` is an arc of one of the first `k` solutions of the pool, or the
/// reverse of one (opposite ends, same cost).
pub open spec fn from_parents(arcs: Seq<Arc>, pool: Seq<SteinerSolution>, k: int, a: ArcId) -> bool {
    ||| parent_arc(pool, k, a)
    ||| exists|b: ArcId| #[trigger] parent_arc(pool, k, b) && arcs[a as int].tail == arcs[b as int].head
        && arcs[a as int].head == arcs[b as int].tail && arcs[a as int].cost == arcs[b as int].cost
}

/// `c` copies the arc `a` of `arcs`: the same ends and cost.
pub open spec fn copies(arcs: Seq<Arc>, c: Arc, a: ArcId) -> bool {
    &&& (a as int) < arcs.len()
    &&& c.tail == arcs[a as int].tail
    &&& c.head == arcs[a as int].head
    &&& c.cost == arcs[a as int].cost
}

/// `arcs` has an arc with the ends and cost of `c`.
pub open spec fn has_twin(arcs: Seq<Arc>, c: Arc) -> bool {
    exists|a: ArcId| #[trigger] copies(arcs, c, a)
}

/// `v` is an end of arc `a`.
pub open spec fn ends_at(arcs: Seq<Arc>, a: ArcId, v: int) -> bool {
    arcs[a as int].tail == v || arcs[a as int].head == v
}

/// `v` is an end of one of the arcs `ids`.
pub open spec fn on_arcs(arcs: Seq<Arc>, ids: Seq<ArcId>, v: int) -> bool {
    exists|k: int| 0 <= k < ids.len() && #[trigger] ends_at(arcs, ids[k], v)
}

/// `sol` is made of arcs of `arcs`, costs their sum (saturating), and
/// lists each of their ends once and nothing else.
pub open spec fn mapped_ok(arcs: Seq<Arc>, sol: SteinerSolution) -> bool {
    &&& forall|k: int| 0 <= k < sol.arcs@.len() ==> (#[trigger] sol.arcs@[k] as int) < arcs.len()
    &&& sol.objective_value == saturated(arc_sum(arcs, sol.arcs@))
    &&& sol.nodes@.no_duplicates()
    &&& forall|k: int| 0 <= k < sol.arcs@.len() ==> sol.nodes@.contains(arcs[#[trigger] sol.arcs@[k] as int].tail)
        && sol.nodes@.contains(arcs[sol.arcs@[k] as int].head)
    &&& forall|j: int| 0 <= j < sol.nodes@.len() ==> #[trigger] on_arcs(arcs, sol.arcs@, sol.nodes@[j] as int)
}

/// Add the end `v` of the arcs `ids` to the vertex list `l` unless it is
/// there already.
fn add_vertex(l: &mut Vec<NodeId>, v: NodeId, Ghost(arcs): Ghost<Seq<Arc>>, Ghost(ids): Ghost<Seq<ArcId>>)
    requires
        old(l)@.no_duplicates(),
        on_arcs(arcs, ids, v as int),
        forall|j: int| 0 <= j < old(l)@.len() ==> #[trigger] on_arcs(arcs, ids, old(l)@[j] as int),
    ensures
        final(l)@.no_duplicates(),
        final(l)@.contains(v),
        forall|j: int| 0 <= j < final(l)@.len() ==> #[trigger] on_arcs(arcs, ids, final(l)@[j] as int),
        forall|x: NodeId| old(l)@.contains(x) ==> final(l)@.contains(x),
{
    let ghost before = l@;
    push_new(l, v);
    proof {
        if !before.contains(v) {
            assert(l@[l@.len() - 1] == v);
            assert forall|x: NodeId| before.contains(x) implies l@.contains(x) by {
                let j = choose|j: int| 0 <= j < before.len() && before[j] == x;
                assert(l@[j] == x);
            }
        }
    }
}

/// Whether `v` is in `l`.
fn list_has(l: &Vec<NodeId>, v: NodeId) -> (r: bool)
    ensures
        r == l@.contains(v),
{
    let mut i: usize = 0;
    while i < l.len()
        invariant
            i <= l@.len(),
            forall|j: int| 0 <= j < i ==> l@[j] != v,
        decreases l@.len() - i,
    {
        if l[i] == v {
            return true;
        }
        i += 1;
    }
    false
}

/// Append `v` to `l` unless it is there already.
fn push_new(l: &mut Vec<NodeId>, v: NodeId)
    ensures
        final(l)@ == if old(l)@.contains(v) { old(l)@ } else { old(l)@.push(v) },
{
    if !list_has(l, v) {
        l.push(v);
    }
}

impl RecombinationHeuristic {
    /// Every vertex id the recombination copies is below `u32::MAX`, and so
    /// is the number of arcs.
    pub open spec fn ids_fit(&self) -> bool {
        &&& self.graph.num_nodes < u32::MAX
        &&& self.graph.slots() <= u32::MAX
        &&& self.graph.arcs@.len() < u32::MAX
        &&& self.root < u32::MAX
        &&& forall|t: int| 0 <= t < self.terminals@.len() ==> #[trigger] self.terminals@[t] < u32::MAX
    }

    pub fn new(graph: DirectedGraph, root: NodeId, terminals: Vec<NodeId>) -> (h: Self)
        ensures
            h.graph == graph,
            h.root == root,
            h.terminals@ == terminals@,
            h.solution_pool@.len() == 0,
            h.max_pool_size == 20,
            h.recombination_size == 4,
    {
        RecombinationHeuristic {
            graph,
            root,
            terminals,
            solution_pool: Vec::new(),
            max_pool_size: 20,
            recombination_size: 4,
        }
    }

    /// Add `solution` to the pool, order the pool by objective value (ties
    /// in pool order, the new solution last among equals) and keep the first
    /// `max_pool_size`.
    pub fn add_solution(&mut self, solution: SteinerSolution)
        ensures
            final(self).graph == old(self).graph,
            final(self).root == old(self).root,
            final(self).terminals == old(self).terminals,
            final(self).max_pool_size == old(self).max_pool_size,
            final(self).recombination_size == old(self).recombination_size,
            final(self).solution_pool@.len() == if old(self).max_pool_size < old(self).solution_pool@.len() + 1 {
                old(self).max_pool_size as int
            } else {
                old(self).solution_pool@.len() + 1int
            },
            forall|i: int| 0 <= i < final(self).solution_pool@.len() ==> same_solution(
                #[trigger] final(self).solution_pool@[i], by_objective(old(self).solution_pool@.push(solution))[i]),
            cost_sorted(pool_costs(old(self).solution_pool@.push(solution)),
                by_cost_order(pool_costs(old(self).solution_pool@.push(solution)))),
    {
        let ghost all = self.solution_pool@.push(solution);
        self.solution_pool.push(solution);
        let n = self.solution_pool.len();
        let mut costs: Vec<u64> = Vec::new();
        let mut i: usize = 0;
        while i < n
            invariant
                n == self.solution_pool@.len(),
                all == self.solution_pool@,
                i <= n,
                costs@ == pool_costs(all).take(i as int),
            decreases n - i,
        {
            costs.push(self.solution_pool[i].objective_value);
            proof {
                assert(pool_costs(all).take(i + 1) =~= pool_costs(all).take(i as int).push(all[i as int].objective_value));
            }
            i += 1;
        }
        proof {
            assert(pool_costs(all).take(n as int) =~= pool_costs(all));
        }
        let order = by_cost(costs.as_slice());
        let keep = if self.max_pool_size < n { self.max_pool_size } else { n };
        let mut kept: Vec<SteinerSolution> = Vec::new();
        let mut j: usize = 0;
        while j < keep
            invariant
                n == self.solution_pool@.len(),
                all == self.solution_pool@,
                keep <= n,
                costs@ == pool_costs(all),
                order@ == by_cost_order(costs@),
                cost_sorted(costs@, order@),
                j <= keep,
                kept@.len() == j,
                forall|q: int| 0 <= q < j ==> same_solution(#[trigger] kept@[q], by_objective(all)[q]),
            decreases keep - j,
        {
            let s = self.solution_pool[order[j]].duplicate();
            kept.push(s);
            j += 1;
        }
        self.solution_pool = kept;
    }

    /// The subgraph made of the arcs of the first `k` solutions of the pool,
    /// each with its reverse (the first arc back of equal cost), over their
    /// ends, the terminals and the root; with, for each of its arcs, the arc
    /// of the graph it copies.
    fn build_union_graph(&self, k: usize) -> (r: (DirectedGraph, Vec<ArcId>))
        requires
            self.graph.wf(),
            self.graph.arcs@.len() < u32::MAX,
            self.ids_fit(),
            k <= self.solution_pool@.len(),
            pool_arcs_ok(self.solution_pool@, self.graph.arcs@.len() as int),
        ensures
            r.0.wf(),
            r.0.num_nodes == self.graph.num_nodes,
            r.0.arcs@.len() == r.1@.len(),
            forall|i: int| 0 <= i < r.1@.len() ==> copies(self.graph.arcs@, r.0.arcs@[i], #[trigger] r.1@[i]),
            forall|p: int, j: int| 0 <= p < k && 0 <= j < self.solution_pool@[p].arcs@.len() ==>
                r.1@.contains(#[trigger] self.solution_pool@[p].arcs@[j]),
            forall|i: int| 0 <= i < r.1@.len() ==> from_parents(self.graph.arcs@, self.solution_pool@, k as int, #[trigger] r.1@[i]),
    {
        let ghost arcs = self.graph.arcs@;
        let m = self.graph.arcs.len();
        let mut mark: Vec<bool> = vec![false; m];
        let mut union: Vec<ArcId> = Vec::new();
        proof {
            lemma_count_true_zero(m as nat);
            assert(mark@ =~= Seq::new(m as nat, |v: int| false));
        }
        let mut p: usize = 0;
        while p < k
            invariant
                arcs == self.graph.arcs@,
                m == arcs.len(),
                k <= self.solution_pool@.len(),
                pool_arcs_ok(self.solution_pool@, m as int),
                p <= k,
                mark@.len() == m,
                union@.len() == count_true(mark@),
                forall|q: int| 0 <= q < union@.len() ==> (#[trigger] union@[q] as int) < m,
                forall|a: int| 0 <= a < m && #[trigger] mark@[a] ==> union@.contains(a as ArcId),
                forall|p2: int, j: int| 0 <= p2 < p && 0 <= j < self.solution_pool@[p2].arcs@.len() ==>
                    union@.contains(#[trigger] self.solution_pool@[p2].arcs@[j]),
                forall|q: int| 0 <= q < union@.len() ==> parent_arc(self.solution_pool@, k as int, #[trigger] union@[q]),
            decreases k - p,
        {
            let mut j: usize = 0;
            while j < self.solution_pool[p].arcs.len()
                invariant
                    arcs == self.graph.arcs@,
                    m == arcs.len(),
                    k <= self.solution_pool@.len(),
                    pool_arcs_ok(self.solution_pool@, m as int),
                    p < k,
                    j <= self.solution_pool@[p as int].arcs@.len(),
                    mark@.len() == m,
                    union@.len() == count_true(mark@),
                    forall|q: int| 0 <= q < union@.len() ==> (#[trigger] union@[q] as int) < m,
                    forall|a: int| 0 <= a < m && #[trigger] mark@[a] ==> union@.contains(a as ArcId),
                    forall|p2: int, j2: int| 0 <= p2 < p && 0 <= j2 < self.solution_pool@[p2].arcs@.len() ==>
                        union@.contains(#[trigger] self.solution_pool@[p2].arcs@[j2]),
                    forall|j2: int| 0 <= j2 < j ==> union@.contains(#[trigger] self.solution_pool@[p as int].arcs@[j2]),
                    forall|q: int| 0 <= q < union@.len() ==> parent_arc(self.solution_pool@, k as int, #[trigger] union@[q]),
                decreases self.solution_pool@[p as int].arcs@.len() - j,
            {
                let a = self.solution_pool[p].arcs[j];
                proof {
                    assert((self.solution_pool@[p as int].arcs@[j as int] as int) < m);
                }
                let ghost before = union@;
                if !mark[a as usize] {
                    proof {
                        lemma_count_true_set(mark@, a as int);
                    }
                    mark.set(a as usize, true);
                    union.push(a);
                    proof {
                        assert(union@[union@.len() - 1] == a);
                        assert forall|x: ArcId| #[trigger] before.contains(x) implies union@.contains(x) by {
                            let q = choose|q: int| 0 <= q < before.len() && before[q] == x;
                            assert(union@[q] == x);
                        }
                        assert forall|q: int| 0 <= q < union@.len() implies parent_arc(self.solution_pool@, k as int, #[trigger] union@[q]) by {
                            if q < before.len() {
                                assert(union@[q] == before[q]);
                            } else {
                                assert(self.solution_pool@[p as int].arcs@[j as int] == a);
                            }
                        }
                    }
                } else {
                    assert(union@.contains(a as int as ArcId));
                }
                j += 1;
            }
            p += 1;
        }
        // The reverse of each arc, where the graph has one of equal cost.
        let first = union.len();
        let mut q: usize = 0;
        while q < first
            invariant
                self.graph.wf(),
                arcs == self.graph.arcs@,
                m == arcs.len(),
                first <= union@.len(),
                q <= first,
                mark@.len() == m,
                union@.len() == count_true(mark@),
                forall|q2: int| 0 <= q2 < union@.len() ==> (#[trigger] union@[q2] as int) < m,
                forall|a: int| 0 <= a < m && #[trigger] mark@[a] ==> union@.contains(a as ArcId),
                forall|p2: int, j: int| 0 <= p2 < k && 0 <= j < self.solution_pool@[p2].arcs@.len() ==>
                    union@.contains(#[trigger] self.solution_pool@[p2].arcs@[j]),
                forall|q2: int| 0 <= q2 < first ==> parent_arc(self.solution_pool@, k as int, #[trigger] union@[q2]),
                forall|q2: int| 0 <= q2 < union@.len() ==> from_parents(arcs, self.solution_pool@, k as int, #[trigger] union@[q2]),
            decreases first - q,
        {
            let a = union[q];
            let tail = self.graph.arcs[a as usize].tail;
            let head = self.graph.arcs[a as usize].head;
            let cost = self.graph.arcs[a as usize].cost;
            let back = self.graph.delta_plus(head);
            let mut i: usize = 0;
            while i < back.len()
                invariant
                    self.graph.wf(),
                    arcs == self.graph.arcs@,
                    m == arcs.len(),
                    back@ == out_arcs(arcs, head as int),
                    i <= back@.len(),
                    first <= union@.len(),
                    mark@.len() == m,
                    union@.len() == count_true(mark@),
                    forall|q2: int| 0 <= q2 < union@.len() ==> (#[trigger] union@[q2] as int) < m,
                    forall|a2: int| 0 <= a2 < m && #[trigger] mark@[a2] ==> union@.contains(a2 as ArcId),
                    forall|p2: int, j: int| 0 <= p2 < k && 0 <= j < self.solution_pool@[p2].arcs@.len() ==>
                        union@.contains(#[trigger] self.solution_pool@[p2].arcs@[j]),
                    q < first,
                    a == union@[q as int],
                    tail == arcs[a as int].tail,
                    head == arcs[a as int].head,
                    cost == arcs[a as int].cost,
                    forall|q2: int| 0 <= q2 < first ==> parent_arc(self.solution_pool@, k as int, #[trigger] union@[q2]),
                    forall|q2: int| 0 <= q2 < union@.len() ==> from_parents(arcs, self.solution_pool@, k as int, #[trigger] union@[q2]),
                decreases back@.len() - i,
            {
                let (h, rev) = back[i];
                proof {
                    lemma_out_arcs_sound(arcs, head as int, i as int);
                }
                if h == tail && self.graph.arcs[rev as usize].cost == cost {
                    if !mark[rev as usize] {
                        let ghost before = union@;
                        proof {
                            lemma_count_true_set(mark@, rev as int);
                        }
                        mark.set(rev as usize, true);
                        union.push(rev);
                        proof {
                            assert(union@[union@.len() - 1] == rev);
                            assert forall|x: ArcId| #[trigger] before.contains(x) implies union@.contains(x) by {
                                let q2 = choose|q2: int| 0 <= q2 < before.len() && before[q2] == x;
                                assert(union@[q2] == x);
                            }
                            assert(parent_arc(self.solution_pool@, k as int, before[q as int]));
                            assert forall|q2: int| 0 <= q2 < first implies parent_arc(self.solution_pool@, k as int, #[trigger] union@[q2]) by {
                                assert(union@[q2] == before[q2]);
                            }
                            assert forall|q2: int| 0 <= q2 < union@.len() implies from_parents(arcs, self.solution_pool@, k as int, #[trigger] union@[q2]) by {
                                if q2 < before.len() {
                                    assert(union@[q2] == before[q2]);
                                } else {
                                    assert(union@[q2] == rev);
                                    assert(parent_arc(self.solution_pool@, k as int, a));
                                }
                            }
                        }
                    }
                    break;
                }
                i += 1;
            }
            q += 1;
        }
        // The vertices: the ends of the arcs, the terminals, the root.
        let mut nodes: Vec<NodeId> = Vec::new();
        let mut q: usize = 0;
        while q < union.len()
            invariant
                self.graph.wf(),
                self.ids_fit(),
                forall|q2: int| 0 <= q2 < union@.len() ==> (#[trigger] union@[q2] as int) < m,
                m == self.graph.arcs@.len(),
                forall|j: int| 0 <= j < nodes@.len() ==> (#[trigger] nodes@[j]) < u32::MAX,
            decreases union@.len() - q,
        {
            let a = union[q] as usize;
            push_new(&mut nodes, self.graph.arcs[a].tail);
            push_new(&mut nodes, self.graph.arcs[a].head);
            q += 1;
        }
        let mut t: usize = 0;
        while t < self.terminals.len()
            invariant
                self.ids_fit(),
                forall|j: int| 0 <= j < nodes@.len() ==> (#[trigger] nodes@[j]) < u32::MAX,
            decreases self.terminals@.len() - t,
        {
            push_new(&mut nodes, self.terminals[t]);
            t += 1;
        }
        push_new(&mut nodes, self.root);
        let mut sub = DirectedGraph::new(self.graph.num_nodes);
        let mut v: usize = 0;
        while v < nodes.len()
            invariant
                sub.wf(),
                sub.num_nodes == self.graph.num_nodes,
                sub.arcs@.len() == 0,
                forall|j: int| 0 <= j < nodes@.len() ==> (#[trigger] nodes@[j]) < u32::MAX,
            decreases nodes@.len() - v,
        {
            let id = nodes[v];
            let kind = if id == self.root || list_has(&self.terminals, id) { NodeType::Terminal } else { NodeType::Steiner };
            sub.add_node(id, kind, 0);
            v += 1;
        }
        proof {
            lemma_count_true_le(mark@);
        }
        let mut copied: Vec<ArcId> = Vec::new();
        let mut q: usize = 0;
        while q < union.len()
            invariant
                sub.wf(),
                sub.num_nodes == self.graph.num_nodes,
                arcs == self.graph.arcs@,
                m == arcs.len(),
                m < u32::MAX,
                mark@.len() == m,
                union@.len() == count_true(mark@),
                q <= union@.len(),
                union@.len() <= m,
                self.graph.wf(),
                self.ids_fit(),
                sub.arcs@.len() == q,
                copied@ == union@.take(q as int),
                forall|q2: int| 0 <= q2 < union@.len() ==> (#[trigger] union@[q2] as int) < m,
                forall|i: int| 0 <= i < q ==> copies(arcs, sub.arcs@[i], #[trigger] copied@[i]),
            decreases union@.len() - q,
        {
            let a = union[q];
            let arc = self.graph.arcs[a as usize];
            sub.add_arc(arc.tail, arc.head, arc.cost);
            copied.push(a);
            proof {
                assert(union@.take(q + 1) =~= union@.take(q as int).push(a));
            }
            q += 1;
        }
        proof {
            assert(union@.take(union@.len() as int) =~= union@);
        }
        (sub, copied)
    }

    /// The first arc leaving `c.tail` with the head and cost of `c`.
    fn twin(&self, c: Arc) -> (r: Option<ArcId>)
        requires
            self.graph.wf(),
        ensures
            r is None <==> !has_twin(self.graph.arcs@, c),
            r matches Some(a) ==> copies(self.graph.arcs@, c, a),
    {
        let ghost arcs = self.graph.arcs@;
        let out = self.graph.delta_plus(c.tail);
        let mut i: usize = 0;
        while i < out.len()
            invariant
                self.graph.wf(),
                arcs == self.graph.arcs@,
                out@ == out_arcs(arcs, c.tail as int),
                i <= out@.len(),
                forall|j: int| 0 <= j < i ==> (#[trigger] out@[j]).1 < arcs.len() && !(out@[j].0 == c.head && arcs[out@[j].1 as int].cost == c.cost),
            decreases out@.len() - i,
        {
            let (h, a) = out[i];
            proof {
                lemma_out_arcs_sound(arcs, c.tail as int, i as int);
            }
            if h == c.head && self.graph.arcs[a as usize].cost == c.cost {
                proof {
                    assert(copies(arcs, c, a));
                }
                return Some(a);
            }
            i += 1;
        }
        proof {
            if has_twin(arcs, c) {
                let a = choose|a: ArcId| #[trigger] copies(arcs, c, a);
                lemma_out_arcs_complete(arcs, c.tail as int, a as int);
                let j = choose|j: int| 0 <= j < out@.len() && out@[j] == (arcs[a as int].head, a);
                assert(out@[j].1 == a);
            }
        }
        None
    }

    /// The solution over `subgraph` with each arc replaced by its twin in
    /// the graph (see [`Self::twin`]), over the ends of those arcs, at their
    /// summed cost; `None` when an arc has no twin.
    fn map_solution_to_original(&self, sub_solution: &SteinerSolution, subgraph: &DirectedGraph) -> (r: Option<SteinerSolution>)
        requires
            self.graph.wf(),
            forall|k: int| 0 <= k < sub_solution.arcs@.len() ==> (#[trigger] sub_solution.arcs@[k] as int) < subgraph.arcs@.len(),
        ensures
            r is None <==> exists|k: int| 0 <= k < sub_solution.arcs@.len()
                && !has_twin(self.graph.arcs@, subgraph.arcs@[#[trigger] sub_solution.arcs@[k] as int]),
            r matches Some(sol) ==> {
                &&& sol.arcs@.len() == sub_solution.arcs@.len()
                &&& forall|k: int| 0 <= k < sol.arcs@.len() ==>
                    copies(self.graph.arcs@, subgraph.arcs@[sub_solution.arcs@[k] as int], #[trigger] sol.arcs@[k])
                &&& mapped_ok(self.graph.arcs@, sol)
            },
    {
        let ghost arcs = self.graph.arcs@;
        let ghost sa = sub_solution.arcs@;
        let mut out: Vec<ArcId> = Vec::new();
        let mut nodes: Vec<NodeId> = Vec::new();
        let mut total: Cost = 0;
        let mut k: usize = 0;
        while k < sub_solution.arcs.len()
            invariant
                self.graph.wf(),
                arcs == self.graph.arcs@,
                sa == sub_solution.arcs@,
                forall|k2: int| 0 <= k2 < sa.len() ==> (#[trigger] sa[k2] as int) < subgraph.arcs@.len(),
                k <= sa.len(),
                out@.len() == k,
                forall|k2: int| 0 <= k2 < k ==> copies(arcs, subgraph.arcs@[sa[k2] as int], #[trigger] out@[k2]),
                forall|k2: int| 0 <= k2 < k ==> has_twin(arcs, subgraph.arcs@[#[trigger] sa[k2] as int]),
                total == saturated(arc_sum(arcs, out@)),
                nodes@.no_duplicates(),
                forall|k2: int| 0 <= k2 < out@.len() ==> nodes@.contains(arcs[#[trigger] out@[k2] as int].tail)
                    && nodes@.contains(arcs[out@[k2] as int].head),
                forall|j: int| 0 <= j < nodes@.len() ==> #[trigger] on_arcs(arcs, out@, nodes@[j] as int),
            decreases sa.len() - k,
        {
            let c = subgraph.arcs[sub_solution.arcs[k] as usize];
            let a = match self.twin(c) {
                Some(a) => a,
                None => {
                    proof {
                        assert(!has_twin(arcs, subgraph.arcs@[sa[k as int] as int]));
                    }
                    return None;
                },
            };
            let ghost old_out = out@;
            let ghost old_nodes = nodes@;
            out.push(a);
            total = total.saturating_add(self.graph.arcs[a as usize].cost);
            proof {
                assert(out@.drop_last() == old_out);
                assert forall|j: int| 0 <= j < old_nodes.len() implies #[trigger] on_arcs(arcs, out@, old_nodes[j] as int) by {
                    assert(on_arcs(arcs, old_out, old_nodes[j] as int));
                    let q = choose|q: int| 0 <= q < old_out.len() && #[trigger] ends_at(arcs, old_out[q], old_nodes[j] as int);
                    assert(out@[q] == old_out[q]);
                }
                assert(ends_at(arcs, out@[k as int], arcs[a as int].tail as int));
                assert(ends_at(arcs, out@[k as int], arcs[a as int].head as int));
            }
            add_vertex(&mut nodes, self.graph.arcs[a as usize].tail, Ghost(arcs), Ghost(out@));
            add_vertex(&mut nodes, self.graph.arcs[a as usize].head, Ghost(arcs), Ghost(out@));
            proof {
                assert forall|k2: int| 0 <= k2 < out@.len() implies nodes@.contains(arcs[#[trigger] out@[k2] as int].tail)
                    && nodes@.contains(arcs[out@[k2] as int].head) by {
                    if k2 < k {
                        assert(out@[k2] == old_out[k2]);
                        assert(old_nodes.contains(arcs[old_out[k2] as int].tail));
                        assert(old_nodes.contains(arcs[old_out[k2] as int].head));
                    }
                }
            }
            k += 1;
        }
        Some(SteinerSolution::new(out, nodes, total))
    }

    /// Whether [`Self::ids_fit`] holds.
    fn ids_fit_now(&self) -> (r: bool)
        ensures
            r == self.ids_fit(),
    {
        if self.graph.num_nodes == u32::MAX || self.graph.out_adjacency.len() > 0xffff_ffff
            || self.graph.arcs.len() >= 0xffff_ffff || self.root == u32::MAX {
            return false;
        }
        let mut t: usize = 0;
        while t < self.terminals.len()
            invariant
                t <= self.terminals@.len(),
                forall|j: int| 0 <= j < t ==> #[trigger] self.terminals@[j] < u32::MAX,
            decreases self.terminals@.len() - t,
        {
            if self.terminals[t] == u32::MAX {
                return false;
            }
            t += 1;
        }
        true
    }

    /// One attempt: a tree constructed over the union of the best
    /// `recombination_size` solutions (ten starts), mapped back to the graph
    /// and offered to local search. `None` with fewer than two solutions to
    /// join, when the construction fails, or when an arc has no twin.
    /// With the solution, the arcs of the graph that the construction ran
    /// over: every arc of the first `min(recombination_size, pool length)`
    /// solutions, and nothing but those arcs and their reverses.
    fn recombine_once(&self) -> (r: (Option<SteinerSolution>, Ghost<Seq<ArcId>>))
        requires
            self.graph.wf(),
            self.ids_fit(),
            pool_arcs_ok(self.solution_pool@, self.graph.arcs@.len() as int),
        ensures
            self.recombination_size < 2 || self.solution_pool@.len() < 2 ==> r.0 is None,
            r.0 matches Some(sol) ==> mapped_ok(self.graph.arcs@, sol),
            r.0 matches Some(sol) ==> forall|k: int| 0 <= k < sol.arcs@.len() ==> twin_in(self.graph.arcs@, r.1@, #[trigger] sol.arcs@[k]),
            ({
                let k = if self.recombination_size < self.solution_pool@.len() {
                    self.recombination_size as int
                } else {
                    self.solution_pool@.len() as int
                };
                k >= 2 ==> {
                    &&& forall|p: int, j: int| 0 <= p < k && 0 <= j < self.solution_pool@[p].arcs@.len() ==>
                        r.1@.contains(#[trigger] self.solution_pool@[p].arcs@[j])
                    &&& forall|i: int| 0 <= i < r.1@.len() ==> from_parents(self.graph.arcs@, self.solution_pool@, k, #[trigger] r.1@[i])
                }
            }),
    {
        let k = if self.recombination_size < self.solution_pool.len() {
            self.recombination_size
        } else {
            self.solution_pool.len()
        };
        if k < 2 {
            return (None, Ghost(Seq::empty()));
        }
        let (subgraph, union) = self.build_union_graph(k);
        let ghost used = union@;
        let mut constructive = ConstructiveHeuristic::new(subgraph, self.root, self.terminals.clone())
            .with_num_starts(10);
        let sub_solution = match constructive.run() {
            Some(found) => found,
            None => return (None, Ghost(used)),
        };
        let mut mapped = match self.map_solution_to_original(&sub_solution, &constructive.graph) {
            Some(found) => found,
            None => return (None, Ghost(used)),
        };
        proof {
            assert forall|k2: int| 0 <= k2 < mapped.arcs@.len() implies twin_in(self.graph.arcs@, used, #[trigger] mapped.arcs@[k2]) by {
                let x = sub_solution.arcs@[k2] as int;
                assert(copies(self.graph.arcs@, constructive.graph.arcs@[x], mapped.arcs@[k2]));
                assert(copies(self.graph.arcs@, constructive.graph.arcs@[x], used[x]));
            }
        }
        let mut local_search = LocalSearchHeuristic::new(self.graph.clone(), self.root, self.terminals.clone());
        local_search.set_incumbent(mapped.duplicate());
        match local_search.run() {
            Some(improved) => {
                if improved.objective_value < mapped.objective_value {
                    mapped = improved;
                }
            },
            None => {},
        }
        (Some(mapped), Ghost(used))
    }
}

/// `r` is the attempt of least objective among those below `bound` in
/// `runs`, the first among equals; `None` only when no attempt is below it.
pub open spec fn cheapest_below(runs: Seq<Option<SteinerSolution>>, bound: u64, r: Option<SteinerSolution>) -> bool {
    &&& r is None <==> forall|i: int| 0 <= i < runs.len() && (#[trigger] runs[i]) is Some ==> runs[i]->Some_0.objective_value >= bound
    &&& r matches Some(b) ==> b.objective_value < bound && exists|j: int| 0 <= j < runs.len() && #[trigger] runs[j] == Some(b)
        && (forall|i: int| 0 <= i < runs.len() && (#[trigger] runs[i]) is Some && runs[i]->Some_0.objective_value < bound
            ==> b.objective_value <= runs[i]->Some_0.objective_value)
        && (forall|i: int| 0 <= i < j && (#[trigger] runs[i]) is Some && runs[i]->Some_0.objective_value < bound
            ==> b.objective_value < runs[i]->Some_0.objective_value)
}

/// Adding an attempt keeps the cheapest below the bound: it replaces the
/// kept one only when below the bound and strictly cheaper.
proof fn lemma_cheapest_below_push(runs: Seq<Option<SteinerSolution>>, bound: u64, b0: Option<SteinerSolution>, r: Option<SteinerSolution>, b1: Option<SteinerSolution>)
    requires
        cheapest_below(runs, bound, b0),
        b1 == (match r {
            Some(x) => if (match b0 { None => x.objective_value < bound, Some(c) => x.objective_value < c.objective_value }) { Some(x) } else { b0 },
            None => b0,
        }),
    ensures
        cheapest_below(runs.push(r), bound, b1),
{
    let rs = runs.push(r);
    let n = runs.len() as int;
    assert(rs[n] == r);
    assert forall|i: int| 0 <= i < n implies #[trigger] rs[i] == runs[i] by {}
    if b1 is None {
        assert forall|i: int| 0 <= i < rs.len() && (#[trigger] rs[i]) is Some implies rs[i]->Some_0.objective_value >= bound by {
            if i < n {
                assert(rs[i] == runs[i]);
            }
        }
    } else if b1 == r && r is Some && (match b0 { None => r->Some_0.objective_value < bound, Some(c) => r->Some_0.objective_value < c.objective_value }) {
        let x = r->Some_0;
        if b0 is Some {
            let c = b0->Some_0;
            let j0 = choose|j0: int| 0 <= j0 < runs.len() && #[trigger] runs[j0] == Some(c)
                && (forall|i2: int| 0 <= i2 < runs.len() && (#[trigger] runs[i2]) is Some && runs[i2]->Some_0.objective_value < bound
                    ==> c.objective_value <= runs[i2]->Some_0.objective_value)
                && (forall|i2: int| 0 <= i2 < j0 && (#[trigger] runs[i2]) is Some && runs[i2]->Some_0.objective_value < bound
                    ==> c.objective_value < runs[i2]->Some_0.objective_value);
            assert forall|i: int| 0 <= i < rs.len() && (#[trigger] rs[i]) is Some && rs[i]->Some_0.objective_value < bound
                implies x.objective_value <= rs[i]->Some_0.objective_value by {
                if i < n {
                    assert(rs[i] == runs[i]);
                }
            }
            assert forall|i: int| 0 <= i < n && (#[trigger] rs[i]) is Some && rs[i]->Some_0.objective_value < bound
                implies x.objective_value < rs[i]->Some_0.objective_value by {
                assert(rs[i] == runs[i]);
            }
        } else {
            assert forall|i: int| 0 <= i < rs.len() && (#[trigger] rs[i]) is Some && rs[i]->Some_0.objective_value < bound
                implies x.objective_value <= rs[i]->Some_0.objective_value by {
                if i < n {
                    assert(rs[i] == runs[i]);
                }
            }
            assert forall|i: int| 0 <= i < n && (#[trigger] rs[i]) is Some && rs[i]->Some_0.objective_value < bound
                implies x.objective_value < rs[i]->Some_0.objective_value by {
                assert(rs[i] == runs[i]);
            }
        }
        assert(rs[n] == Some(x));
    } else {
        assert(b1 == b0);
        let c = b0->Some_0;
        let j0 = choose|j0: int| 0 <= j0 < runs.len() && #[trigger] runs[j0] == Some(c)
            && (forall|i2: int| 0 <= i2 < runs.len() && (#[trigger] runs[i2]) is Some && runs[i2]->Some_0.objective_value < bound
                ==> c.objective_value <= runs[i2]->Some_0.objective_value)
            && (forall|i2: int| 0 <= i2 < j0 && (#[trigger] runs[i2]) is Some && runs[i2]->Some_0.objective_value < bound
                ==> c.objective_value < runs[i2]->Some_0.objective_value);
        assert(rs[j0] == Some(c));
        assert forall|i: int| 0 <= i < rs.len() && (#[trigger] rs[i]) is Some && rs[i]->Some_0.objective_value < bound
            implies c.objective_value <= rs[i]->Some_0.objective_value by {
            if i < n {
                assert(rs[i] == runs[i]);
            }
        }
        assert forall|i: int| 0 <= i < j0 && (#[trigger] rs[i]) is Some && rs[i]->Some_0.objective_value < bound
            implies c.objective_value < rs[i]->Some_0.objective_value by {
            assert(rs[i] == runs[i]);
        }
    }
}

impl RecombinationHeuristic {
    /// Up to `min(3, pool / 2)` recombination attempts: the one of least
    /// objective below `bound` (the first among equals), with every
    /// attempt's result.
    fn best_attempt(&self, bound: Cost) -> (r: (Option<SteinerSolution>, Ghost<Seq<Option<SteinerSolution>>>))
        requires
            self.graph.wf(),
            self.ids_fit(),
            pool_arcs_ok(self.solution_pool@, self.graph.arcs@.len() as int),
            self.solution_pool@.len() >= 2,
        ensures
            r.1@.len() == (if self.solution_pool@.len() / 2 < 3 { self.solution_pool@.len() / 2 } else { 3 }),
            forall|i: int| 0 <= i < r.1@.len() && (#[trigger] r.1@[i]) is Some ==> mapped_ok(self.graph.arcs@, r.1@[i]->Some_0),
            cheapest_below(r.1@, bound, r.0),
            r.0 matches Some(b) ==> mapped_ok(self.graph.arcs@, b),
    {
        let mut best_result: Option<SteinerSolution> = None;
        let ghost mut runs: Seq<Option<SteinerSolution>> = Seq::empty();
        let half = self.solution_pool.len() / 2;
        let num_attempts: usize = if half < 3 { half } else { 3 };
        let mut i: usize = 0;
        while i < num_attempts
            invariant
                self.graph.wf(),
                self.ids_fit(),
                pool_arcs_ok(self.solution_pool@, self.graph.arcs@.len() as int),
                self.solution_pool@.len() >= 2,
                i <= num_attempts,
                num_attempts == (if self.solution_pool@.len() / 2 < 3 { self.solution_pool@.len() / 2 } else { 3 }),
                runs.len() == i,
                forall|j: int| 0 <= j < runs.len() && (#[trigger] runs[j]) is Some ==> mapped_ok(self.graph.arcs@, runs[j]->Some_0),
                cheapest_below(runs, bound, best_result),
                best_result matches Some(b) ==> mapped_ok(self.graph.arcs@, b),
            decreases num_attempts - i,
        {
            let ghost old_runs = runs;
            let ghost old_best = best_result;
            let ghost mut got: Option<SteinerSolution> = None;
            let (attempt, _) = self.recombine_once();
            match attempt {
                Some(result) => {
                    let is_better = match &best_result {
                        None => result.objective_value < bound,
                        Some(current) => result.objective_value < current.objective_value,
                    };
                    proof {
                        got = Some(result);
                    }
                    if is_better {
                        best_result = Some(result);
                    }
                },
                None => {},
            }
            proof {
                runs = runs.push(got);
                lemma_cheapest_below_push(old_runs, bound, old_best, got, best_result);
                assert forall|j: int| 0 <= j < runs.len() && (#[trigger] runs[j]) is Some implies mapped_ok(self.graph.arcs@, runs[j]->Some_0) by {
                    if j < old_runs.len() {
                        assert(runs[j] == old_runs[j]);
                    }
                }
            }
            i += 1;
        }
        (best_result, Ghost(runs))
    }
}

/// Pools that agree solution for solution order alike.
proof fn lemma_by_objective_alike(pool: Seq<SteinerSolution>, x: SteinerSolution, y: SteinerSolution)
    requires
        same_solution(x, y),
        cost_sorted(pool_costs(pool.push(x)), by_cost_order(pool_costs(pool.push(x)))),
    ensures
        forall|i: int| 0 <= i < pool.len() + 1 ==>
            same_solution(#[trigger] by_objective(pool.push(x))[i], by_objective(pool.push(y))[i]),
{
    let px = pool.push(x);
    let py = pool.push(y);
    assert(pool_costs(px) =~= pool_costs(py));
    let o = by_cost_order(pool_costs(px));
    assert forall|i: int| 0 <= i < pool.len() + 1 implies
        same_solution(#[trigger] by_objective(px)[i], by_objective(py)[i]) by {
        assert(by_objective(px)[i] == px[o[i] as int]);
        assert(by_objective(py)[i] == py[o[i] as int]);
        if (o[i] as int) < pool.len() {
            assert(px[o[i] as int] == py[o[i] as int]);
        } else if o[i] as int == pool.len() {
            assert(px[o[i] as int] == x);
        }
    }
}

impl PrimalHeuristic for RecombinationHeuristic {
    open spec fn ready(&self) -> bool {
        &&& self.graph.wf()
        &&& pool_arcs_ok(self.solution_pool@, self.graph.arcs@.len() as int)
    }

    /// Up to `min(3, pool / 2)` attempts (see [`RecombinationHeuristic`]);
    /// the best result that beats the pool's first solution is returned and
    /// added to the pool. `None`, with the heuristic unchanged, when the pool
    /// holds fewer than two solutions, when a vertex id or the arc count
    /// reaches `u32::MAX`, or when no attempt beats the first solution.
    fn run(&mut self) -> (r: Option<SteinerSolution>)
        ensures
            old(self).solution_pool@.len() < 2 ==> r is None,
            r is None ==> *final(self) == *old(self),
            r matches Some(sol) ==> {
                &&& mapped_ok(old(self).graph.arcs@, sol)
                &&& sol.objective_value < old(self).solution_pool@[0].objective_value
                &&& final(self).graph == old(self).graph
                &&& final(self).root == old(self).root
                &&& final(self).terminals == old(self).terminals
                &&& final(self).max_pool_size == old(self).max_pool_size
                &&& final(self).recombination_size == old(self).recombination_size
                &&& final(self).solution_pool@.len() == if old(self).max_pool_size < old(self).solution_pool@.len() + 1 {
                    old(self).max_pool_size as int
                } else {
                    old(self).solution_pool@.len() + 1int
                }
                &&& forall|i: int| 0 <= i < final(self).solution_pool@.len() ==> same_solution(
                    #[trigger] final(self).solution_pool@[i], by_objective(old(self).solution_pool@.push(sol))[i])
            },
    {
        if self.solution_pool.len() < 2 {
            return None;
        }
        if !self.ids_fit_now() {
            return None;
        }
        let best_known = self.solution_pool[0].objective_value;
        let (best_result, Ghost(runs)) = self.best_attempt(best_known);
        match &best_result {
            Some(result) => {
                if result.objective_value < best_known {
                    let copy = result.duplicate();
                    let ghost before = self.solution_pool@;
                    self.add_solution(copy);
                    proof {
                        lemma_by_objective_alike(before, copy, *result);
                    }
                }
            },
            None => {},
        }
        best_result
    }
}

} // verus!
