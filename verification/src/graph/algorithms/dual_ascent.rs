//! Wong's dual ascent for the directed Steiner arborescence problem, and the
//! independent check of its certificate.
//!
//! The ascent keeps a reduced cost `r_a = c_a - sum { u_W : a enters W }` for
//! every arc. For an unconnected terminal `t`, `W(t)` is the set of vertices
//! that reach `t` over active arcs of zero reduced cost; while the root lies
//! outside it, `u_{W(t)}` may be raised by the least reduced cost of an active
//! arc entering `W(t)`. The raised amounts sum to a lower bound on the cost of
//! every arborescence over the active arcs that reaches all terminals.
use vstd::prelude::*;
use crate::graph::types::{NodeId, ArcId, Cost, Arc};
use crate::graph::directed::DirectedGraph;
use crate::graph::algorithms::dijkstra::{is_path, lemma_path_prepend, is_distance, reachable, shortest_paths_from};
use super::gf2::{bits_view, zero_words, test_bit, set_bit};

verus! {

/// The ids of the arcs of `arcs` whose head is `v`, in arc order.
pub open spec fn ids_into(arcs: Seq<Arc>, v: int) -> Seq<ArcId>
    decreases arcs.len(),
{
    if arcs.len() == 0 {
        Seq::empty()
    } else {
        let pre = ids_into(arcs.drop_last(), v);
        if arcs.last().head == v { pre.push(arcs.last().id) } else { pre }
    }
}

/// The ids of the arcs of `arcs` whose tail is `v`, in arc order.
pub open spec fn ids_out_of(arcs: Seq<Arc>, v: int) -> Seq<ArcId>
    decreases arcs.len(),
{
    if arcs.len() == 0 {
        Seq::empty()
    } else {
        let pre = ids_out_of(arcs.drop_last(), v);
        if arcs.last().tail == v { pre.push(arcs.last().id) } else { pre }
    }
}

/// Every listed arc enters `v`, and every arc entering `v` is listed.
pub proof fn lemma_ids_into(arcs: Seq<Arc>, v: int)
    requires
        forall|i: int| 0 <= i < arcs.len() ==> (#[trigger] arcs[i]).id == i,
    ensures
        forall|k: int| 0 <= k < ids_into(arcs, v).len() ==>
            (#[trigger] ids_into(arcs, v)[k]) < arcs.len() && arcs[ids_into(arcs, v)[k] as int].head == v,
        forall|i: int| 0 <= i < arcs.len() && (#[trigger] arcs[i]).head == v ==> ids_into(arcs, v).contains(i as ArcId),
    decreases arcs.len(),
{
    if arcs.len() > 0 {
        let pre = arcs.drop_last();
        assert forall|i: int| 0 <= i < pre.len() implies (#[trigger] pre[i]).id == i by {
            assert(pre[i] == arcs[i]);
        }
        lemma_ids_into(pre, v);
        let cur = ids_into(arcs, v);
        let old_ids = ids_into(pre, v);
        assert forall|k: int| 0 <= k < cur.len() implies (#[trigger] cur[k]) < arcs.len() && arcs[cur[k] as int].head == v by {
            if k < old_ids.len() {
                assert(cur[k] == old_ids[k]);
                assert(pre[old_ids[k] as int] == arcs[old_ids[k] as int]);
            }
        }
        assert forall|i: int| 0 <= i < arcs.len() && (#[trigger] arcs[i]).head == v implies cur.contains(i as ArcId) by {
            if i < arcs.len() - 1 {
                assert(pre[i] == arcs[i]);
                assert(old_ids.contains(i as ArcId));
                let k = choose|k: int| 0 <= k < old_ids.len() && old_ids[k] == i as ArcId;
                assert(cur[k] == old_ids[k]);
            } else {
                assert(cur[cur.len() - 1] == i as ArcId);
            }
        }
    }
}

/// Every listed arc leaves `v`, and every arc leaving `v` is listed.
pub proof fn lemma_ids_out_of(arcs: Seq<Arc>, v: int)
    requires
        forall|i: int| 0 <= i < arcs.len() ==> (#[trigger] arcs[i]).id == i,
    ensures
        forall|k: int| 0 <= k < ids_out_of(arcs, v).len() ==>
            (#[trigger] ids_out_of(arcs, v)[k]) < arcs.len() && arcs[ids_out_of(arcs, v)[k] as int].tail == v,
        forall|i: int| 0 <= i < arcs.len() && (#[trigger] arcs[i]).tail == v ==> ids_out_of(arcs, v).contains(i as ArcId),
    decreases arcs.len(),
{
    if arcs.len() > 0 {
        let pre = arcs.drop_last();
        assert forall|i: int| 0 <= i < pre.len() implies (#[trigger] pre[i]).id == i by {
            assert(pre[i] == arcs[i]);
        }
        lemma_ids_out_of(pre, v);
        let cur = ids_out_of(arcs, v);
        let old_ids = ids_out_of(pre, v);
        assert forall|k: int| 0 <= k < cur.len() implies (#[trigger] cur[k]) < arcs.len() && arcs[cur[k] as int].tail == v by {
            if k < old_ids.len() {
                assert(cur[k] == old_ids[k]);
                assert(pre[old_ids[k] as int] == arcs[old_ids[k] as int]);
            }
        }
        assert forall|i: int| 0 <= i < arcs.len() && (#[trigger] arcs[i]).tail == v implies cur.contains(i as ArcId) by {
            if i < arcs.len() - 1 {
                assert(pre[i] == arcs[i]);
                assert(old_ids.contains(i as ArcId));
                let k = choose|k: int| 0 <= k < old_ids.len() && old_ids[k] == i as ArcId;
                assert(cur[k] == old_ids[k]);
            } else {
                assert(cur[cur.len() - 1] == i as ArcId);
            }
        }
    }
}

/// Static view of a digraph built once and reused across runs: per-vertex
/// lists of entering and leaving arcs, and per-arc endpoints and costs.
pub struct ArcIndex {
    pub num_nodes: usize,
    pub in_lists: Vec<Vec<ArcId>>,
    pub out_lists: Vec<Vec<ArcId>>,
    pub tails: Vec<NodeId>,
    pub heads: Vec<NodeId>,
    pub costs: Vec<Cost>,
}

impl ArcIndex {
    /// The arcs, each carrying its position as id.
    pub open spec fn arcs(&self) -> Seq<Arc> {
        Seq::new(self.tails@.len(), |i: int| Arc { id: i as u32, tail: self.tails@[i], head: self.heads@[i], cost: self.costs@[i] })
    }

    pub open spec fn wf(&self) -> bool {
        &&& self.tails@.len() == self.heads@.len()
        &&& self.tails@.len() == self.costs@.len()
        &&& self.tails@.len() <= u32::MAX
        &&& self.in_lists@.len() == self.num_nodes
        &&& self.out_lists@.len() == self.num_nodes
        &&& self.num_nodes <= u32::MAX
        &&& forall|i: int| 0 <= i < self.tails@.len() ==>
            (#[trigger] self.tails@[i]) < self.num_nodes && self.heads@[i] < self.num_nodes
        &&& forall|v: int| 0 <= v < self.num_nodes ==> (#[trigger] self.in_lists@[v])@ == ids_into(self.arcs(), v)
        &&& forall|v: int| 0 <= v < self.num_nodes ==> (#[trigger] self.out_lists@[v])@ == ids_out_of(self.arcs(), v)
    }

    /// Index the arcs of `graph` over the vertex ids `0..=num_nodes`.
    pub fn new(graph: &DirectedGraph) -> (idx: Self)
        requires
            graph.wf(),
            graph.num_nodes < u32::MAX,
            forall|i: int| 0 <= i < graph.arcs@.len() ==>
                (#[trigger] graph.arcs@[i]).tail <= graph.num_nodes && graph.arcs@[i].head <= graph.num_nodes,
        ensures
            idx.wf(),
            idx.num_nodes == graph.num_nodes + 1,
            idx.arcs() == graph.arcs@,
    {
        let num_nodes: usize = graph.num_nodes as usize + 1;
        let mut in_lists: Vec<Vec<ArcId>> = Vec::new();
        let mut out_lists: Vec<Vec<ArcId>> = Vec::new();
        let mut v: usize = 0;
        while v < num_nodes
            invariant
                v <= num_nodes,
                in_lists@.len() == v,
                out_lists@.len() == v,
                forall|w: int| 0 <= w < v ==> (#[trigger] in_lists@[w])@ == Seq::<ArcId>::empty(),
                forall|w: int| 0 <= w < v ==> (#[trigger] out_lists@[w])@ == Seq::<ArcId>::empty(),
            decreases num_nodes - v,
        {
            in_lists.push(Vec::new());
            out_lists.push(Vec::new());
            v += 1;
        }
        let mut tails: Vec<NodeId> = Vec::new();
        let mut heads: Vec<NodeId> = Vec::new();
        let mut costs: Vec<Cost> = Vec::new();
        let ghost arcs = graph.arcs@;
        let mut i: usize = 0;
        while i < graph.arcs.len()
            invariant
                graph.wf(),
                arcs == graph.arcs@,
                num_nodes == graph.num_nodes + 1,
                forall|j: int| 0 <= j < arcs.len() ==>
                    (#[trigger] arcs[j]).tail <= graph.num_nodes && arcs[j].head <= graph.num_nodes,
                i <= arcs.len(),
                tails@.len() == i,
                heads@.len() == i,
                costs@.len() == i,
                forall|j: int| 0 <= j < i ==> (#[trigger] tails@[j]) == arcs[j].tail && heads@[j] == arcs[j].head
                    && costs@[j] == arcs[j].cost,
                in_lists@.len() == num_nodes,
                out_lists@.len() == num_nodes,
                forall|w: int| 0 <= w < num_nodes ==> (#[trigger] in_lists@[w])@ == ids_into(arcs.subrange(0, i as int), w),
                forall|w: int| 0 <= w < num_nodes ==> (#[trigger] out_lists@[w])@ == ids_out_of(arcs.subrange(0, i as int), w),
            decreases arcs.len() - i,
        {
            let arc = graph.arcs[i];
            let ghost before_in = in_lists@;
            let ghost before_out = out_lists@;
            in_lists[arc.head as usize].push(i as ArcId);
            out_lists[arc.tail as usize].push(i as ArcId);
            tails.push(arc.tail);
            heads.push(arc.head);
            costs.push(arc.cost);
            proof {
                let pre = arcs.subrange(0, i as int);
                let cur = arcs.subrange(0, i + 1);
                assert(cur.drop_last() == pre);
                assert(cur.last() == arc);
                assert(arc.id == i);
                assert forall|w: int| 0 <= w < num_nodes implies (#[trigger] in_lists@[w])@ == ids_into(cur, w) by {
                    assert(before_in[w]@ == ids_into(pre, w));
                }
                assert forall|w: int| 0 <= w < num_nodes implies (#[trigger] out_lists@[w])@ == ids_out_of(cur, w) by {
                    assert(before_out[w]@ == ids_out_of(pre, w));
                }
            }
            i += 1;
        }
        let idx = ArcIndex { num_nodes, in_lists, out_lists, tails, heads, costs };
        proof {
            assert(arcs.subrange(0, arcs.len() as int) == arcs);
            assert(idx.arcs() =~= arcs);
        }
        idx
    }

    /// The arcs entering `v`, in arc order.
    pub fn incoming(&self, v: NodeId) -> (r: &[ArcId])
        requires
            self.wf(),
            (v as int) < self.num_nodes,
        ensures
            r@ == ids_into(self.arcs(), v as int),
    {
        self.in_lists[v as usize].as_slice()
    }

    /// The arcs leaving `v`, in arc order.
    pub fn outgoing(&self, v: NodeId) -> (r: &[ArcId])
        requires
            self.wf(),
            (v as int) < self.num_nodes,
        ensures
            r@ == ids_out_of(self.arcs(), v as int),
    {
        self.out_lists[v as usize].as_slice()
    }

    pub fn tail(&self, a: ArcId) -> (r: NodeId)
        requires
            self.wf(),
            (a as int) < self.tails@.len(),
        ensures
            r == self.arcs()[a as int].tail,
    {
        self.tails[a as usize]
    }

    pub fn head(&self, a: ArcId) -> (r: NodeId)
        requires
            self.wf(),
            (a as int) < self.tails@.len(),
        ensures
            r == self.arcs()[a as int].head,
    {
        self.heads[a as usize]
    }

    pub fn cost(&self, a: ArcId) -> (r: Cost)
        requires
            self.wf(),
            (a as int) < self.tails@.len(),
        ensures
            r == self.arcs()[a as int].cost,
    {
        self.costs[a as usize]
    }

    pub fn num_arcs(&self) -> (r: usize)
        requires
            self.wf(),
        ensures
            r == self.arcs().len(),
    {
        self.tails.len()
    }

    pub fn num_nodes(&self) -> (r: usize)
        ensures
            r == self.num_nodes,
    {
        self.num_nodes
    }
}

/// The number of `true` entries of `s`.
pub open spec fn count_true(s: Seq<bool>) -> nat
    decreases s.len(),
{
    if s.len() == 0 {
        0
    } else {
        count_true(s.drop_last()) + if s.last() { 1nat } else { 0nat }
    }
}

pub proof fn lemma_count_true_le(s: Seq<bool>)
    ensures
        count_true(s) <= s.len(),
    decreases s.len(),
{
    if s.len() > 0 {
        lemma_count_true_le(s.drop_last());
    }
}

pub proof fn lemma_count_true_set(s: Seq<bool>, i: int)
    requires
        0 <= i < s.len(),
        !s[i],
    ensures
        count_true(s.update(i, true)) == count_true(s) + 1,
    decreases s.len(),
{
    let u = s.update(i, true);
    if i == s.len() - 1 {
        assert(u.drop_last() =~= s.drop_last());
    } else {
        lemma_count_true_set(s.drop_last(), i);
        assert(u.drop_last() =~= s.drop_last().update(i, true));
    }
}

/// An arc the closure may cross: active, with zero reduced cost.
pub open spec fn usable(active: Seq<bool>, red: Seq<u64>, a: int) -> bool {
    active[a] && red[a] == 0
}

/// `p` leads from `v` to `t` over usable arcs.
pub open spec fn zero_walk(arcs: Seq<Arc>, active: Seq<bool>, red: Seq<u64>, v: int, t: int, p: Seq<ArcId>) -> bool {
    &&& is_path(arcs, v, t, p)
    &&& forall|i: int| 0 <= i < p.len() ==> usable(active, red, #[trigger] p[i] as int)
}

/// `v` lies in `W(t)`: it reaches `t` over usable arcs.
pub open spec fn in_w(arcs: Seq<Arc>, active: Seq<bool>, red: Seq<u64>, t: int, v: int) -> bool {
    exists|p: Seq<ArcId>| zero_walk(arcs, active, red, v, t, p)
}

/// The arc `a` enters `W(t)`: it is active, its head lies inside and its tail outside.
pub open spec fn in_cut(arcs: Seq<Arc>, active: Seq<bool>, red: Seq<u64>, t: int, a: int) -> bool {
    &&& active[a]
    &&& in_w(arcs, active, red, t, arcs[a].head as int)
    &&& !in_w(arcs, active, red, t, arcs[a].tail as int)
}

proof fn lemma_in_w_self(arcs: Seq<Arc>, active: Seq<bool>, red: Seq<u64>, t: int)
    ensures
        in_w(arcs, active, red, t, t),
{
    assert(zero_walk(arcs, active, red, t, t, Seq::<ArcId>::empty()));
}

/// A usable arc into a member of `W(t)` brings its tail in.
proof fn lemma_in_w_prepend(arcs: Seq<Arc>, active: Seq<bool>, red: Seq<u64>, t: int, a: int)
    requires
        0 <= a < arcs.len(),
        a <= u32::MAX,
        usable(active, red, a),
        in_w(arcs, active, red, t, arcs[a].head as int),
    ensures
        in_w(arcs, active, red, t, arcs[a].tail as int),
{
    let q = choose|q: Seq<ArcId>| zero_walk(arcs, active, red, arcs[a].head as int, t, q);
    lemma_path_prepend(arcs, arcs[a].tail as int, arcs[a].head as int, t, a as ArcId, q);
    let p = seq![a as ArcId] + q;
    assert forall|i: int| 0 <= i < p.len() implies usable(active, red, #[trigger] p[i] as int) by {
        if i > 0 {
            assert(p[i] == q[i - 1]);
        }
    }
    assert(zero_walk(arcs, active, red, arcs[a].tail as int, t, p));
}

/// The rest of a path after its first arc is a path from that arc's head.
proof fn lemma_path_rest(arcs: Seq<Arc>, u: int, t: int, p: Seq<ArcId>)
    requires
        is_path(arcs, u, t, p),
        p.len() >= 1,
    ensures
        is_path(arcs, arcs[p[0] as int].head as int, t, p.drop_first()),
{
    let q = p.drop_first();
    if q.len() > 0 {
        assert forall|i: int| 0 <= i < q.len() implies (#[trigger] q[i] as int) < arcs.len() by {
            assert(q[i] == p[i + 1]);
        }
        assert forall|i: int| 0 <= i < q.len() - 1 implies arcs[#[trigger] q[i] as int].head == arcs[q[i + 1] as int].tail by {
            assert(q[i] == p[i + 1] && q[i + 1] == p[i + 2]);
        }
        assert(q[0] == p[1]);
        assert(arcs[p[0] as int].head == arcs[p[1] as int].tail);
        assert(q[q.len() - 1] == p[p.len() - 1]);
    }
}

/// A vertex set that holds `t` and takes in the tail of every usable arc
/// into one of its members holds every vertex that reaches `t` over usable arcs.
proof fn lemma_closed_holds_walks(
    arcs: Seq<Arc>,
    active: Seq<bool>,
    red: Seq<u64>,
    t: int,
    member: Seq<bool>,
    u: int,
    p: Seq<ArcId>,
)
    requires
        0 <= t < member.len(),
        member[t],
        forall|a: int| 0 <= a < arcs.len() ==> arcs[a].tail < member.len() && arcs[a].head < member.len(),
        forall|a: int| 0 <= a < arcs.len() && usable(active, red, a) && member[#[trigger] arcs[a].head as int]
            ==> member[arcs[a].tail as int],
        zero_walk(arcs, active, red, u, t, p),
    ensures
        member[u],
    decreases p.len(),
{
    if p.len() > 0 {
        lemma_path_rest(arcs, u, t, p);
        let q = p.drop_first();
        assert forall|i: int| 0 <= i < q.len() implies usable(active, red, #[trigger] q[i] as int) by {
            assert(q[i] == p[i + 1]);
        }
        lemma_closed_holds_walks(arcs, active, red, t, member, arcs[p[0] as int].head as int, q);
        assert(usable(active, red, p[0] as int));
    }
}

/// `W(t)` as a membership vector over the vertices `0..num_nodes`.
fn zero_closure(idx: &ArcIndex, active: &[bool], reduced: &[Cost], t: NodeId) -> (member: Vec<bool>)
    requires
        idx.wf(),
        active@.len() >= idx.tails@.len(),
        reduced@.len() == idx.tails@.len(),
        (t as int) < idx.num_nodes,
    ensures
        member@.len() == idx.num_nodes,
        forall|v: int| 0 <= v < idx.num_nodes ==> #[trigger] member@[v] == in_w(idx.arcs(), active@, reduced@, t as int, v),
{
    let n = idx.num_nodes;
    let ghost arcs = idx.arcs();
    let ghost act = active@;
    let ghost red = reduced@;
    let mut member: Vec<bool> = vec![false; n];
    member.set(t as usize, true);
    let mut stack: Vec<NodeId> = Vec::new();
    stack.push(t);
    let mut count: usize = 1;
    let ghost mut done: Seq<bool> = Seq::new(n as nat, |v: int| false);
    proof {
        lemma_in_w_self(arcs, act, red, t as int);
        assert(count_true(Seq::new(n as nat, |v: int| false)) == 0) by {
            lemma_count_true_zero(n as nat);
        }
        lemma_count_true_set(Seq::new(n as nat, |v: int| false), t as int);
        assert(member@ == Seq::new(n as nat, |v: int| false).update(t as int, true));
        assert(stack@[0] == t);
    }
    while stack.len() > 0
        invariant
            idx.wf(),
            n == idx.num_nodes,
            arcs == idx.arcs(),
            act == active@,
            red == reduced@,
            active@.len() >= idx.tails@.len(),
            reduced@.len() == idx.tails@.len(),
            (t as int) < n,
            member@.len() == n,
            done.len() == n,
            count == count_true(member@),
            forall|v: int| 0 <= v < n && #[trigger] member@[v] ==> in_w(arcs, act, red, t as int, v),
            forall|k: int| 0 <= k < stack@.len() ==> (#[trigger] stack@[k] as int) < n && member@[stack@[k] as int],
            forall|v: int| 0 <= v < n && #[trigger] done[v] ==> member@[v],
            forall|v: int| 0 <= v < n && member@[v] && !done[v] ==> #[trigger] stack@.contains(v as NodeId),
            forall|a: int| 0 <= a < arcs.len() && usable(act, red, a) && done[#[trigger] arcs[a].head as int]
                ==> member@[arcs[a].tail as int],
            member@[t as int],
        decreases 2 * (n - count) + stack@.len(),
    {
        proof {
            lemma_count_true_le(member@);
        }
        let ghost before_pop = stack@;
        let ghost m0 = 2 * (n - count) + stack@.len();
        let v = stack.pop().unwrap();
        let list = idx.incoming(v);
        proof {
            lemma_ids_into(arcs, v as int);
            assert forall|w: int| 0 <= w < n && member@[w] && !done[w] && w != v implies #[trigger] stack@.contains(w as NodeId) by {
                assert(before_pop.contains(w as NodeId));
                let j = choose|j: int| 0 <= j < before_pop.len() && before_pop[j] == w as NodeId;
                assert(before_pop[before_pop.len() - 1] == v);
                assert(j != before_pop.len() - 1);
                assert(stack@[j] == before_pop[j]);
            }
        }
        let mut k: usize = 0;
        while k < list.len()
            invariant
                idx.wf(),
                n == idx.num_nodes,
                arcs == idx.arcs(),
                act == active@,
                red == reduced@,
                active@.len() >= idx.tails@.len(),
                reduced@.len() == idx.tails@.len(),
                (t as int) < n,
                (v as int) < n,
                member@[v as int],
                list@ == ids_into(arcs, v as int),
                forall|j: int| 0 <= j < list@.len() ==>
                    (#[trigger] list@[j]) < arcs.len() && arcs[list@[j] as int].head == v,
                k <= list@.len(),
                member@.len() == n,
                done.len() == n,
                count == count_true(member@),
                count <= n,
                2 * (n - count) + stack@.len() < m0,
                forall|w: int| 0 <= w < n && #[trigger] member@[w] ==> in_w(arcs, act, red, t as int, w),
                forall|j: int| 0 <= j < stack@.len() ==> (#[trigger] stack@[j] as int) < n && member@[stack@[j] as int],
                forall|w: int| 0 <= w < n && #[trigger] done[w] ==> member@[w],
                forall|w: int| 0 <= w < n && member@[w] && !done[w] && w != v ==> #[trigger] stack@.contains(w as NodeId),
                forall|a: int| 0 <= a < arcs.len() && usable(act, red, a) && done[#[trigger] arcs[a].head as int]
                    ==> member@[arcs[a].tail as int],
                forall|j: int| 0 <= j < k && usable(act, red, #[trigger] list@[j] as int) ==> member@[arcs[list@[j] as int].tail as int],
                member@[t as int],
            decreases list@.len() - k,
        {
            let a = list[k];
            let u = idx.tail(a);
            if active[a as usize] && reduced[a as usize] == 0 && !member[u as usize] {
                proof {
                    lemma_in_w_prepend(arcs, act, red, t as int, a as int);
                    lemma_count_true_set(member@, u as int);
                    lemma_count_true_le(member@.update(u as int, true));
                }
                let ghost before_push = stack@;
                member.set(u as usize, true);
                stack.push(u);
                count = count + 1;
                proof {
                    assert forall|w: int| 0 <= w < n && member@[w] && !done[w] && w != v implies #[trigger] stack@.contains(w as NodeId) by {
                        if w == u {
                            assert(stack@[stack@.len() - 1] == u);
                        } else {
                            assert(before_push.contains(w as NodeId));
                            let j = choose|j: int| 0 <= j < before_push.len() && before_push[j] == w as NodeId;
                            assert(stack@[j] == before_push[j]);
                        }
                    }
                }
            }
            k += 1;
        }
        proof {
            assert forall|a: int| 0 <= a < arcs.len() && usable(act, red, a) && arcs[a].head == v
                implies member@[arcs[a].tail as int] by {
                assert(list@.contains(a as ArcId));
                let j = choose|j: int| 0 <= j < list@.len() && list@[j] == a as ArcId;
                assert(usable(act, red, list@[j] as int));
            }
            done = done.update(v as int, true);
        }
    }
    proof {
        assert forall|v: int| 0 <= v < n implies #[trigger] member@[v] == in_w(arcs, act, red, t as int, v) by {
            if in_w(arcs, act, red, t as int, v) {
                let p = choose|p: Seq<ArcId>| zero_walk(arcs, act, red, v, t as int, p);
                assert forall|a: int| 0 <= a < arcs.len() && usable(act, red, a) && member@[#[trigger] arcs[a].head as int]
                    implies member@[arcs[a].tail as int] by {
                    let h = arcs[a].head as int;
                    if !done[h] {
                        assert(stack@.contains(h as NodeId));
                        let j = choose|j: int| 0 <= j < stack@.len() && stack@[j] == h as NodeId;
                        assert(false);
                    }
                }
                lemma_closed_holds_walks(arcs, act, red, t as int, member@, v, p);
            }
        }
    }
    member
}

pub proof fn lemma_count_true_zero(n: nat)
    ensures
        count_true(Seq::new(n, |v: int| false)) == 0,
    decreases n,
{
    if n > 0 {
        lemma_count_true_zero((n - 1) as nat);
        assert(Seq::new(n, |v: int| false).drop_last() =~= Seq::new((n - 1) as nat, |v: int| false));
    }
}

/// One ascent step: the dual variable of `W(terminal)` was raised by `delta`.
#[derive(Debug, Clone, Copy, PartialEq, Eq, Structural)]
pub struct AscentStep {
    pub terminal: NodeId,
    pub delta: Cost,
}

/// The outcome of an ascent.
pub struct DualAscentResult {
    /// The sum of the raised amounts.
    pub lower_bound: Cost,
    /// Reduced cost of every arc.
    pub reduced_costs: Vec<Cost>,
    /// Root the ascent was run from.
    pub root: NodeId,
    /// Replayable certificate: the ascent steps in the order they were applied.
    pub steps: Vec<AscentStep>,
    /// The raised cuts `delta^-(W)`, while a budget of arc entries lasted.
    pub cuts: Vec<Vec<ArcId>>,
    /// The raised sets with their amounts, while a budget of vertex entries lasted.
    pub sets: Vec<(Cost, Vec<NodeId>)>,
}

/// Why a certificate was refused; each step error names the step.
#[derive(Debug, Clone, Copy, PartialEq, Eq, Structural)]
pub enum CertificateError {
    /// The step raises the set of a vertex that is no terminal.
    NotATerminal(usize),
    /// The raised set contains the root.
    ContainsRoot(usize),
    /// No active arc enters the raised set.
    EmptyCut(usize),
    /// The amount exceeds the least reduced cost on the cut.
    ExceedsCut(usize),
    /// The claimed bound is not the sum of the amounts.
    BoundMismatch,
}

/// The arc costs, the reduced costs before any step.
pub open spec fn initial_reduced(arcs: Seq<Arc>) -> Seq<u64> {
    Seq::new(arcs.len(), |a: int| arcs[a].cost)
}

/// Some active arc enters `W(t)`.
pub open spec fn cut_nonempty(arcs: Seq<Arc>, active: Seq<bool>, red: Seq<u64>, t: int) -> bool {
    exists|a: int| 0 <= a < arcs.len() && #[trigger] in_cut(arcs, active, red, t, a)
}

/// Some arc entering `W(t)` has reduced cost below `delta`.
pub open spec fn cut_exceeded(arcs: Seq<Arc>, active: Seq<bool>, red: Seq<u64>, t: int, delta: u64) -> bool {
    exists|a: int| 0 <= a < arcs.len() && #[trigger] in_cut(arcs, active, red, t, a) && red[a] < delta
}

/// The reduced costs after raising `W(t)` by `delta`.
pub open spec fn lowered(arcs: Seq<Arc>, active: Seq<bool>, red: Seq<u64>, t: int, delta: u64) -> Seq<u64> {
    Seq::new(red.len(), |a: int| if in_cut(arcs, active, red, t, a) { (red[a] - delta) as u64 } else { red[a] })
}

/// Replay the first `i` steps: the reduced costs and the running total, or
/// the first error.
pub open spec fn replay(
    arcs: Seq<Arc>,
    active: Seq<bool>,
    terms: Seq<NodeId>,
    root: int,
    steps: Seq<AscentStep>,
    i: int,
) -> Result<(Seq<u64>, int), CertificateError>
    decreases i,
{
    if i <= 0 {
        Ok((initial_reduced(arcs), 0))
    } else {
        match replay(arcs, active, terms, root, steps, i - 1) {
            Err(e) => Err(e),
            Ok((red, total)) => {
                let st = steps[i - 1];
                let t = st.terminal as int;
                if !terms.contains(st.terminal) {
                    Err(CertificateError::NotATerminal((i - 1) as usize))
                } else if in_w(arcs, active, red, t, root) {
                    Err(CertificateError::ContainsRoot((i - 1) as usize))
                } else if !cut_nonempty(arcs, active, red, t) {
                    Err(CertificateError::EmptyCut((i - 1) as usize))
                } else if cut_exceeded(arcs, active, red, t, st.delta) {
                    Err(CertificateError::ExceedsCut((i - 1) as usize))
                } else {
                    Ok((lowered(arcs, active, red, t, st.delta), total + st.delta))
                }
            },
        }
    }
}

/// What checking a certificate against `claimed` gives.
pub open spec fn certificate_outcome(
    arcs: Seq<Arc>,
    active: Seq<bool>,
    terms: Seq<NodeId>,
    root: int,
    steps: Seq<AscentStep>,
    claimed: u64,
) -> Result<u64, CertificateError> {
    match replay(arcs, active, terms, root, steps, steps.len() as int) {
        Err(e) => Err(e),
        Ok((_red, total)) => if total == claimed { Ok(claimed) } else { Err(CertificateError::BoundMismatch) },
    }
}

proof fn lemma_replay_err_sticks(arcs: Seq<Arc>, active: Seq<bool>, terms: Seq<NodeId>, root: int, steps: Seq<AscentStep>, i: int, j: int)
    requires
        0 <= i <= j,
        replay(arcs, active, terms, root, steps, i) is Err,
    ensures
        replay(arcs, active, terms, root, steps, j) == replay(arcs, active, terms, root, steps, i),
    decreases j - i,
{
    if j > i {
        lemma_replay_err_sticks(arcs, active, terms, root, steps, i, j - 1);
    }
}

proof fn lemma_replay_shape(arcs: Seq<Arc>, active: Seq<bool>, terms: Seq<NodeId>, root: int, steps: Seq<AscentStep>, i: int)
    requires
        0 <= i,
        replay(arcs, active, terms, root, steps, i) is Ok,
    ensures
        replay(arcs, active, terms, root, steps, i) matches Ok((red, total))
            && red.len() == arcs.len() && 0 <= total <= i * u64::MAX,
    decreases i,
{
    if i > 0 {
        lemma_replay_shape(arcs, active, terms, root, steps, i - 1);
    }
}

/// Independently re-check a dual-ascent certificate: replay the steps against
/// the arc costs, recomputing each raised set, and confirm that each is a
/// legal Steiner cut whose least reduced cost covers the amount, and that the
/// claimed bound is the sum of the amounts. Returns the verified bound.
pub fn verify_certificate(
    idx: &ArcIndex,
    root: NodeId,
    terminals: &[NodeId],
    active: &[bool],
    result: &DualAscentResult,
) -> (r: Result<Cost, CertificateError>)
    requires
        idx.wf(),
        (root as int) < idx.num_nodes,
        active@.len() >= idx.tails@.len(),
        forall|i: int| 0 <= i < terminals.len() ==> (#[trigger] terminals[i] as int) < idx.num_nodes,
    ensures
        r == certificate_outcome(idx.arcs(), active@, terminals@, root as int, result.steps@, result.lower_bound),
{
    let ghost arcs = idx.arcs();
    let ghost steps = result.steps@;
    let m = idx.num_arcs();
    let mut reduced: Vec<Cost> = Vec::new();
    let mut a: usize = 0;
    while a < m
        invariant
            idx.wf(),
            m == idx.tails@.len(),
            arcs == idx.arcs(),
            a <= m,
            reduced@.len() == a,
            forall|b: int| 0 <= b < a ==> reduced@[b] == #[trigger] arcs[b].cost,
        decreases m - a,
    {
        reduced.push(idx.cost(a as ArcId));
        a += 1;
    }
    proof {
        assert(reduced@ =~= initial_reduced(arcs));
    }
    let mut total: u128 = 0;
    let mut i: usize = 0;
    while i < result.steps.len()
        invariant
            idx.wf(),
            m == idx.tails@.len(),
            arcs == idx.arcs(),
            steps == result.steps@,
            (root as int) < idx.num_nodes,
            active@.len() >= idx.tails@.len(),
            forall|j: int| 0 <= j < terminals.len() ==> (#[trigger] terminals[j] as int) < idx.num_nodes,
            i <= steps.len(),
            replay(arcs, active@, terminals@, root as int, steps, i as int) == Ok::<(Seq<u64>, int), CertificateError>((reduced@, total as int)),
            total <= i * u64::MAX,
            reduced@.len() == m,
        decreases steps.len() - i,
    {
        let st = result.steps[i];
        let ghost red = reduced@;
        let mut known = false;
        let mut j: usize = 0;
        while j < terminals.len()
            invariant
                j <= terminals.len(),
                known <==> exists|j2: int| 0 <= j2 < j && terminals@[j2] == st.terminal,
            decreases terminals.len() - j,
        {
            if terminals[j] == st.terminal {
                known = true;
            }
            j += 1;
        }
        if !known {
            proof {
                assert(!terminals@.contains(st.terminal));
                lemma_replay_err_sticks(arcs, active@, terminals@, root as int, steps, i + 1, steps.len() as int);
            }
            return Err(CertificateError::NotATerminal(i));
        }
        proof {
            let j2 = choose|j2: int| 0 <= j2 < terminals.len() && terminals@[j2] == st.terminal;
            assert(terminals@.contains(st.terminal));
        }
        let member = zero_closure(idx, active, reduced.as_slice(), st.terminal);
        if member[root as usize] {
            proof {
                lemma_replay_err_sticks(arcs, active@, terminals@, root as int, steps, i + 1, steps.len() as int);
            }
            return Err(CertificateError::ContainsRoot(i));
        }
        let mut any = false;
        let mut min_r: Cost = 0;
        let mut b: usize = 0;
        while b < m
            invariant
                idx.wf(),
                m == idx.tails@.len(),
                arcs == idx.arcs(),
                active@.len() >= m,
                reduced@ == red,
                red.len() == m,
                member@.len() == idx.num_nodes,
                forall|v: int| 0 <= v < idx.num_nodes ==> #[trigger] member@[v] == in_w(arcs, active@, red, st.terminal as int, v),
                b <= m,
                any <==> exists|c: int| 0 <= c < b && #[trigger] in_cut(arcs, active@, red, st.terminal as int, c),
                any ==> forall|c: int| 0 <= c < b && #[trigger] in_cut(arcs, active@, red, st.terminal as int, c) ==> min_r <= red[c],
                any ==> exists|c: int| 0 <= c < b && #[trigger] in_cut(arcs, active@, red, st.terminal as int, c) && red[c] == min_r,
            decreases m - b,
        {
            let h = idx.head(b as ArcId);
            let tl = idx.tail(b as ArcId);
            if active[b] && member[h as usize] && !member[tl as usize] {
                assert(in_cut(arcs, active@, red, st.terminal as int, b as int));
                if !any || reduced[b] < min_r {
                    min_r = reduced[b];
                }
                any = true;
            } else {
                assert(!in_cut(arcs, active@, red, st.terminal as int, b as int));
            }
            b += 1;
        }
        if !any {
            proof {
                lemma_replay_err_sticks(arcs, active@, terminals@, root as int, steps, i + 1, steps.len() as int);
            }
            return Err(CertificateError::EmptyCut(i));
        }
        if st.delta > min_r {
            proof {
                let c = choose|c: int| 0 <= c < m && #[trigger] in_cut(arcs, active@, red, st.terminal as int, c) && red[c] == min_r;
                assert(cut_exceeded(arcs, active@, red, st.terminal as int, st.delta));
                lemma_replay_err_sticks(arcs, active@, terminals@, root as int, steps, i + 1, steps.len() as int);
            }
            return Err(CertificateError::ExceedsCut(i));
        }
        let mut b: usize = 0;
        while b < m
            invariant
                idx.wf(),
                m == idx.tails@.len(),
                arcs == idx.arcs(),
                active@.len() >= m,
                red.len() == m,
                reduced@.len() == m,
                member@.len() == idx.num_nodes,
                forall|v: int| 0 <= v < idx.num_nodes ==> #[trigger] member@[v] == in_w(arcs, active@, red, st.terminal as int, v),
                forall|c: int| 0 <= c < m && #[trigger] in_cut(arcs, active@, red, st.terminal as int, c) ==> st.delta <= red[c],
                b <= m,
                forall|c: int| 0 <= c < b ==> #[trigger] reduced@[c] == lowered(arcs, active@, red, st.terminal as int, st.delta)[c],
                forall|c: int| b <= c < m ==> #[trigger] reduced@[c] == red[c],
            decreases m - b,
        {
            let h = idx.head(b as ArcId);
            let tl = idx.tail(b as ArcId);
            if active[b] && member[h as usize] && !member[tl as usize] {
                assert(in_cut(arcs, active@, red, st.terminal as int, b as int));
                let x = reduced[b] - st.delta;
                reduced.set(b, x);
            } else {
                assert(!in_cut(arcs, active@, red, st.terminal as int, b as int));
            }
            b += 1;
        }
        proof {
            assert(!cut_exceeded(arcs, active@, red, st.terminal as int, st.delta));
            assert(reduced@ =~= lowered(arcs, active@, red, st.terminal as int, st.delta));
            assert(cut_nonempty(arcs, active@, red, st.terminal as int));
            assert(!in_w(arcs, active@, red, st.terminal as int, root as int));
        }
        total = total + st.delta as u128;
        i += 1;
    }
    proof {
        lemma_replay_shape(arcs, active@, terminals@, root as int, steps, steps.len() as int);
    }
    if total == result.lower_bound as u128 {
        Ok(result.lower_bound)
    } else {
        Err(CertificateError::BoundMismatch)
    }
}

/// The values `vals[a]` summed over the arcs `a` listed in `y`.
pub open spec fn ysum(y: Seq<ArcId>, vals: Seq<u64>) -> int
    decreases y.len(),
{
    if y.len() == 0 {
        0
    } else {
        ysum(y.drop_last(), vals) + vals[y.last() as int]
    }
}

/// The cost of the arcs listed in `y`.
pub open spec fn arc_cost_sum(arcs: Seq<Arc>, y: Seq<ArcId>) -> int {
    ysum(y, initial_reduced(arcs))
}

/// The arcs listed in `y` contain a path from `root` to `t`.
pub open spec fn holds_path(arcs: Seq<Arc>, y: Seq<ArcId>, root: int, t: int) -> bool {
    exists|p: Seq<ArcId>| is_path(arcs, root, t, p) && forall|i: int| 0 <= i < p.len() ==> y.contains(#[trigger] p[i])
}

proof fn lemma_ysum_nonneg(y: Seq<ArcId>, vals: Seq<u64>)
    ensures
        ysum(y, vals) >= 0,
    decreases y.len(),
{
    if y.len() > 0 {
        lemma_ysum_nonneg(y.drop_last(), vals);
    }
}

/// Lowering values pointwise lowers the sum by at least the drop at any one
/// listed arc.
proof fn lemma_ysum_drop(y: Seq<ArcId>, lo: Seq<u64>, hi: Seq<u64>, k0: int, delta: int)
    requires
        forall|k: int| 0 <= k < y.len() ==> lo[#[trigger] y[k] as int] <= hi[y[k] as int],
        0 <= k0,
        k0 < y.len() ==> hi[y[k0] as int] - lo[y[k0] as int] >= delta,
        k0 >= y.len() ==> delta <= 0,
    ensures
        ysum(y, hi) - ysum(y, lo) >= delta,
    decreases y.len(),
{
    if y.len() > 0 {
        let last = y.len() - 1;
        assert(lo[y[last] as int] <= hi[y[last] as int]);
        assert forall|k: int| 0 <= k < y.drop_last().len() implies lo[#[trigger] y.drop_last()[k] as int] <= hi[y.drop_last()[k] as int] by {
            assert(y.drop_last()[k] == y[k]);
        }
        if k0 == last {
            lemma_ysum_drop(y.drop_last(), lo, hi, y.len() as int, 0);
        } else {
            if 0 <= k0 < last {
                assert(y.drop_last()[k0] == y[k0]);
            }
            lemma_ysum_drop(y.drop_last(), lo, hi, k0, delta);
        }
    }
}

/// A path from outside `W(t)` into it has an arc that enters `W(t)`.
proof fn lemma_path_crosses(arcs: Seq<Arc>, active: Seq<bool>, red: Seq<u64>, t: int, u: int, w: int, p: Seq<ArcId>)
    requires
        is_path(arcs, u, w, p),
        !in_w(arcs, active, red, t, u),
        in_w(arcs, active, red, t, w),
    ensures
        exists|k: int| 0 <= k < p.len()
            && !in_w(arcs, active, red, t, arcs[#[trigger] p[k] as int].tail as int)
            && in_w(arcs, active, red, t, arcs[p[k] as int].head as int),
    decreases p.len(),
{
    if p.len() == 0 {
        assert(u == w);
    } else {
        let h = arcs[p[0] as int].head as int;
        if in_w(arcs, active, red, t, h) {
            assert(arcs[p[0] as int].tail == u);
        } else {
            lemma_path_rest(arcs, u, w, p);
            let q = p.drop_first();
            lemma_path_crosses(arcs, active, red, t, h, w, q);
            let k = choose|k: int| 0 <= k < q.len()
                && !in_w(arcs, active, red, t, arcs[#[trigger] q[k] as int].tail as int)
                && in_w(arcs, active, red, t, arcs[q[k] as int].head as int);
            assert(q[k] == p[k + 1]);
        }
    }
}

/// After a successful replay of `i` steps, the arcs of `y` have lost at
/// least the running total of reduced cost.
proof fn lemma_replay_bound(
    arcs: Seq<Arc>,
    active: Seq<bool>,
    terms: Seq<NodeId>,
    root: int,
    steps: Seq<AscentStep>,
    i: int,
    y: Seq<ArcId>,
)
    requires
        0 <= i <= steps.len(),
        replay(arcs, active, terms, root, steps, i) is Ok,
        forall|k: int| 0 <= k < y.len() ==> (#[trigger] y[k] as int) < arcs.len() && active[y[k] as int],
        forall|j: int| 0 <= j < terms.len() ==> holds_path(arcs, y, root, #[trigger] terms[j] as int),
    ensures
        replay(arcs, active, terms, root, steps, i) matches Ok((red, total))
            && red.len() == arcs.len()
            && arc_cost_sum(arcs, y) - ysum(y, red) >= total,
    decreases i,
{
    if i > 0 {
        lemma_replay_bound(arcs, active, terms, root, steps, i - 1, y);
        let (red, total) = replay(arcs, active, terms, root, steps, i - 1)->Ok_0;
        let st = steps[i - 1];
        let t = st.terminal as int;
        let red2 = lowered(arcs, active, red, t, st.delta);
        let j = choose|j: int| 0 <= j < terms.len() && terms[j] == st.terminal;
        assert(holds_path(arcs, y, root, terms[j] as int));
        let p = choose|p: Seq<ArcId>| is_path(arcs, root, t, p) && forall|i2: int| 0 <= i2 < p.len() ==> y.contains(#[trigger] p[i2]);
        lemma_in_w_self(arcs, active, red, t);
        lemma_path_crosses(arcs, active, red, t, root, t, p);
        let k = choose|k: int| 0 <= k < p.len()
            && !in_w(arcs, active, red, t, arcs[#[trigger] p[k] as int].tail as int)
            && in_w(arcs, active, red, t, arcs[p[k] as int].head as int);
        let a = p[k];
        assert(y.contains(a));
        let k0 = choose|k0: int| 0 <= k0 < y.len() && y[k0] == a;
        assert(y[k0] == a);
        assert(in_cut(arcs, active, red, t, a as int));
        assert forall|k2: int| 0 <= k2 < y.len() implies red2[#[trigger] y[k2] as int] <= red[y[k2] as int] by {
            let b = y[k2] as int;
            if in_cut(arcs, active, red, t, b) {
                assert(!(red[b] < st.delta));
            }
        }
        assert(!(red[a as int] < st.delta));
        lemma_ysum_drop(y, red2, red, k0, st.delta as int);
    }
}

/// Weak duality for a checked certificate: when the replay of `steps`
/// succeeds with the bound `claimed`, every list `y` of active arcs that
/// holds a path from the root to each terminal costs at least `claimed`.
pub proof fn lemma_verified_bound_is_a_lower_bound(
    arcs: Seq<Arc>,
    active: Seq<bool>,
    terms: Seq<NodeId>,
    root: int,
    steps: Seq<AscentStep>,
    claimed: u64,
    y: Seq<ArcId>,
)
    requires
        certificate_outcome(arcs, active, terms, root, steps, claimed) == Ok::<u64, CertificateError>(claimed),
        forall|k: int| 0 <= k < y.len() ==> (#[trigger] y[k] as int) < arcs.len() && active[y[k] as int],
        forall|j: int| 0 <= j < terms.len() ==> holds_path(arcs, y, root, #[trigger] terms[j] as int),
    ensures
        arc_cost_sum(arcs, y) >= claimed,
{
    lemma_replay_bound(arcs, active, terms, root, steps, steps.len() as int, y);
    let (red, total) = replay(arcs, active, terms, root, steps, steps.len() as int)->Ok_0;
    lemma_ysum_nonneg(y, red);
}

/// The arcs among `0..k` that enter `W(t)`, in arc order.
pub open spec fn cut_list(arcs: Seq<Arc>, active: Seq<bool>, red: Seq<u64>, t: int, k: int) -> Seq<ArcId>
    decreases k,
{
    if k <= 0 {
        Seq::empty()
    } else {
        let pre = cut_list(arcs, active, red, t, k - 1);
        if in_cut(arcs, active, red, t, k - 1) { pre.push((k - 1) as ArcId) } else { pre }
    }
}

/// `cut_list` lists, in increasing order, exactly the arcs below `k` that
/// enter `W(t)`.
proof fn lemma_cut_list(arcs: Seq<Arc>, active: Seq<bool>, red: Seq<u64>, t: int, k: int)
    requires
        0 <= k <= u32::MAX + 1,
    ensures
        forall|j: int| 0 <= j < cut_list(arcs, active, red, t, k).len() ==>
            (#[trigger] cut_list(arcs, active, red, t, k)[j]) < k
            && in_cut(arcs, active, red, t, cut_list(arcs, active, red, t, k)[j] as int),
        forall|i: int, j: int| 0 <= i < j < cut_list(arcs, active, red, t, k).len() ==>
            #[trigger] cut_list(arcs, active, red, t, k)[i] < #[trigger] cut_list(arcs, active, red, t, k)[j],
        forall|a: int| 0 <= a < k && #[trigger] in_cut(arcs, active, red, t, a) ==>
            cut_list(arcs, active, red, t, k).contains(a as ArcId),
    decreases k,
{
    if k > 0 {
        lemma_cut_list(arcs, active, red, t, k - 1);
        let pre = cut_list(arcs, active, red, t, k - 1);
        let cur = cut_list(arcs, active, red, t, k);
        assert forall|a: int| 0 <= a < k && #[trigger] in_cut(arcs, active, red, t, a) implies cur.contains(a as ArcId) by {
            if a < k - 1 {
                assert(pre.contains(a as ArcId));
                let j = choose|j: int| 0 <= j < pre.len() && pre[j] == a as ArcId;
                assert(cur[j] == pre[j]);
            } else {
                assert(cur[cur.len() - 1] == a as ArcId);
            }
        }
        assert forall|j: int| 0 <= j < cur.len() implies (#[trigger] cur[j]) < k
            && in_cut(arcs, active, red, t, cur[j] as int) by {
            if j < pre.len() {
                assert(cur[j] == pre[j]);
            }
        }
        assert forall|i: int, j: int| 0 <= i < j < cur.len() implies #[trigger] cur[i] < #[trigger] cur[j] by {
            assert(cur[i] == pre[i]);
            if j < pre.len() {
                assert(cur[j] == pre[j]);
            }
        }
    }
}

/// Lowering reduced costs only grows `W(t)`.
proof fn lemma_w_monotone(arcs: Seq<Arc>, active: Seq<bool>, hi: Seq<u64>, lo: Seq<u64>, t: int, v: int)
    requires
        hi.len() == lo.len(),
        hi.len() == arcs.len(),
        forall|a: int| 0 <= a < lo.len() ==> #[trigger] lo[a] <= hi[a],
        in_w(arcs, active, hi, t, v),
    ensures
        in_w(arcs, active, lo, t, v),
{
    let p = choose|p: Seq<ArcId>| zero_walk(arcs, active, hi, v, t, p);
    assert forall|i: int| 0 <= i < p.len() implies usable(active, lo, #[trigger] p[i] as int) by {
        assert(usable(active, hi, p[i] as int));
        assert(lo[p[i] as int] <= hi[p[i] as int]);
    }
    assert(zero_walk(arcs, active, lo, v, t, p));
}

/// If no arc entering `W(t)` under `hi` has dropped to zero in `lo`, then
/// `W(t)` is the same under both.
proof fn lemma_w_unchanged(arcs: Seq<Arc>, active: Seq<bool>, hi: Seq<u64>, lo: Seq<u64>, t: int, v: int)
    requires
        hi.len() == lo.len(),
        hi.len() == arcs.len(),
        arcs.len() <= u32::MAX + 1,
        forall|a: int| 0 <= a < lo.len() ==> #[trigger] lo[a] <= hi[a],
        forall|a: int| 0 <= a < arcs.len() && #[trigger] in_cut(arcs, active, hi, t, a) ==> lo[a] > 0,
    ensures
        in_w(arcs, active, lo, t, v) == in_w(arcs, active, hi, t, v),
{
    if in_w(arcs, active, hi, t, v) {
        lemma_w_monotone(arcs, active, hi, lo, t, v);
    }
    if in_w(arcs, active, lo, t, v) && !in_w(arcs, active, hi, t, v) {
        let p = choose|p: Seq<ArcId>| zero_walk(arcs, active, lo, v, t, p);
        lemma_in_w_self(arcs, active, hi, t);
        lemma_path_crosses(arcs, active, hi, t, v, t, p);
        let k = choose|k: int| 0 <= k < p.len()
            && !in_w(arcs, active, hi, t, arcs[#[trigger] p[k] as int].tail as int)
            && in_w(arcs, active, hi, t, arcs[p[k] as int].head as int);
        let a = p[k] as int;
        assert(usable(active, lo, a));
        if hi[a] == 0 {
            lemma_in_w_prepend(arcs, active, hi, t, a);
        } else {
            assert(in_cut(arcs, active, hi, t, a));
        }
    }
}

/// Per-terminal state: the grown component `W(t)` and its incoming-arc frontier.
pub struct Component {
    pub terminal: NodeId,
    /// Bitset over node ids of the members of `W(t)`.
    pub member: Vec<u64>,
    /// Arcs entering `W(t)` that still have positive reduced cost.
    pub frontier: Vec<ArcId>,
    /// Nodes added to `W(t)` whose incoming arcs have not been scanned yet.
    pub pending: Vec<NodeId>,
    /// Set once the root joins `W(t)`; the terminal is then connected.
    pub done: bool,
}

impl Component {
    /// The vertices that can be held, `0 .. 64 * words`.
    pub open spec fn capacity(&self) -> nat {
        (64 * self.member@.len()) as nat
    }

    /// Whether `v` is a member.
    pub open spec fn has(&self, v: int) -> bool {
        0 <= v < self.capacity() && bits_view(self.member@, self.capacity())[v]
    }

    /// The component of `terminal` alone, over `words` words of membership.
    pub fn new(terminal: NodeId, words: usize) -> (c: Self)
        requires
            (terminal as int) < 64 * words,
        ensures
            c.member@.len() == words,
            forall|v: int| c.has(v) <==> v == terminal,
            c.terminal == terminal,
            c.frontier@ == Seq::<ArcId>::empty(),
            c.pending@ == seq![terminal],
            !c.done,
    {
        let member = zero_words(words);
        let mut pending: Vec<NodeId> = Vec::new();
        pending.push(terminal);
        let mut c = Component { terminal, member, frontier: Vec::new(), pending, done: false };
        proof {
            assert(bits_view(c.member@, c.capacity()) == super::gf2::zero_vec(c.capacity()));
        }
        c.set(terminal);
        c
    }

    /// Whether `v` is a member.
    pub fn contains(&self, v: NodeId) -> (r: bool)
        requires
            (v as int) < self.capacity(),
        ensures
            r == self.has(v as int),
    {
        proof {
            assert((v as usize) / 64 < self.member@.len());
        }
        test_bit(&self.member, v as usize)
    }

    /// Make `v` a member.
    pub fn set(&mut self, v: NodeId)
        requires
            (v as int) < old(self).capacity(),
        ensures
            final(self).member@.len() == old(self).member@.len(),
            forall|w: int| final(self).has(w) <==> (old(self).has(w) || w == v),
            final(self).terminal == old(self).terminal,
            final(self).frontier == old(self).frontier,
            final(self).pending == old(self).pending,
            final(self).done == old(self).done,
    {
        let ghost n = old(self).capacity();
        proof {
            assert((v as usize) / 64 < self.member@.len());
        }
        set_bit(&mut self.member, v as usize);
        proof {
            assert forall|w: int| self.has(w) <==> (old(self).has(w) || w == v) by {
                if 0 <= w < n {
                    assert(bits_view(self.member@, n)[w] == bits_view(old(self).member@, n).update(v as int, true)[w]);
                }
            }
        }
    }

    /// Mark the terminal as settled.
    pub fn mark_done(&mut self)
        ensures
            final(self).terminal == old(self).terminal,
            final(self).member == old(self).member,
            final(self).frontier == old(self).frontier,
            final(self).pending == old(self).pending,
            final(self).done,
    {
        self.done = true;
    }

    /// Recompute `W(t)` over the arcs that currently have zero reduced cost,
    /// and rebuild the frontier: the active arcs entering `W(t)`, in arc
    /// order. Returns `false`, and marks the component done, if the root was
    /// absorbed.
    pub fn grow(&mut self, idx: &ArcIndex, reduced: &[Cost], active: &[bool], root: NodeId) -> (r: bool)
        requires
            idx.wf(),
            active@.len() >= idx.tails@.len(),
            reduced@.len() == idx.tails@.len(),
            (old(self).terminal as int) < idx.num_nodes,
            (root as int) < idx.num_nodes,
            idx.num_nodes <= old(self).capacity(),
        ensures
            final(self).terminal == old(self).terminal,
            final(self).member@.len() == old(self).member@.len(),
            forall|v: int| 0 <= v < idx.num_nodes ==>
                #[trigger] final(self).has(v) == in_w(idx.arcs(), active@, reduced@, old(self).terminal as int, v),
            final(self).frontier@ == cut_list(idx.arcs(), active@, reduced@, old(self).terminal as int, idx.tails@.len() as int),
            final(self).pending@ == Seq::<NodeId>::empty(),
            r == !in_w(idx.arcs(), active@, reduced@, old(self).terminal as int, root as int),
            final(self).done == (old(self).done || !r),
    {
        let ghost arcs = idx.arcs();
        let ghost t = self.terminal as int;
        let ghost d0 = self.done;
        let n = idx.num_nodes();
        let closure = zero_closure(idx, active, reduced, self.terminal);
        let words = self.member.len();
        self.member = zero_words(words);
        proof {
            assert(bits_view(self.member@, self.capacity()) == super::gf2::zero_vec(self.capacity()));
        }
        let mut v: usize = 0;
        while v < n
            invariant
                n == idx.num_nodes,
                n <= u32::MAX,
                n <= self.capacity(),
                self.member@.len() == words,
                self.terminal == t,
                self.done == d0,
                closure@.len() == n,
                v <= n,
                forall|w: int| 0 <= w < self.capacity() ==> #[trigger] self.has(w) == (w < v && closure@[w]),
            decreases n - v,
        {
            if closure[v] {
                self.set(v as NodeId);
            }
            v += 1;
        }
        let m = idx.num_arcs();
        let mut frontier: Vec<ArcId> = Vec::new();
        let mut b: usize = 0;
        while b < m
            invariant
                idx.wf(),
                m == idx.tails@.len(),
                arcs == idx.arcs(),
                active@.len() >= m,
                reduced@.len() == m,
                closure@.len() == idx.num_nodes,
                forall|w: int| 0 <= w < idx.num_nodes ==> #[trigger] closure@[w] == in_w(arcs, active@, reduced@, t, w),
                b <= m,
                frontier@ == cut_list(arcs, active@, reduced@, t, b as int),
                n == idx.num_nodes,
                n <= self.capacity(),
                self.member@.len() == words,
                self.terminal == t,
                self.done == d0,
                forall|w: int| 0 <= w < self.capacity() ==> #[trigger] self.has(w) == (w < n && closure@[w]),
            decreases m - b,
        {
            let h = idx.head(b as ArcId);
            let tl = idx.tail(b as ArcId);
            if active[b] && closure[h as usize] && !closure[tl as usize] {
                frontier.push(b as ArcId);
            }
            b += 1;
        }
        let ghost mem = self.member@;
        let ghost cap = self.capacity();
        proof {
            assert forall|v: int| 0 <= v < idx.num_nodes implies
                #[trigger] bits_view(mem, cap)[v] == in_w(arcs, active@, reduced@, t, v) by {
                assert(closure@[v] == in_w(arcs, active@, reduced@, t, v));
                assert(v < self.capacity());
                assert(self.has(v) == (v < n && closure@[v]));
            }
        }
        self.frontier = frontier;
        self.pending = Vec::new();
        proof {
            assert(self.member@ == mem);
            assert(self.capacity() == cap);
            assert forall|v: int| 0 <= v < idx.num_nodes implies
                #[trigger] self.has(v) == in_w(arcs, active@, reduced@, t, v) by {
                assert(bits_view(mem, cap)[v] == in_w(arcs, active@, reduced@, t, v));
            }
        }
        if closure[root as usize] {
            self.done = true;
            return false;
        }
        true
    }
}

/// Membership in `W(t)` over the vertices `0..n`.
pub open spec fn w_seq(arcs: Seq<Arc>, active: Seq<bool>, red: Seq<u64>, t: int, n: nat) -> Seq<bool> {
    Seq::new(n, |v: int| in_w(arcs, active, red, t, v))
}

/// What is left to do for a component whose set was last grown under `r`:
/// nothing once it is done, else the vertices still outside, plus one.
pub open spec fn comp_term(c: Component, r: Seq<u64>, arcs: Seq<Arc>, active: Seq<bool>, n: nat) -> int {
    if c.done { 0 } else { n + 1 - count_true(w_seq(arcs, active, r, c.terminal as int, n)) }
}

/// The work left over the first `k` components.
pub open spec fn ascent_measure(comps: Seq<Component>, rr: Seq<Seq<u64>>, arcs: Seq<Arc>, active: Seq<bool>, n: nat, k: int) -> int
    decreases k,
{
    if k <= 0 {
        0
    } else {
        ascent_measure(comps, rr, arcs, active, n, k - 1) + comp_term(comps[k - 1], rr[k - 1], arcs, active, n)
    }
}

proof fn lemma_count_true_grows(s1: Seq<bool>, s2: Seq<bool>, j: int)
    requires
        s1.len() == s2.len(),
        forall|i: int| 0 <= i < s1.len() && #[trigger] s1[i] ==> s2[i],
        0 <= j < s1.len() ==> !s1[j] && s2[j],
    ensures
        count_true(s1) <= count_true(s2),
        0 <= j < s1.len() ==> count_true(s1) < count_true(s2),
    decreases s1.len(),
{
    if s1.len() > 0 {
        let l = s1.len() - 1;
        assert forall|i: int| 0 <= i < s1.drop_last().len() && #[trigger] s1.drop_last()[i] implies s2.drop_last()[i] by {
            assert(s1.drop_last()[i] == s1[i]);
            assert(s2.drop_last()[i] == s2[i]);
        }
        if j == l {
            lemma_count_true_grows(s1.drop_last(), s2.drop_last(), -1);
        } else {
            if 0 <= j < l {
                assert(s1.drop_last()[j] == s1[j]);
                assert(s2.drop_last()[j] == s2[j]);
            }
            lemma_count_true_grows(s1.drop_last(), s2.drop_last(), j);
        }
        assert(s1[l] ==> s2[l]);
    }
}

proof fn lemma_measure_nonneg(comps: Seq<Component>, rr: Seq<Seq<u64>>, arcs: Seq<Arc>, active: Seq<bool>, n: nat, k: int)
    requires
        k <= comps.len(),
        k <= rr.len(),
    ensures
        ascent_measure(comps, rr, arcs, active, n, k) >= 0,
    decreases k,
{
    if k > 0 {
        lemma_measure_nonneg(comps, rr, arcs, active, n, k - 1);
        lemma_count_true_le(w_seq(arcs, active, rr[k - 1], comps[k - 1].terminal as int, n));
    }
}

/// Changing one component's term changes the measure by the same amount.
proof fn lemma_measure_update(
    comps: Seq<Component>,
    rr: Seq<Seq<u64>>,
    comps2: Seq<Component>,
    rr2: Seq<Seq<u64>>,
    arcs: Seq<Arc>,
    active: Seq<bool>,
    n: nat,
    i: int,
    k: int,
)
    requires
        comps.len() == rr.len(),
        comps2.len() == comps.len(),
        rr2.len() == rr.len(),
        0 <= i < comps.len(),
        0 <= k <= comps.len(),
        forall|j: int| 0 <= j < comps.len() && j != i ==> comps2[j] == comps[j] && rr2[j] == rr[j],
    ensures
        ascent_measure(comps2, rr2, arcs, active, n, k) - ascent_measure(comps, rr, arcs, active, n, k)
            == if k > i {
                comp_term(comps2[i], rr2[i], arcs, active, n) - comp_term(comps[i], rr[i], arcs, active, n)
            } else {
                0
            },
    decreases k,
{
    if k > 0 {
        lemma_measure_update(comps, rr, comps2, rr2, arcs, active, n, i, k - 1);
    }
}

/// The state the ascent keeps between steps: every component's set and
/// frontier are those of `W(t)` under the reduced costs `rr[c]` it last grew
/// with, which are at least the current ones, and a component that is not
/// done has the root outside that set.
pub open spec fn comps_ok(
    comps: Seq<Component>,
    rr: Seq<Seq<u64>>,
    arcs: Seq<Arc>,
    active: Seq<bool>,
    terms: Seq<NodeId>,
    root: int,
    red: Seq<u64>,
    n: nat,
) -> bool {
    &&& comps.len() == rr.len()
    &&& forall|c: int| 0 <= c < comps.len() ==> {
        &&& terms.contains((#[trigger] comps[c]).terminal)
        &&& (comps[c].terminal as int) < n
        &&& n <= comps[c].capacity()
        &&& rr[c].len() == arcs.len()
        &&& (forall|a: int| 0 <= a < arcs.len() ==> #[trigger] red[a] <= rr[c][a])
        &&& (forall|v: int| 0 <= v < n ==> #[trigger] comps[c].has(v) == in_w(arcs, active, rr[c], comps[c].terminal as int, v))
        &&& comps[c].frontier@ == cut_list(arcs, active, rr[c], comps[c].terminal as int, arcs.len() as int)
        &&& (!comps[c].done ==> !in_w(arcs, active, rr[c], comps[c].terminal as int, root))
    }
}

/// The terminal `t` is settled under `red`: the root lies in `W(t)`, or no
/// active arc enters `W(t)`, so no raise is left for it.
pub open spec fn settled_terminal(arcs: Seq<Arc>, active: Seq<bool>, red: Seq<u64>, t: int, root: int) -> bool {
    in_w(arcs, active, red, t, root) || forall|a: int| 0 <= a < arcs.len() ==> !#[trigger] in_cut(arcs, active, red, t, a)
}

/// Why the ascent stopped: every terminal other than the root is settled
/// under the final reduced costs, or the next raise would have taken the
/// bound past `u64::MAX` (the bound plus some reduced arc cost exceeds it).
pub open spec fn ascent_finished(arcs: Seq<Arc>, active: Seq<bool>, terminals: Seq<NodeId>, root: int, r: DualAscentResult) -> bool {
    ||| forall|i: int| 0 <= i < terminals.len() && terminals[i] != root ==>
        settled_terminal(arcs, active, r.reduced_costs@, #[trigger] terminals[i] as int, root)
    ||| exists|a: int| 0 <= a < arcs.len() && r.lower_bound + r.reduced_costs@[a] > u64::MAX
}

/// Every terminal other than the root has a component.
pub open spec fn covered_by(comps: Seq<Component>, terminals: Seq<NodeId>, root: NodeId, upto: int) -> bool {
    forall|j: int| 0 <= j < upto && terminals[j] != root ==>
        exists|c: int| 0 <= c < comps.len() && (#[trigger] comps[c]).terminal == #[trigger] terminals[j]
}

/// Every finished component is settled under its own reduced costs.
pub open spec fn done_settled(comps: Seq<Component>, rr: Seq<Seq<u64>>, arcs: Seq<Arc>, active: Seq<bool>, root: int) -> bool {
    forall|c: int| 0 <= c < comps.len() && (#[trigger] comps[c]).done ==>
        settled_terminal(arcs, active, rr[c], comps[c].terminal as int, root)
}

/// Updating one component, keeping its terminal, keeps every terminal
/// covered and every finished component settled, when the updated one is
/// settled if finished.
proof fn lemma_tracking_kept(
    old_comps: Seq<Component>,
    comps: Seq<Component>,
    rr0: Seq<Seq<u64>>,
    rr1: Seq<Seq<u64>>,
    ci: int,
    arcs: Seq<Arc>,
    active: Seq<bool>,
    terminals: Seq<NodeId>,
    root: NodeId,
)
    requires
        0 <= ci < comps.len(),
        comps.len() == old_comps.len(),
        rr0.len() == old_comps.len(),
        rr1.len() == rr0.len(),
        forall|cc: int| 0 <= cc < comps.len() && cc != ci ==> #[trigger] comps[cc] == old_comps[cc] && rr1[cc] == rr0[cc],
        comps[ci].terminal == old_comps[ci].terminal,
        comps[ci].done ==> settled_terminal(arcs, active, rr1[ci], comps[ci].terminal as int, root as int),
        covered_by(old_comps, terminals, root, terminals.len() as int),
        done_settled(old_comps, rr0, arcs, active, root as int),
    ensures
        covered_by(comps, terminals, root, terminals.len() as int),
        done_settled(comps, rr1, arcs, active, root as int),
{
    assert forall|j: int| 0 <= j < terminals.len() && terminals[j] != root implies
        exists|c2: int| 0 <= c2 < comps.len() && (#[trigger] comps[c2]).terminal == #[trigger] terminals[j] by {
        let c2 = choose|c2: int| 0 <= c2 < old_comps.len() && (#[trigger] old_comps[c2]).terminal == terminals[j];
        if c2 != ci {
            assert(comps[c2] == old_comps[c2]);
        }
        assert(comps[c2].terminal == terminals[j]);
    }
    assert forall|c2: int| 0 <= c2 < comps.len() && (#[trigger] comps[c2]).done implies
        settled_terminal(arcs, active, rr1[c2], comps[c2].terminal as int, root as int) by {
        if c2 != ci {
            assert(comps[c2] == old_comps[c2]);
        }
    }
}

/// With no active arc entering `W(t)` under `hi`, a walk of usable arcs under
/// any lower `lo` ends in `W(t)` only if it starts there.
proof fn lemma_closed_w(arcs: Seq<Arc>, active: Seq<bool>, hi: Seq<u64>, lo: Seq<u64>, t: int, v: int, p: Seq<ArcId>)
    requires
        forall|a: int| 0 <= a < arcs.len() ==> !#[trigger] in_cut(arcs, active, hi, t, a),
        zero_walk(arcs, active, lo, v, t, p),
    ensures
        in_w(arcs, active, hi, t, v),
    decreases p.len(),
{
    if p.len() == 0 {
        lemma_in_w_self(arcs, active, hi, t);
    } else {
        let a = p[0] as int;
        let w = arcs[a].head as int;
        let rest = p.drop_first();
        assert(is_path(arcs, w, t, rest)) by {
            if rest.len() > 0 {
                assert(p[1] == rest[0]);
                assert(arcs[p[0] as int].head == arcs[p[1] as int].tail);
                assert(rest[rest.len() - 1] == p[p.len() - 1]);
                assert forall|i: int| 0 <= i < rest.len() - 1 implies arcs[#[trigger] rest[i] as int].head == arcs[rest[i + 1] as int].tail by {
                    assert(rest[i] == p[i + 1]);
                    assert(rest[i + 1] == p[i + 2]);
                }
            }
        }
        assert forall|i: int| 0 <= i < rest.len() implies usable(active, lo, #[trigger] rest[i] as int) by {
            assert(rest[i] == p[i + 1]);
        }
        lemma_closed_w(arcs, active, hi, lo, t, w, rest);
        assert(usable(active, lo, p[0] as int));
        assert(arcs[a].tail == v);
        if !in_w(arcs, active, hi, t, v) {
            assert(in_cut(arcs, active, hi, t, a));
        }
    }
}

/// A settled terminal stays settled when reduced costs only go down.
proof fn lemma_settled_mono(arcs: Seq<Arc>, active: Seq<bool>, hi: Seq<u64>, lo: Seq<u64>, t: int, root: int)
    requires
        hi.len() == lo.len(),
        hi.len() == arcs.len(),
        forall|a: int| 0 <= a < lo.len() ==> #[trigger] lo[a] <= hi[a],
        settled_terminal(arcs, active, hi, t, root),
    ensures
        settled_terminal(arcs, active, lo, t, root),
{
    if in_w(arcs, active, hi, t, root) {
        lemma_w_monotone(arcs, active, hi, lo, t, root);
    } else {
        assert forall|a: int| 0 <= a < arcs.len() implies !#[trigger] in_cut(arcs, active, lo, t, a) by {
            if in_cut(arcs, active, lo, t, a) {
                let h = arcs[a].head as int;
                let tl = arcs[a].tail as int;
                let p = choose|p: Seq<ArcId>| zero_walk(arcs, active, lo, h, t, p);
                lemma_closed_w(arcs, active, hi, lo, t, h, p);
                if in_w(arcs, active, hi, t, tl) {
                    lemma_w_monotone(arcs, active, hi, lo, t, tl);
                }
                assert(in_cut(arcs, active, hi, t, a));
            }
        }
    }
}

/// Wong's dual ascent from `root` over the active arcs. Each step raises
/// `W(t)` for the unconnected terminal whose frontier was smallest when last
/// grown, by the least reduced cost on it. The cuts (and the sets with their
/// amounts) are recorded while their budgets of entries last. The ascent
/// stops when every terminal is connected or cut off, or before the bound
/// would leave `u64`.
#[verifier::rlimit(60)]
fn ascend(
    idx: &ArcIndex,
    root: NodeId,
    terminals: &[NodeId],
    active: &[bool],
    cut_nnz_budget: usize,
    set_nnz_budget: usize,
) -> (r: DualAscentResult)
    requires
        idx.wf(),
        (root as int) < idx.num_nodes,
        active@.len() >= idx.tails@.len(),
        forall|i: int| 0 <= i < terminals.len() ==> (#[trigger] terminals[i] as int) < idx.num_nodes,
    ensures
        r.root == root,
        replay(idx.arcs(), active@, terminals@, root as int, r.steps@, r.steps@.len() as int)
            == Ok::<(Seq<u64>, int), CertificateError>((r.reduced_costs@, r.lower_bound as int)),
        ascent_finished(idx.arcs(), active@, terminals@, root as int, r),
{
    let ghost arcs = idx.arcs();
    let m = idx.num_arcs();
    let n = idx.num_nodes();
    let mut reduced: Vec<Cost> = Vec::new();
    let mut a: usize = 0;
    while a < m
        invariant
            idx.wf(),
            m == idx.tails@.len(),
            arcs == idx.arcs(),
            a <= m,
            reduced@.len() == a,
            forall|b: int| 0 <= b < a ==> reduced@[b] == #[trigger] arcs[b].cost,
        decreases m - a,
    {
        reduced.push(idx.cost(a as ArcId));
        a += 1;
    }
    proof {
        assert(reduced@ =~= initial_reduced(arcs));
    }
    let words: usize = n / 64 + 1;
    let mut comps: Vec<Component> = Vec::new();
    let ghost mut rr: Seq<Seq<u64>> = Seq::empty();
    let mut i: usize = 0;
    while i < terminals.len()
        invariant
            idx.wf(),
            m == idx.tails@.len(),
            n == idx.num_nodes,
            arcs == idx.arcs(),
            active@.len() >= m,
            (root as int) < n,
            forall|j: int| 0 <= j < terminals.len() ==> (#[trigger] terminals[j] as int) < n,
            words == n / 64 + 1,
            reduced@ == initial_reduced(arcs),
            i <= terminals.len(),
            comps_ok(comps@, rr, arcs, active@, terminals@, root as int, reduced@, n as nat),
            covered_by(comps@, terminals@, root, i as int),
            done_settled(comps@, rr, arcs, active@, root as int),
        decreases terminals.len() - i,
    {
        let t = terminals[i];
        if t != root {
            let mut c = Component::new(t, words);
            c.grow(idx, reduced.as_slice(), active, root);
            proof {
                assert(terminals@[i as int] == t);
                assert(terminals@.contains(t));
            }
            let ghost old_comps = comps@;
            comps.push(c);
            proof {
                rr = rr.push(reduced@);
                assert forall|cc: int| 0 <= cc < comps@.len() implies {
                    &&& terminals@.contains((#[trigger] comps@[cc]).terminal)
                    &&& (comps@[cc].terminal as int) < n
                    &&& n <= comps@[cc].capacity()
                    &&& rr[cc].len() == arcs.len()
                    &&& (forall|a: int| 0 <= a < arcs.len() ==> #[trigger] reduced@[a] <= rr[cc][a])
                    &&& (forall|v: int| 0 <= v < n ==> #[trigger] comps@[cc].has(v) == in_w(arcs, active@, rr[cc], comps@[cc].terminal as int, v))
                    &&& comps@[cc].frontier@ == cut_list(arcs, active@, rr[cc], comps@[cc].terminal as int, arcs.len() as int)
                    &&& (!comps@[cc].done ==> !in_w(arcs, active@, rr[cc], comps@[cc].terminal as int, root as int))
                } by {
                    if cc < old_comps.len() {
                        assert(comps@[cc] == old_comps[cc]);
                    }
                }
                assert forall|j: int| 0 <= j < i + 1 && terminals@[j] != root implies
                    exists|c2: int| 0 <= c2 < comps@.len() && (#[trigger] comps@[c2]).terminal == #[trigger] terminals@[j] by {
                    if j == i as int {
                        assert(comps@[old_comps.len() as int].terminal == terminals@[j]);
                    } else {
                        let c2 = choose|c2: int| 0 <= c2 < old_comps.len() && (#[trigger] old_comps[c2]).terminal == terminals@[j];
                        assert(comps@[c2] == old_comps[c2]);
                    }
                }
                assert forall|c2: int| 0 <= c2 < comps@.len() && (#[trigger] comps@[c2]).done implies
                    settled_terminal(arcs, active@, rr[c2], comps@[c2].terminal as int, root as int) by {
                    if c2 < old_comps.len() {
                        assert(comps@[c2] == old_comps[c2]);
                    }
                }
            }
        } else {
            proof {
                assert forall|j: int| 0 <= j < i + 1 && terminals@[j] != root implies
                    exists|c2: int| 0 <= c2 < comps@.len() && (#[trigger] comps@[c2]).terminal == #[trigger] terminals@[j] by {
                    assert(j != i as int);
                }
            }
        }
        i += 1;
    }

    let mut lower_bound: Cost = 0;
    let mut steps: Vec<AscentStep> = Vec::new();
    let mut cuts: Vec<Vec<ArcId>> = Vec::new();
    let mut sets: Vec<(Cost, Vec<NodeId>)> = Vec::new();
    let mut cut_budget = cut_nnz_budget;
    let mut set_budget = set_nnz_budget;
    if comps.len() == 0 {
        proof {
            assert forall|j: int| 0 <= j < terminals@.len() && terminals@[j] != root implies
                settled_terminal(arcs, active@, reduced@, #[trigger] terminals@[j] as int, root as int) by {
                assert(covered_by(comps@, terminals@, root, terminals@.len() as int));
            }
        }
        return DualAscentResult { lower_bound, reduced_costs: reduced, root, steps, cuts, sets };
    }
    loop
        invariant
            idx.wf(),
            m == idx.tails@.len(),
            n == idx.num_nodes,
            arcs == idx.arcs(),
            active@.len() >= m,
            (root as int) < n,
            forall|j: int| 0 <= j < terminals.len() ==> (#[trigger] terminals[j] as int) < n,
            reduced@.len() == m,
            replay(arcs, active@, terminals@, root as int, steps@, steps@.len() as int)
                == Ok::<(Seq<u64>, int), CertificateError>((reduced@, lower_bound as int)),
            comps_ok(comps@, rr, arcs, active@, terminals@, root as int, reduced@, n as nat),
            covered_by(comps@, terminals@, root, terminals@.len() as int),
            done_settled(comps@, rr, arcs, active@, root as int),
        ensures
            reduced@.len() == m,
            replay(arcs, active@, terminals@, root as int, steps@, steps@.len() as int)
                == Ok::<(Seq<u64>, int), CertificateError>((reduced@, lower_bound as int)),
            (forall|c: int| 0 <= c < comps@.len() ==> (#[trigger] comps@[c]).done)
                || exists|a: int| 0 <= a < m && lower_bound + reduced@[a] > u64::MAX,
            comps_ok(comps@, rr, arcs, active@, terminals@, root as int, reduced@, n as nat),
            covered_by(comps@, terminals@, root, terminals@.len() as int),
            done_settled(comps@, rr, arcs, active@, root as int),
        decreases ascent_measure(comps@, rr, arcs, active@, n as nat, comps@.len() as int),
    {
        // The unconnected terminal whose frontier was smallest when last grown.
        let mut best: Option<usize> = None;
        let mut best_size: usize = usize::MAX;
        let mut c: usize = 0;
        while c < comps.len()
            invariant
                c <= comps@.len(),
                best matches Some(b) ==> b < comps@.len() && !comps@[b as int].done,
                best is None ==> forall|c2: int| 0 <= c2 < c ==> (#[trigger] comps@[c2]).done,
            decreases comps@.len() - c,
        {
            if !comps[c].done && (best.is_none() || comps[c].frontier.len() < best_size) {
                best_size = comps[c].frontier.len();
                best = Some(c);
            }
            c += 1;
        }
        let ci = match best {
            None => break,
            Some(ci) => ci,
        };
        let ghost t = comps@[ci as int].terminal as int;
        let ghost r0 = rr[ci as int];
        let ghost m0 = ascent_measure(comps@, rr, arcs, active@, n as nat, comps@.len() as int);
        proof {
            assert(comps_ok(comps@, rr, arcs, active@, terminals@, root as int, reduced@, n as nat));
            assert(terminals@.contains(comps@[ci as int].terminal));
            lemma_count_true_le(w_seq(arcs, active@, r0, t, n as nat));
            lemma_cut_list(arcs, active@, r0, t, m as int);
        }
        if comps[ci].frontier.len() == 0 {
            // An unconnected terminal with no entering arc cannot be reached.
            let ghost old_comps = comps@;
            comps[ci].mark_done();
            proof {
                assert forall|cc: int| 0 <= cc < comps@.len() && cc != ci implies #[trigger] comps@[cc] == old_comps[cc] by {}
                lemma_measure_update(old_comps, rr, comps@, rr, arcs, active@, n as nat, ci as int, comps@.len() as int);
                assert forall|cc: int| 0 <= cc < comps@.len() implies {
                    &&& terminals@.contains((#[trigger] comps@[cc]).terminal)
                    &&& (comps@[cc].terminal as int) < n
                    &&& n <= comps@[cc].capacity()
                    &&& rr[cc].len() == arcs.len()
                    &&& (forall|a: int| 0 <= a < arcs.len() ==> #[trigger] reduced@[a] <= rr[cc][a])
                    &&& (forall|v: int| 0 <= v < n ==> #[trigger] comps@[cc].has(v) == in_w(arcs, active@, rr[cc], comps@[cc].terminal as int, v))
                    &&& comps@[cc].frontier@ == cut_list(arcs, active@, rr[cc], comps@[cc].terminal as int, arcs.len() as int)
                    &&& (!comps@[cc].done ==> !in_w(arcs, active@, rr[cc], comps@[cc].terminal as int, root as int))
                } by {
                    if cc != ci {
                        assert(comps@[cc] == old_comps[cc]);
                    } else {
                        assert(comps@[cc].member == old_comps[cc].member);
                        assert forall|v: int| 0 <= v < n implies #[trigger] comps@[cc].has(v) == old_comps[cc].has(v) by {}
                    }
                }
                lemma_measure_nonneg(comps@, rr, arcs, active@, n as nat, comps@.len() as int);
                lemma_cut_list(arcs, active@, rr[ci as int], t, m as int);
                assert forall|a: int| 0 <= a < arcs.len() implies !#[trigger] in_cut(arcs, active@, rr[ci as int], t, a) by {
                    if in_cut(arcs, active@, rr[ci as int], t, a) {
                        assert(cut_list(arcs, active@, rr[ci as int], t, m as int).contains(a as ArcId));
                    }
                }
                lemma_tracking_kept(old_comps, comps@, rr, rr, ci as int, arcs, active@, terminals@, root);
            }
            continue;
        }
        let mut delta: Cost = reduced[comps[ci].frontier[0] as usize];
        let mut arg: usize = 0;
        let mut j: usize = 1;
        while j < comps[ci].frontier.len()
            invariant
                ci < comps@.len(),
                reduced@.len() == m,
                comps@[ci as int].frontier@ == cut_list(arcs, active@, r0, t, m as int),
                forall|k: int| 0 <= k < cut_list(arcs, active@, r0, t, m as int).len() ==>
                    (#[trigger] cut_list(arcs, active@, r0, t, m as int)[k]) < m,
                1 <= j <= comps@[ci as int].frontier@.len(),
                arg < j,
                delta == reduced@[comps@[ci as int].frontier@[arg as int] as int],
                forall|k: int| 0 <= k < j ==> delta <= reduced@[#[trigger] comps@[ci as int].frontier@[k] as int],
            decreases comps@[ci as int].frontier@.len() - j,
        {
            let x = reduced[comps[ci].frontier[j] as usize];
            if x < delta {
                delta = x;
                arg = j;
            }
            j += 1;
        }
        let ghost astar = comps@[ci as int].frontier@[arg as int] as int;
        proof {
            assert(in_cut(arcs, active@, r0, t, astar));
            assert(reduced@[astar] <= r0[astar]);
            lemma_w_monotone(arcs, active@, r0, reduced@, t, arcs[astar].head as int);
        }
        if delta == 0 {
            // A frontier arc was saturated by another terminal's step: regrow.
            let ghost old_comps = comps@;
            proof {
                lemma_in_w_prepend(arcs, active@, reduced@, t, astar);
            }
            comps[ci].grow(idx, reduced.as_slice(), active, root);
            proof {
                let rr2 = rr.update(ci as int, reduced@);
                let tl = arcs[astar].tail as int;
                assert forall|v: int| 0 <= v < n && #[trigger] w_seq(arcs, active@, r0, t, n as nat)[v]
                    implies w_seq(arcs, active@, reduced@, t, n as nat)[v] by {
                    lemma_w_monotone(arcs, active@, r0, reduced@, t, v);
                }
                lemma_count_true_grows(w_seq(arcs, active@, r0, t, n as nat), w_seq(arcs, active@, reduced@, t, n as nat), tl);
                assert forall|cc: int| 0 <= cc < comps@.len() && cc != ci implies #[trigger] comps@[cc] == old_comps[cc] by {}
                lemma_measure_update(old_comps, rr, comps@, rr2, arcs, active@, n as nat, ci as int, comps@.len() as int);
                lemma_tracking_kept(old_comps, comps@, rr, rr2, ci as int, arcs, active@, terminals@, root);
                rr = rr2;
                lemma_measure_nonneg(comps@, rr, arcs, active@, n as nat, comps@.len() as int);
            }
            continue;
        }
        if lower_bound > u64::MAX - delta {
            break;
        }
        proof {
            // With every frontier arc still positive, W(t) is the set it was
            // grown to, and its cut is the frontier.
            assert forall|b: int| 0 <= b < arcs.len() && #[trigger] in_cut(arcs, active@, r0, t, b) implies reduced@[b] > 0 by {
                assert(cut_list(arcs, active@, r0, t, m as int).contains(b as ArcId));
                let k = choose|k: int| 0 <= k < cut_list(arcs, active@, r0, t, m as int).len()
                    && cut_list(arcs, active@, r0, t, m as int)[k] == b as ArcId;
                assert(delta <= reduced@[comps@[ci as int].frontier@[k] as int]);
            }
            assert forall|v: int| #[trigger] in_w(arcs, active@, reduced@, t, v) == in_w(arcs, active@, r0, t, v) by {
                lemma_w_unchanged(arcs, active@, r0, reduced@, t, v);
            }
        }
        let ghost red0 = reduced@;
        let ghost bound0 = lower_bound;
        let frontier_len = comps[ci].frontier.len();
        if cut_budget >= frontier_len {
            cut_budget = cut_budget - frontier_len;
            cuts.push(comps[ci].frontier.clone());
        } else {
            cut_budget = 0;
        }
        if set_budget > 0 {
            let mut members: Vec<NodeId> = Vec::new();
            let mut v: usize = 0;
            while v < n
                invariant
                    ci < comps@.len(),
                    n <= comps@[ci as int].capacity(),
                    n <= u32::MAX,
                    v <= n,
                    members@.len() <= v,
                decreases n - v,
            {
                if comps[ci].contains(v as NodeId) {
                    members.push(v as NodeId);
                }
                v += 1;
            }
            if members.len() <= set_budget {
                set_budget = set_budget - members.len();
                sets.push((delta, members));
            } else {
                set_budget = 0;
            }
        }
        let mut j: usize = 0;
        while j < comps[ci].frontier.len()
            invariant
                ci < comps@.len(),
                reduced@.len() == m,
                m <= u32::MAX,
                comps@[ci as int].frontier@ == cut_list(arcs, active@, r0, t, m as int),
                forall|k: int| 0 <= k < cut_list(arcs, active@, r0, t, m as int).len() ==>
                    (#[trigger] cut_list(arcs, active@, r0, t, m as int)[k]) < m
                    && in_cut(arcs, active@, r0, t, cut_list(arcs, active@, r0, t, m as int)[k] as int),
                forall|i1: int, i2: int| 0 <= i1 < i2 < cut_list(arcs, active@, r0, t, m as int).len() ==>
                    #[trigger] cut_list(arcs, active@, r0, t, m as int)[i1] < #[trigger] cut_list(arcs, active@, r0, t, m as int)[i2],
                forall|k: int| 0 <= k < comps@[ci as int].frontier@.len() ==> delta <= red0[#[trigger] comps@[ci as int].frontier@[k] as int],
                red0.len() == m,
                j <= comps@[ci as int].frontier@.len(),
                forall|b: int| 0 <= b < m ==> #[trigger] reduced@[b]
                    == if comps@[ci as int].frontier@.subrange(0, j as int).contains(b as ArcId) { (red0[b] - delta) as u64 } else { red0[b] },
            decreases comps@[ci as int].frontier@.len() - j,
        {
            let b = comps[ci].frontier[j] as usize;
            let ghost f = comps@[ci as int].frontier@;
            proof {
                let s0 = f.subrange(0, j as int);
                assert(!s0.contains(b as ArcId)) by {
                    if s0.contains(b as ArcId) {
                        let k = choose|k: int| 0 <= k < s0.len() && s0[k] == b as ArcId;
                        assert(f[k] == s0[k]);
                    }
                }
                assert(delta <= red0[f[j as int] as int]);
            }
            let x = reduced[b] - delta;
            reduced.set(b, x);
            proof {
                assert forall|b2: int| 0 <= b2 < m implies #[trigger] reduced@[b2]
                    == if f.subrange(0, j + 1).contains(b2 as ArcId) { (red0[b2] - delta) as u64 } else { red0[b2] } by {
                    let s1 = f.subrange(0, j + 1);
                    let s0 = f.subrange(0, j as int);
                    if b2 == b {
                        assert(s1[j as int] == b as ArcId);
                    } else {
                        if s1.contains(b2 as ArcId) {
                            let k = choose|k: int| 0 <= k < s1.len() && s1[k] == b2 as ArcId;
                            assert(s1[k] == f[k]);
                            assert(f[j as int] as int == b);
                            assert(k != j);
                            assert(s0[k] == f[k]);
                        }
                        if s0.contains(b2 as ArcId) {
                            let k = choose|k: int| 0 <= k < s0.len() && s0[k] == b2 as ArcId;
                            assert(s1[k] == f[k]);
                        }
                    }
                }
            }
            j += 1;
        }
        proof {
            let f = comps@[ci as int].frontier@;
            assert(f.subrange(0, f.len() as int) == f);
            assert forall|b: int| 0 <= b < m implies #[trigger] reduced@[b] == lowered(arcs, active@, red0, t, delta)[b] by {
                if in_cut(arcs, active@, red0, t, b) {
                    assert(in_cut(arcs, active@, r0, t, b));
                    assert(f.contains(b as ArcId));
                } else if f.contains(b as ArcId) {
                    let k = choose|k: int| 0 <= k < f.len() && f[k] == b as ArcId;
                    assert(in_cut(arcs, active@, r0, t, b));
                }
            }
            assert(reduced@ =~= lowered(arcs, active@, red0, t, delta));
            assert(in_cut(arcs, active@, red0, t, astar));
            assert(cut_nonempty(arcs, active@, red0, t));
            assert(!cut_exceeded(arcs, active@, red0, t, delta)) by {
                if cut_exceeded(arcs, active@, red0, t, delta) {
                    let b = choose|b: int| 0 <= b < arcs.len() && #[trigger] in_cut(arcs, active@, red0, t, b) && red0[b] < delta;
                    assert(in_cut(arcs, active@, r0, t, b));
                    assert(f.contains(b as ArcId));
                    let k = choose|k: int| 0 <= k < f.len() && f[k] == b as ArcId;
                }
            }
            assert(!in_w(arcs, active@, red0, t, root as int));
        }
        lower_bound = lower_bound + delta;
        let terminal = comps[ci].terminal;
        let ghost old_steps = steps@;
        steps.push(AscentStep { terminal, delta });
        proof {
            assert(steps@.len() == old_steps.len() + 1);
            assert(steps@[old_steps.len() as int] == AscentStep { terminal, delta });
            assert(steps@.drop_last() == old_steps);
            lemma_replay_prefix(arcs, active@, terminals@, root as int, old_steps, steps@, old_steps.len() as int);
        }
        let ghost old_comps = comps@;
        let ghost red1 = reduced@;
        proof {
            assert forall|b: int| 0 <= b < red1.len() implies #[trigger] red1[b] <= r0[b] by {
                assert(red1[b] <= red0[b]);
                assert(red0[b] <= r0[b]);
            }
            lemma_w_monotone(arcs, active@, r0, red1, t, arcs[astar].head as int);
            assert(red1[astar] == 0);
            lemma_in_w_prepend(arcs, active@, red1, t, astar);
        }
        comps[ci].grow(idx, reduced.as_slice(), active, root);
        proof {
            let rr2 = rr.update(ci as int, red1);
            let tl = arcs[astar].tail as int;
            assert forall|v: int| 0 <= v < n && #[trigger] w_seq(arcs, active@, r0, t, n as nat)[v]
                implies w_seq(arcs, active@, red1, t, n as nat)[v] by {
                lemma_w_monotone(arcs, active@, r0, red1, t, v);
            }
            assert(!in_w(arcs, active@, r0, t, tl));
            lemma_count_true_grows(w_seq(arcs, active@, r0, t, n as nat), w_seq(arcs, active@, red1, t, n as nat), tl);
            assert forall|cc: int| 0 <= cc < comps@.len() && cc != ci implies #[trigger] comps@[cc] == old_comps[cc] by {}
            lemma_measure_update(old_comps, rr, comps@, rr2, arcs, active@, n as nat, ci as int, comps@.len() as int);
            lemma_tracking_kept(old_comps, comps@, rr, rr2, ci as int, arcs, active@, terminals@, root);
            rr = rr2;
            lemma_measure_nonneg(comps@, rr, arcs, active@, n as nat, comps@.len() as int);
        }
    }
    proof {
        if forall|c: int| 0 <= c < comps@.len() ==> (#[trigger] comps@[c]).done {
            assert forall|j: int| 0 <= j < terminals@.len() && terminals@[j] != root implies
                settled_terminal(arcs, active@, reduced@, #[trigger] terminals@[j] as int, root as int) by {
                let c = choose|c: int| 0 <= c < comps@.len() && (#[trigger] comps@[c]).terminal == terminals@[j];
                assert(comps@[c].done);
                lemma_settled_mono(arcs, active@, rr[c], reduced@, terminals@[j] as int, root as int);
            }
        }
    }
    DualAscentResult { lower_bound, reduced_costs: reduced, root, steps, cuts, sets }
}

/// Replaying a prefix of the steps does not look at the steps after it.
proof fn lemma_replay_prefix(
    arcs: Seq<Arc>,
    active: Seq<bool>,
    terms: Seq<NodeId>,
    root: int,
    short: Seq<AscentStep>,
    long: Seq<AscentStep>,
    i: int,
)
    requires
        0 <= i <= short.len() <= long.len(),
        forall|j: int| 0 <= j < short.len() ==> #[trigger] short[j] == long[j],
    ensures
        replay(arcs, active, terms, root, short, i) == replay(arcs, active, terms, root, long, i),
    decreases i,
{
    if i > 0 {
        lemma_replay_prefix(arcs, active, terms, root, short, long, i - 1);
    }
}

/// Run Wong's dual ascent from `root`; `active` masks arcs out of the model.
/// The steps of the result replay to its reduced costs and bound.
pub fn dual_ascent_masked(idx: &ArcIndex, root: NodeId, terminals: &[NodeId], active: &[bool]) -> (r: DualAscentResult)
    requires
        idx.wf(),
        (root as int) < idx.num_nodes,
        active@.len() >= idx.tails@.len(),
        forall|i: int| 0 <= i < terminals.len() ==> (#[trigger] terminals[i] as int) < idx.num_nodes,
    ensures
        r.root == root,
        replay(idx.arcs(), active@, terminals@, root as int, r.steps@, r.steps@.len() as int)
            == Ok::<(Seq<u64>, int), CertificateError>((r.reduced_costs@, r.lower_bound as int)),
        certificate_outcome(idx.arcs(), active@, terminals@, root as int, r.steps@, r.lower_bound)
            == Ok::<u64, CertificateError>(r.lower_bound),
        ascent_finished(idx.arcs(), active@, terminals@, root as int, r),
{
    ascend(idx, root, terminals, active, 0, 0)
}

/// [`dual_ascent_masked`], additionally returning the raised cuts while at
/// most `max_nnz` arc entries (at least one) are retained.
pub fn dual_ascent_cuts(idx: &ArcIndex, root: NodeId, terminals: &[NodeId], active: &[bool], max_nnz: usize) -> (r: DualAscentResult)
    requires
        idx.wf(),
        (root as int) < idx.num_nodes,
        active@.len() >= idx.tails@.len(),
        forall|i: int| 0 <= i < terminals.len() ==> (#[trigger] terminals[i] as int) < idx.num_nodes,
    ensures
        r.root == root,
        replay(idx.arcs(), active@, terminals@, root as int, r.steps@, r.steps@.len() as int)
            == Ok::<(Seq<u64>, int), CertificateError>((r.reduced_costs@, r.lower_bound as int)),
        certificate_outcome(idx.arcs(), active@, terminals@, root as int, r.steps@, r.lower_bound)
            == Ok::<u64, CertificateError>(r.lower_bound),
        ascent_finished(idx.arcs(), active@, terminals@, root as int, r),
{
    let budget = if max_nnz > 1 { max_nnz } else { 1 };
    ascend(idx, root, terminals, active, budget, 0)
}

/// Dual ascent that also returns the raised sets with their amounts, while
/// at most `max_set_nnz` vertex entries are retained.
pub fn dual_ascent_packing(idx: &ArcIndex, root: NodeId, terminals: &[NodeId], active: &[bool], max_set_nnz: usize) -> (r: DualAscentResult)
    requires
        idx.wf(),
        (root as int) < idx.num_nodes,
        active@.len() >= idx.tails@.len(),
        forall|i: int| 0 <= i < terminals.len() ==> (#[trigger] terminals[i] as int) < idx.num_nodes,
    ensures
        r.root == root,
        replay(idx.arcs(), active@, terminals@, root as int, r.steps@, r.steps@.len() as int)
            == Ok::<(Seq<u64>, int), CertificateError>((r.reduced_costs@, r.lower_bound as int)),
        certificate_outcome(idx.arcs(), active@, terminals@, root as int, r.steps@, r.lower_bound)
            == Ok::<u64, CertificateError>(r.lower_bound),
        ascent_finished(idx.arcs(), active@, terminals@, root as int, r),
{
    ascend(idx, root, terminals, active, 0, max_set_nnz)
}

/// Dual ascent over every arc of `graph`, through a fresh [`ArcIndex`].
pub fn dual_ascent(graph: &DirectedGraph, root: NodeId, terminals: &[NodeId]) -> (r: DualAscentResult)
    requires
        graph.wf(),
        graph.num_nodes < u32::MAX,
        forall|i: int| 0 <= i < graph.arcs@.len() ==>
            (#[trigger] graph.arcs@[i]).tail <= graph.num_nodes && graph.arcs@[i].head <= graph.num_nodes,
        root <= graph.num_nodes,
        forall|i: int| 0 <= i < terminals.len() ==> #[trigger] terminals[i] <= graph.num_nodes,
    ensures
        r.root == root,
        certificate_outcome(graph.arcs@, Seq::new(graph.arcs@.len(), |a: int| true), terminals@, root as int, r.steps@, r.lower_bound)
            == Ok::<u64, CertificateError>(r.lower_bound),
        ascent_finished(graph.arcs@, Seq::new(graph.arcs@.len(), |a: int| true), terminals@, root as int, r),
{
    let idx = ArcIndex::new(graph);
    let active: Vec<bool> = vec![true; idx.num_arcs()];
    proof {
        assert(active@ =~= Seq::new(graph.arcs@.len(), |a: int| true));
    }
    dual_ascent_masked(&idx, root, terminals, active.as_slice())
}

/// Plain reduced-cost fixing: the arcs whose reduced cost, added to the
/// bound, reaches `upper_bound`, in arc order. No solution using such an arc
/// is cheaper than `upper_bound`.
pub fn reduced_cost_fixable_arcs(result: &DualAscentResult, upper_bound: Cost) -> (r: Vec<ArcId>)
    requires
        result.reduced_costs@.len() <= u32::MAX,
    ensures
        r@ == fixable_ids(result.reduced_costs@, result.lower_bound as int, upper_bound as int, result.reduced_costs@.len() as int),
{
    let mut out: Vec<ArcId> = Vec::new();
    let mut a: usize = 0;
    while a < result.reduced_costs.len()
        invariant
            result.reduced_costs@.len() <= u32::MAX,
            a <= result.reduced_costs@.len(),
            out@ == fixable_ids(result.reduced_costs@, result.lower_bound as int, upper_bound as int, a as int),
        decreases result.reduced_costs@.len() - a,
    {
        let rc = result.reduced_costs[a];
        if rc as u128 + result.lower_bound as u128 >= upper_bound as u128 {
            out.push(a as ArcId);
        }
        a += 1;
    }
    out
}

/// The positions below `k` whose reduced cost plus `lb` reaches `ub`.
pub open spec fn fixable_ids(reduced: Seq<u64>, lb: int, ub: int, k: int) -> Seq<ArcId>
    decreases k,
{
    if k <= 0 {
        Seq::empty()
    } else {
        let pre = fixable_ids(reduced, lb, ub, k - 1);
        if reduced[k - 1] + lb >= ub { pre.push((k - 1) as ArcId) } else { pre }
    }
}

/// The usable arcs among the first `k` of `arcs`, each weighted by `weight`,
/// as they are walked: as given when `forward`, reversed otherwise;
/// numbered from 0.
pub open spec fn walked_arcs(arcs: Seq<Arc>, active: Seq<bool>, weight: Seq<u64>, forward: bool, k: int) -> Seq<Arc>
    decreases k,
{
    if k <= 0 {
        Seq::empty()
    } else {
        let pre = walked_arcs(arcs, active, weight, forward, k - 1);
        let a = arcs[k - 1];
        if active[k - 1] {
            pre.push(Arc {
                id: pre.len() as u32,
                tail: if forward { a.tail } else { a.head },
                head: if forward { a.head } else { a.tail },
                cost: weight[k - 1],
            })
        } else {
            pre
        }
    }
}

/// The digraph a multi-source search runs over: the walked arcs, then an arc
/// of cost 0 from the extra vertex `n` to each source.
pub open spec fn search_graph(arcs: Seq<Arc>, active: Seq<bool>, weight: Seq<u64>, forward: bool, sources: Seq<NodeId>, n: int) -> Seq<Arc> {
    let base = walked_arcs(arcs, active, weight, forward, arcs.len() as int);
    base + Seq::new(sources.len(), |i: int| Arc { id: (base.len() + i) as u32, tail: n as u32, head: sources[i], cost: 0 })
}

/// The weights of a list of arcs.
pub open spec fn weights_of(g: Seq<Arc>) -> Seq<u64> {
    g.map_values(|a: Arc| a.cost)
}

/// `d` is the least weight of a walk from one of the sources to `v` over
/// the search graph (by way of the extra vertex `n`), or `u64::MAX` when no
/// source reaches `v`.
pub open spec fn multi_source_distance(g: Seq<Arc>, n: int, v: int, d: u64) -> bool {
    &&& reachable(g, n, v) ==> is_distance(g, weights_of(g), n, v, d as int)
    &&& !reachable(g, n, v) ==> d == u64::MAX
}

/// Least weights from the sources (over arcs as given, `forward`) or to them
/// (over reversed arcs), over the active arcs; `u64::MAX` where unreached.
fn multi_source_search(
    idx: &ArcIndex,
    sources: &[NodeId],
    weight: &[Cost],
    active: &[bool],
    forward: bool,
) -> (dist: Vec<Cost>)
    requires
        idx.wf(),
        idx.num_nodes < u32::MAX,
        idx.tails@.len() + sources@.len() < u32::MAX,
        weight@.len() >= idx.tails@.len(),
        active@.len() >= idx.tails@.len(),
        forall|i: int| 0 <= i < sources@.len() ==> (#[trigger] sources@[i] as int) < idx.num_nodes,
    ensures
        dist@.len() == idx.num_nodes,
        forall|v: int| 0 <= v < idx.num_nodes ==> multi_source_distance(
            search_graph(idx.arcs(), active@, weight@, forward, sources@, idx.num_nodes as int),
            idx.num_nodes as int, v, #[trigger] dist@[v]),
{
    let ghost arcs = idx.arcs();
    let n = idx.num_nodes();
    let m = idx.num_arcs();
    let mut g = DirectedGraph::new(n as u32);
    let mut costs: Vec<Cost> = Vec::new();
    let mut a: usize = 0;
    while a < m
        invariant
            idx.wf(),
            arcs == idx.arcs(),
            n == idx.num_nodes,
            n < u32::MAX,
            m == arcs.len(),
            m + sources@.len() < u32::MAX,
            weight@.len() >= m,
            active@.len() >= m,
            a <= m,
            g.wf(),
            g.slots() >= n + 1,
            g.num_nodes == n,
            g.arcs@ == walked_arcs(arcs, active@, weight@, forward, a as int),
            g.arcs@.len() <= a,
            costs@ == weights_of(g.arcs@),
        decreases m - a,
    {
        if active[a] {
            let t = idx.tail(a as ArcId);
            let h = idx.head(a as ArcId);
            let w = weight[a];
            let ghost before = g.arcs@;
            if forward {
                g.add_arc(t, h, w);
            } else {
                g.add_arc(h, t, w);
            }
            costs.push(w);
            proof {
                assert(costs@ =~= weights_of(g.arcs@));
            }
        }
        a += 1;
    }
    let ghost base = g.arcs@;
    let mut i: usize = 0;
    while i < sources.len()
        invariant
            n == idx.num_nodes,
            n < u32::MAX,
            base.len() + sources@.len() < u32::MAX,
            forall|j: int| 0 <= j < sources@.len() ==> (#[trigger] sources@[j] as int) < n,
            i <= sources@.len(),
            g.wf(),
            g.slots() >= n + 1,
            g.arcs@ == base + Seq::new(i as nat, |j: int| Arc { id: (base.len() + j) as u32, tail: n as u32, head: sources@[j], cost: 0 }),
            costs@ == weights_of(g.arcs@),
        decreases sources@.len() - i,
    {
        g.add_arc(n as u32, sources[i], 0);
        costs.push(0);
        proof {
            assert(g.arcs@ =~= base + Seq::new((i + 1) as nat, |j: int| Arc { id: (base.len() + j) as u32, tail: n as u32, head: sources@[j], cost: 0 }));
            assert(costs@ =~= weights_of(g.arcs@));
        }
        i += 1;
    }
    let ghost sg = search_graph(arcs, active@, weight@, forward, sources@, n as int);
    proof {
        assert(g.arcs@ =~= sg);
    }
    let sp = shortest_paths_from(&g, n as u32, costs.as_slice());
    let mut dist: Vec<Cost> = Vec::new();
    let mut v: usize = 0;
    while v < n
        invariant
            n == idx.num_nodes,
            g.arcs@ == sg,
            costs@ == weights_of(sg),
            sp.distances@.len() >= n + 1,
            forall|x: int| 0 <= x < sp.distances@.len() ==> match #[trigger] sp.distances@[x] {
                Some(d) => is_distance(sg, costs@, n as int, x, d as int),
                None => !reachable(sg, n as int, x),
            },
            v <= n,
            dist@.len() == v,
            forall|x: int| 0 <= x < v ==> multi_source_distance(sg, n as int, x, #[trigger] dist@[x]),
        decreases n - v,
    {
        let d = match sp.distances[v] {
            Some(d) => d,
            None => u64::MAX,
        };
        dist.push(d);
        v += 1;
    }
    dist
}

/// Least reduced-cost distances: `from_root[v]` from the root to `v`,
/// `to_terminal[v]` from `v` to the nearest terminal; `u64::MAX` where there
/// is no such path.
pub struct ReducedCostDistances {
    pub from_root: Vec<Cost>,
    pub to_terminal: Vec<Cost>,
}

/// Least reduced-cost distances over the active arcs, from the root and to
/// the terminals.
pub fn reduced_cost_distances(
    idx: &ArcIndex,
    root: NodeId,
    terminals: &[NodeId],
    reduced: &[Cost],
    active: &[bool],
) -> (r: ReducedCostDistances)
    requires
        idx.wf(),
        idx.num_nodes < u32::MAX,
        idx.tails@.len() + terminals@.len() + 1 < u32::MAX,
        reduced@.len() >= idx.tails@.len(),
        active@.len() >= idx.tails@.len(),
        (root as int) < idx.num_nodes,
        forall|i: int| 0 <= i < terminals@.len() ==> (#[trigger] terminals@[i] as int) < idx.num_nodes,
    ensures
        r.from_root@.len() == idx.num_nodes,
        r.to_terminal@.len() == idx.num_nodes,
        forall|v: int| 0 <= v < idx.num_nodes ==> multi_source_distance(
            search_graph(idx.arcs(), active@, reduced@, true, seq![root], idx.num_nodes as int),
            idx.num_nodes as int, v, #[trigger] r.from_root@[v]),
        forall|v: int| 0 <= v < idx.num_nodes ==> multi_source_distance(
            search_graph(idx.arcs(), active@, reduced@, false, terminals@, idx.num_nodes as int),
            idx.num_nodes as int, v, #[trigger] r.to_terminal@[v]),
{
    let roots: [NodeId; 1] = [root];
    proof {
        assert(roots@ =~= seq![root]);
    }
    let from_root = multi_source_search(idx, &roots, reduced, active, true);
    let to_terminal = multi_source_search(idx, terminals, reduced, active, false);
    ReducedCostDistances { from_root, to_terminal }
}

/// Arcs and vertices that no solution costing less than the cutoff can use.
pub struct ReducedCostFixings {
    pub arcs: Vec<ArcId>,
    pub nodes: Vec<NodeId>,
}

/// The active arcs `(u, w)` below `k` for which `lb + d(root, u) + r_a +
/// d(w, T)` reaches `cutoff`.
pub open spec fn fixed_arcs(arcs: Seq<Arc>, active: Seq<bool>, red: Seq<u64>, from_root: Seq<u64>, to_terminal: Seq<u64>, lb: int, cutoff: int, k: int) -> Seq<ArcId>
    decreases k,
{
    if k <= 0 {
        Seq::empty()
    } else {
        let pre = fixed_arcs(arcs, active, red, from_root, to_terminal, lb, cutoff, k - 1);
        let a = arcs[k - 1];
        if active[k - 1] && lb + from_root[a.tail as int] + red[k - 1] + to_terminal[a.head as int] >= cutoff {
            pre.push((k - 1) as ArcId)
        } else {
            pre
        }
    }
}

/// The vertices `1 <= v < k` other than the root and the terminals for which
/// `lb + d(root, v) + d(v, T)` reaches `cutoff`.
pub open spec fn fixed_nodes(root: NodeId, terminals: Seq<NodeId>, from_root: Seq<u64>, to_terminal: Seq<u64>, lb: int, cutoff: int, k: int) -> Seq<NodeId>
    decreases k,
{
    if k <= 1 {
        Seq::empty()
    } else {
        let pre = fixed_nodes(root, terminals, from_root, to_terminal, lb, cutoff, k - 1);
        let v = k - 1;
        if v != root && !terminals.contains(v as NodeId) && lb + from_root[v] + to_terminal[v] >= cutoff {
            pre.push(v as NodeId)
        } else {
            pre
        }
    }
}

/// Reduced-cost fixing strengthened by the reduced-cost distances: an
/// arborescence using arc `(u, w)` holds a root-to-`u` path, the arc and a
/// path from `w` to a terminal, pairwise disjoint, so it costs at least
/// `lb + d(root, u) + r_a + d(w, T)`; a Steiner vertex likewise costs at
/// least `lb + d(root, v) + d(v, T)`. What reaches `cutoff` (the incumbent
/// value) cannot improve on it. An unreachable distance (`u64::MAX`) always
/// reaches it.
pub fn reduced_cost_fixings(
    idx: &ArcIndex,
    root: NodeId,
    terminals: &[NodeId],
    result: &DualAscentResult,
    dists: &ReducedCostDistances,
    active: &[bool],
    cutoff: Cost,
) -> (r: ReducedCostFixings)
    requires
        idx.wf(),
        result.reduced_costs@.len() >= idx.tails@.len(),
        active@.len() >= idx.tails@.len(),
        dists.from_root@.len() == idx.num_nodes,
        dists.to_terminal@.len() == idx.num_nodes,
        forall|i: int| 0 <= i < terminals@.len() ==> (#[trigger] terminals@[i] as int) < idx.num_nodes,
    ensures
        r.arcs@ == fixed_arcs(idx.arcs(), active@, result.reduced_costs@, dists.from_root@, dists.to_terminal@,
            result.lower_bound as int, cutoff as int, idx.tails@.len() as int),
        r.nodes@ == fixed_nodes(root, terminals@, dists.from_root@, dists.to_terminal@,
            result.lower_bound as int, cutoff as int, idx.num_nodes as int),
{
    let ghost arcs = idx.arcs();
    let ghost red = result.reduced_costs@;
    let ghost dr = dists.from_root@;
    let ghost dt = dists.to_terminal@;
    let lb = result.lower_bound as u128;
    let m = idx.num_arcs();
    let n = idx.num_nodes();
    let mut out_arcs: Vec<ArcId> = Vec::new();
    let mut a: usize = 0;
    while a < m
        invariant
            idx.wf(),
            arcs == idx.arcs(),
            m == arcs.len(),
            n == idx.num_nodes,
            red == result.reduced_costs@,
            dr == dists.from_root@,
            dt == dists.to_terminal@,
            red.len() >= m,
            active@.len() >= m,
            dr.len() == n,
            dt.len() == n,
            lb == result.lower_bound,
            a <= m,
            out_arcs@ == fixed_arcs(arcs, active@, red, dr, dt, lb as int, cutoff as int, a as int),
        decreases m - a,
    {
        if active[a] {
            let u = idx.tail(a as ArcId);
            let w = idx.head(a as ArcId);
            let bound = lb + dists.from_root[u as usize] as u128 + result.reduced_costs[a] as u128
                + dists.to_terminal[w as usize] as u128;
            if bound >= cutoff as u128 {
                out_arcs.push(a as ArcId);
            }
        }
        a += 1;
    }
    let mut is_terminal: Vec<bool> = vec![false; n];
    let mut i: usize = 0;
    while i < terminals.len()
        invariant
            n == idx.num_nodes,
            n <= u32::MAX,
            is_terminal@.len() == n,
            forall|j: int| 0 <= j < terminals@.len() ==> (#[trigger] terminals@[j] as int) < n,
            i <= terminals@.len(),
            forall|v: int| 0 <= v < n ==> (#[trigger] is_terminal@[v] <==> terminals@.take(i as int).contains(v as NodeId)),
        decreases terminals@.len() - i,
    {
        let t = terminals[i];
        is_terminal.set(t as usize, true);
        proof {
            assert forall|v: int| 0 <= v < n implies (#[trigger] is_terminal@[v] <==> terminals@.take(i + 1).contains(v as NodeId)) by {
                let pre = terminals@.take(i as int);
                let post = terminals@.take(i + 1);
                assert(post =~= pre.push(t));
                if v == t as int {
                    assert(post[i as int] == t);
                } else {
                    if post.contains(v as NodeId) {
                        let j = choose|j: int| 0 <= j < post.len() && #[trigger] post[j] == v as NodeId;
                        assert(j < i);
                        assert(pre[j] == v as NodeId);
                    }
                    if pre.contains(v as NodeId) {
                        let j = choose|j: int| 0 <= j < pre.len() && #[trigger] pre[j] == v as NodeId;
                        assert(post[j] == v as NodeId);
                    }
                }
            }
        }
        i += 1;
    }
    proof {
        assert(terminals@.take(terminals@.len() as int) =~= terminals@);
    }
    let mut out_nodes: Vec<NodeId> = Vec::new();
    let mut v: usize = 1;
    while v < n
        invariant
            n == idx.num_nodes,
            n <= u32::MAX,
            1 <= v,
            v <= n || v == 1,
            dr == dists.from_root@,
            dt == dists.to_terminal@,
            dr.len() == n,
            dt.len() == n,
            lb == result.lower_bound,
            is_terminal@.len() == n,
            forall|x: int| 0 <= x < n ==> (#[trigger] is_terminal@[x] <==> terminals@.contains(x as NodeId)),
            out_nodes@ == fixed_nodes(root, terminals@, dr, dt, lb as int, cutoff as int, v as int),
        decreases n - v,
    {
        let vid = v as NodeId;
        if vid != root && !is_terminal[v] {
            let bound = lb + dists.from_root[v] as u128 + dists.to_terminal[v] as u128;
            if bound >= cutoff as u128 {
                out_nodes.push(vid);
            }
        }
        v += 1;
    }
    proof {
        if n <= 1 {
            assert(fixed_nodes(root, terminals@, dr, dt, lb as int, cutoff as int, n as int) == Seq::<NodeId>::empty());
            assert(fixed_nodes(root, terminals@, dr, dt, lb as int, cutoff as int, v as int) == Seq::<NodeId>::empty());
        } else {
            assert(v == n);
        }
    }
    ReducedCostFixings { arcs: out_arcs, nodes: out_nodes }
}

} // verus!
