//! Iterated local search: perturb the arc costs, rebuild with the
//! shortest-path heuristic, polish by key-path exchange, and merge with the
//! incumbent.
//!
//! Two perturbations alternate. The intensifying one keeps the incumbent's
//! arcs at their true cost and raises every other arc by a random factor in
//! `[1, 1 + 3/5]`; the diversifying one raises the incumbent's arcs instead.
//! The factor is applied exactly and rounded down: the perturbed costs only
//! steer which tree is built, and every tree is scored with the true costs.
//!
//! The merge hands [`mst_prune`] the union of the vertex sets of the
//! candidate and the incumbent; the better of the candidate and the merged
//! tree replaces the incumbent when strictly cheaper.
use vstd::prelude::*;
use std::time::Instant;
use crate::graph::types::{ArcId, Cost, NodeId};
use crate::graph::algorithms::dual_ascent::ArcIndex;
use crate::graph::algorithms::vertex_sets::sorted_set;
use crate::deadline::{DeadlineCell, passed};
use super::sph::{mst_prune, shortest_path_heuristic, paired, partner, oriented_tree, sph_tree, SphResult, SphWorkspace};
use super::key_path::{key_path_exchange, KeyPathWorkspace};
use super::key_vertex::rebuilt;

verus! {

/// One xorshift step: `x ^= x << 13; x ^= x >> 7; x ^= x << 17`.
pub open spec fn xorshift(x: u64) -> u64 {
    let a = x ^ (x << 13u64);
    let b = a ^ (a >> 7u64);
    b ^ (b << 17u64)
}

/// Deterministic xorshift, so a run is reproducible.
pub struct Rng(pub u64);

impl Rng {
    /// Advance the state by one step and return it.
    pub fn next(&mut self) -> (r: u64)
        ensures
            r == xorshift(old(self).0),
            final(self).0 == r,
    {
        self.0 = self.0 ^ (self.0 << 13u64);
        self.0 = self.0 ^ (self.0 >> 7u64);
        self.0 = self.0 ^ (self.0 << 17u64);
        self.0
    }
}

/// A nonzero state never steps to zero, so the generator never sticks.
pub proof fn lemma_xorshift_nonzero(x: u64)
    requires
        x != 0,
    ensures
        xorshift(x) != 0,
{
    let a = x ^ (x << 13u64);
    let b = a ^ (a >> 7u64);
    assert(x != 0 ==> x ^ (x << 13u64) != 0) by (bit_vector);
    assert(a != 0 ==> a ^ (a >> 7u64) != 0) by (bit_vector);
    assert(b != 0 ==> b ^ (b << 17u64) != 0) by (bit_vector);
}

/// Key-path passes applied to each candidate.
pub const POLISH_PASSES: u32 = 6;

/// Consecutive iterations without an improvement after which the search
/// stops.
pub const STALL_LIMIT: u32 = 50;

/// `c` raised by the factor `1 + (3/5) * u`, where `u = (r >> 11) / 2^53` is
/// the draw in `[0, 1)`, rounded down and saturating.
pub open spec fn perturbed(c: Cost, r: u64) -> Cost {
    let extra: int = (c * 3 * (r as int / 2048)) / (5 * 0x20_0000_0000_0000int);
    if c + extra > u64::MAX { u64::MAX } else { (c + extra) as u64 }
}

fn perturb(c: Cost, r: u64) -> (w: Cost)
    ensures
        w == perturbed(c, r),
{
    let u: u64 = r >> 11;
    proof {
        assert(r >> 11 == r / 2048) by (bit_vector);
        assert(u < 0x20_0000_0000_0000) by (bit_vector)
            requires u == r >> 11;
        assert((c as u128) * 3 <= 0x3_0000_0000_0000_0000u128) by (nonlinear_arith)
            requires (c as int) < 0x1_0000_0000_0000_0000;
        assert((c as u128) * 3 * (u as u128) < 0x60_0000_0000_0000_0000_0000_0000_0000u128) by (nonlinear_arith)
            requires (c as u128) * 3 <= 0x3_0000_0000_0000_0000u128, (u as int) < 0x20_0000_0000_0000;
    }
    let extra: u128 = ((c as u128) * 3 * (u as u128)) / (5u128 * 0x20_0000_0000_0000u128);
    proof {
        assert(extra <= (c as u128) * 3 * (u as u128));
    }
    let total: u128 = (c as u128) + extra;
    if total > (u64::MAX as u128) {
        u64::MAX
    } else {
        total as u64
    }
}

/// Scratch buffers of the search, and its generator.
pub struct IlsWorkspace {
    pub weights: Vec<Cost>,
    pub in_best: Vec<bool>,
    pub rng: Rng,
    /// The polished trees the last search weighed against its best: the
    /// polished seed, then each candidate and merged tree in turn.
    pub tried: Ghost<Seq<SphResult>>,
}

impl IlsWorkspace {
    pub fn new(num_arcs: usize) -> (ws: Self)
        ensures
            ws.weights@.len() == num_arcs,
            ws.in_best@.len() == num_arcs,
    {
        let mut weights: Vec<Cost> = Vec::new();
        let mut in_best: Vec<bool> = Vec::new();
        let mut k: usize = 0;
        while k < num_arcs
            invariant
                k <= num_arcs,
                weights@.len() == k,
                in_best@.len() == k,
            decreases num_arcs - k,
        {
            weights.push(0);
            in_best.push(false);
            k += 1;
        }
        IlsWorkspace { weights, in_best, rng: Rng(0x2545_F491_4F6C_DD1D), tried: Ghost(Seq::empty()) }
    }
}

/// `better` replaces `r` only by a rebuilt tree, never a dearer one.
pub open spec fn no_worse(arcs: Seq<crate::graph::types::Arc>, active: Seq<bool>, root: int, r: SphResult, better: SphResult) -> bool {
    &&& better.cost <= r.cost
    &&& ((better.arcs@ == r.arcs@ && better.cost == r.cost) || rebuilt(arcs, active, root, better))
}

/// `r`, improved by key-path exchange when that is strictly cheaper.
fn polish(
    idx: &ArcIndex,
    active: &[bool],
    root: NodeId,
    r: SphResult,
    is_terminal: &[bool],
    sws: &mut SphWorkspace,
    kws: &mut KeyPathWorkspace,
    cell: &DeadlineCell,
) -> (p: SphResult)
    requires
        idx.wf(),
        paired(idx.arcs()),
        active@.len() >= idx.tails@.len(),
        (root as int) < idx.num_nodes,
        is_terminal@.len() >= idx.num_nodes,
        forall|k: int| 0 <= k < r.arcs@.len() ==> (#[trigger] r.arcs@[k] as int) < idx.tails@.len(),
        old(kws).sized(idx.num_nodes as int),
        old(sws).wf(idx.num_nodes as int),
    ensures
        final(kws).sized(idx.num_nodes as int),
        final(sws).wf(idx.num_nodes as int),
        no_worse(idx.arcs(), active@, root as int, r, p),
        forall|k: int| 0 <= k < p.arcs@.len() ==> (#[trigger] p.arcs@[k] as int) < idx.tails@.len(),
{
    match key_path_exchange(idx, active, root, &r, is_terminal, POLISH_PASSES, kws, sws, cell) {
        Some(better) => {
            if better.cost < r.cost {
                proof {
                    let tn = choose|tn: Seq<NodeId>| #[trigger] oriented_tree(idx.arcs(), active@, root as int, tn, better.arcs@);
                }
                better
            } else {
                r
            }
        },
        None => r,
    }
}

/// The arc `i` is one of `arcs`, or the partner (below `n`) of one.
pub open spec fn marked_by(arcs: Seq<ArcId>, n: int, i: int) -> bool {
    exists|k: int| 0 <= k < arcs.len() && (#[trigger] arcs[k] as int == i || (partner(arcs[k] as int) == i && i < n))
}

/// Mark both orientations of every arc of `arcs`.
fn mark(idx: &ArcIndex, arcs: &Vec<ArcId>, flags: &mut Vec<bool>, value: bool)
    requires
        idx.wf(),
        old(flags)@.len() >= idx.tails@.len(),
        forall|k: int| 0 <= k < arcs@.len() ==> (#[trigger] arcs@[k] as int) < idx.tails@.len(),
    ensures
        final(flags)@.len() == old(flags)@.len(),
        forall|i: int| 0 <= i < final(flags)@.len() ==> #[trigger] final(flags)@[i] == if marked_by(arcs@, idx.tails@.len() as int, i) {
            value
        } else {
            old(flags)@[i]
        },
{
    let n = idx.num_arcs();
    let mut k: usize = 0;
    while k < arcs.len()
        invariant
            idx.wf(),
            n == idx.tails@.len(),
            flags@.len() >= n,
            flags@.len() == old(flags)@.len(),
            forall|k2: int| 0 <= k2 < arcs@.len() ==> (#[trigger] arcs@[k2] as int) < n,
            k <= arcs@.len(),
            forall|i: int| 0 <= i < flags@.len() ==> #[trigger] flags@[i] == if marked_by(arcs@.take(k as int), n as int, i) {
                value
            } else {
                old(flags)@[i]
            },
        decreases arcs@.len() - k,
    {
        let a = arcs[k];
        let ghost before = flags@;
        flags.set(a as usize, value);
        let twin = a ^ 1;
        proof {
            assert(a ^ 1 == if a % 2 == 0 { (a + 1) as u32 } else { (a - 1) as u32 }) by (bit_vector);
        }
        if (twin as usize) < n {
            flags.set(twin as usize, value);
        }
        proof {
            let pre = arcs@.take(k as int);
            let post = arcs@.take(k + 1);
            assert(post =~= pre.push(a));
            assert forall|i: int| 0 <= i < flags@.len() implies #[trigger] flags@[i] == if marked_by(post, n as int, i) {
                value
            } else {
                old(flags)@[i]
            } by {
                if i == a as int || (partner(a as int) == i && i < n) {
                    assert(post[k as int] == a);
                    assert(marked_by(post, n as int, i));
                } else {
                    assert(flags@[i] == before[i]);
                    if marked_by(post, n as int, i) {
                        let q = choose|q: int| 0 <= q < post.len() && (#[trigger] post[q] as int == i || (partner(post[q] as int) == i && i < n));
                        assert(q < k);
                        assert(pre[q] == post[q]);
                        assert(marked_by(pre, n as int, i));
                    }
                    if marked_by(pre, n as int, i) {
                        let q = choose|q: int| 0 <= q < pre.len() && (#[trigger] pre[q] as int == i || (partner(pre[q] as int) == i && i < n));
                        assert(pre[q] == post[q]);
                    }
                }
            }
        }
        k += 1;
    }
    proof {
        assert(arcs@.take(arcs@.len() as int) =~= arcs@);
    }
}

/// Improve on `seed` until the search converges: it stops at a tree meeting
/// `lower_bound`, after [`STALL_LIMIT`] iterations in a row without an
/// improvement, after `max_iters` iterations, or once `deadline` passes.
/// The best tree found, never dearer than `seed`.
pub fn iterated_local_search(
    idx: &ArcIndex,
    active: &[bool],
    root: NodeId,
    terminals: &[NodeId],
    is_terminal: &[bool],
    seed: SphResult,
    lower_bound: Cost,
    max_iters: u32,
    deadline: Option<Instant>,
    ws: &mut IlsWorkspace,
    sws: &mut SphWorkspace,
    kws: &mut KeyPathWorkspace,
    cell: &DeadlineCell,
) -> (best: SphResult)
    requires
        idx.wf(),
        paired(idx.arcs()),
        active@.len() >= idx.tails@.len(),
        (root as int) < idx.num_nodes,
        forall|i: int| 0 <= i < terminals.len() ==> (#[trigger] terminals[i] as int) < idx.num_nodes,
        terminals.len() < usize::MAX,
        is_terminal@.len() >= idx.num_nodes,
        forall|k: int| 0 <= k < seed.arcs@.len() ==> (#[trigger] seed.arcs@[k] as int) < idx.tails@.len(),
        old(kws).sized(idx.num_nodes as int),
        old(sws).wf(idx.num_nodes as int),
    ensures
        final(kws).sized(idx.num_nodes as int),
        final(sws).wf(idx.num_nodes as int),
        no_worse(idx.arcs(), active@, root as int, seed, best),
        forall|i: int| 0 <= i < final(ws).tried@.len() ==> best.cost <= (#[trigger] final(ws).tried@[i]).cost,
{
    let ghost arcs = idx.arcs();
    let n = idx.num_nodes();
    let num_arcs = idx.num_arcs();
    while ws.weights.len() < num_arcs
        invariant
            true,
        decreases num_arcs - ws.weights@.len(),
    {
        ws.weights.push(0);
    }
    while ws.in_best.len() < num_arcs
        invariant
            ws.weights@.len() >= num_arcs,
        decreases num_arcs - ws.in_best@.len(),
    {
        ws.in_best.push(false);
    }
    let ghost seed_arcs = seed.arcs@;
    let ghost seed_cost = seed.cost;
    let mut best = polish(idx, active, root, seed, is_terminal, sws, kws, cell);
    let ghost mut tried: Seq<SphResult> = seq![best];
    if terminals.len() < 2 {
        ws.tried = Ghost(tried);
        return best;
    }
    let mut stalled: u32 = 0;
    let mut iter: u32 = 0;
    while iter < max_iters
        invariant
            idx.wf(),
            arcs == idx.arcs(),
            n == idx.num_nodes,
            num_arcs == arcs.len(),
            paired(arcs),
            active@.len() >= num_arcs,
            (root as int) < n,
            forall|i: int| 0 <= i < terminals.len() ==> (#[trigger] terminals[i] as int) < n,
            terminals.len() < usize::MAX,
            terminals.len() >= 2,
            is_terminal@.len() >= n,
            ws.weights@.len() >= num_arcs,
            ws.in_best@.len() >= num_arcs,
            kws.sized(n as int),
            sws.wf(n as int),
            forall|k: int| 0 <= k < best.arcs@.len() ==> (#[trigger] best.arcs@[k] as int) < num_arcs,
            best.cost <= seed_cost,
            (best.arcs@ == seed_arcs && best.cost == seed_cost) || rebuilt(arcs, active@, root as int, best),
            forall|i: int| 0 <= i < tried.len() ==> best.cost <= (#[trigger] tried[i]).cost,
        decreases max_iters - iter,
    {
        if passed(&deadline) || stalled >= STALL_LIMIT || best.cost <= lower_bound {
            break;
        }
        mark(idx, &best.arcs, &mut ws.in_best, true);
        let diversify = iter % 2 == 1;
        let mut a: usize = 0;
        while a < num_arcs
            invariant
                idx.wf(),
                num_arcs == idx.tails@.len(),
                ws.weights@.len() >= num_arcs,
                ws.in_best@.len() >= num_arcs,
                a <= num_arcs,
            decreases num_arcs - a,
        {
            let c = idx.cost(a as ArcId);
            let penalised = ws.in_best[a] == diversify;
            let w = if penalised {
                let r = ws.rng.next();
                perturb(c, r)
            } else {
                c
            };
            ws.weights.set(a, w);
            a += 1;
        }
        let pick = ws.rng.next() % (terminals.len() as u64);
        let start = terminals[pick as usize];
        let found = shortest_path_heuristic(idx, active, ws.weights.as_slice(), root, start, terminals, is_terminal, sws);
        mark(idx, &best.arcs, &mut ws.in_best, false);
        let candidate = match found {
            Some(c) => c,
            None => {
                iter += 1;
                continue;
            },
        };
        proof {
            let tn = choose|tn: Seq<NodeId>| {
                &&& #[trigger] oriented_tree(arcs, active@, root as int, tn, candidate.arcs@)
                &&& candidate.cost == crate::heuristics::sph::saturated(crate::heuristics::sph::arc_sum(arcs, candidate.arcs@))
                &&& forall|i: int| 0 <= i < tn.len() ==> crate::heuristics::sph::reaches(arcs, active@, start as int, #[trigger] tn[i] as int)
                &&& crate::heuristics::sph::terminals_consistent(terminals@, is_terminal@, n as int)
                    ==> forall|i: int| 0 <= i < terminals.len() ==> tn.contains(#[trigger] terminals@[i])
            };
            assert(oriented_tree(arcs, active@, root as int, tn, candidate.arcs@));
        }
        let candidate = polish(idx, active, root, candidate, is_terminal, sws, kws, cell);
        // Merge: the tree over the union of both vertex sets.
        let mut nodes: Vec<NodeId> = Vec::new();
        nodes.push(root);
        let mut k: usize = 0;
        while k < candidate.arcs.len()
            invariant
                idx.wf(),
                n == idx.num_nodes,
                forall|k2: int| 0 <= k2 < candidate.arcs@.len() ==> (#[trigger] candidate.arcs@[k2] as int) < idx.tails@.len(),
                k <= candidate.arcs@.len(),
                forall|j: int| 0 <= j < nodes@.len() ==> (#[trigger] nodes@[j] as int) < n,
            decreases candidate.arcs@.len() - k,
        {
            nodes.push(idx.tail(candidate.arcs[k]));
            nodes.push(idx.head(candidate.arcs[k]));
            k += 1;
        }
        let mut k: usize = 0;
        while k < best.arcs.len()
            invariant
                idx.wf(),
                n == idx.num_nodes,
                forall|k2: int| 0 <= k2 < best.arcs@.len() ==> (#[trigger] best.arcs@[k2] as int) < idx.tails@.len(),
                k <= best.arcs@.len(),
                forall|j: int| 0 <= j < nodes@.len() ==> (#[trigger] nodes@[j] as int) < n,
            decreases best.arcs@.len() - k,
        {
            nodes.push(idx.tail(best.arcs[k]));
            nodes.push(idx.head(best.arcs[k]));
            k += 1;
        }
        let set = sorted_set(&nodes);
        proof {
            assert forall|j: int| 0 <= j < set@.len() implies (#[trigger] set@[j] as int) < n by {
                assert(set@.to_set().contains(set@[j]));
                assert(nodes@.to_set().contains(set@[j]));
                let i = choose|i: int| 0 <= i < nodes@.len() && nodes@[i] == set@[j];
            }
        }
        let m0 = mst_prune(idx, active, root, set.as_slice(), is_terminal, sws);
        let merged = polish(idx, active, root, m0, is_terminal, sws, kws, cell);
        stalled = stalled.saturating_add(1);
        proof {
            tried = tried.push(candidate).push(merged);
        }
        if candidate.cost < best.cost {
            best = candidate;
            stalled = 0;
        }
        if merged.cost < best.cost {
            best = merged;
            stalled = 0;
        }
        iter += 1;
    }
    ws.tried = Ghost(tried);
    best
}

} // verus!
