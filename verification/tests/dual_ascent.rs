use scip_jack::graph::algorithms::dual_ascent::Component;

#[test]
fn a_component_starts_with_its_terminal() {
    let mut c = Component::new(70, 2);
    assert!(c.contains(70));
    assert!(!c.contains(6));
    assert_eq!(c.pending, vec![70]);
    assert!(c.frontier.is_empty());
    assert!(!c.done);
    c.set(6);
    assert!(c.contains(6));
    assert!(c.contains(70));
    assert!(!c.contains(127));
}

use scip_jack::graph::algorithms::dual_ascent::{
    dual_ascent, dual_ascent_cuts, dual_ascent_masked, dual_ascent_packing, reduced_cost_fixable_arcs,
    verify_certificate, ArcIndex, CertificateError,
};
use scip_jack::graph::{DirectedGraph, NodeId, NodeType};

fn path_graph() -> DirectedGraph {
    // 1(root,T) --1-- 2(S) --2-- 3(T)
    //                  \---5--- 4(T)
    let mut g = DirectedGraph::new(4);
    g.add_node(1, NodeType::Terminal, 0);
    g.add_node(2, NodeType::Steiner, 0);
    g.add_node(3, NodeType::Terminal, 0);
    g.add_node(4, NodeType::Terminal, 0);
    g.add_arc(1, 2, 1);
    g.add_arc(2, 1, 1);
    g.add_arc(2, 3, 2);
    g.add_arc(3, 2, 2);
    g.add_arc(2, 4, 5);
    g.add_arc(4, 2, 5);
    g
}

#[test]
fn single_edge_bound_is_tight() {
    let mut g = DirectedGraph::new(2);
    g.add_node(1, NodeType::Terminal, 0);
    g.add_node(2, NodeType::Terminal, 0);
    g.add_arc(1, 2, 3);
    g.add_arc(2, 1, 3);

    let r = dual_ascent(&g, 1, &[1, 2]);
    assert_eq!(r.lower_bound, 3);
}

#[test]
fn tree_instance_bound_is_tight() {
    // The unique feasible arborescence costs 1 + 2 + 5 = 8; every cut is forced.
    let g = path_graph();
    let r = dual_ascent(&g, 1, &[1, 3, 4]);
    assert!(r.lower_bound <= 8);
    assert_eq!(r.lower_bound, 8);
}

#[test]
fn reduced_costs_stay_non_negative() {
    let g = path_graph();
    let r = dual_ascent(&g, 1, &[1, 3, 4]);
    // Reduced costs are unsigned; none exceeds its arc cost.
    let costs = [1u64, 1, 2, 2, 5, 5];
    assert_eq!(r.reduced_costs.len(), costs.len());
    assert!(r.reduced_costs.iter().zip(costs.iter()).all(|(&rc, &c)| rc <= c));
}

#[test]
fn certificate_replays() {
    let g = path_graph();
    let idx = ArcIndex::new(&g);
    let active = vec![true; idx.num_arcs()];
    let r = dual_ascent_masked(&idx, 1, &[1, 3, 4], &active);
    let verified = verify_certificate(&idx, 1, &[1, 3, 4], &active, &r).expect("valid");
    assert_eq!(verified, r.lower_bound);
}

#[test]
fn tampered_certificate_is_rejected() {
    let g = path_graph();
    let idx = ArcIndex::new(&g);
    let active = vec![true; idx.num_arcs()];
    let mut r = dual_ascent_masked(&idx, 1, &[1, 3, 4], &active);

    // Inflating a multiplier must be caught by the arc-load check.
    r.steps[0].delta += 10;
    r.lower_bound += 10;
    assert!(verify_certificate(&idx, 1, &[1, 3, 4], &active, &r).is_err());
}

#[test]
fn claimed_bound_must_match_the_steps() {
    let g = path_graph();
    let idx = ArcIndex::new(&g);
    let active = vec![true; idx.num_arcs()];
    let mut r = dual_ascent_masked(&idx, 1, &[1, 3, 4], &active);
    r.lower_bound += 1;
    assert_eq!(verify_certificate(&idx, 1, &[1, 3, 4], &active, &r), Err(CertificateError::BoundMismatch));
}

#[test]
fn a_step_for_a_non_terminal_is_rejected() {
    let g = path_graph();
    let idx = ArcIndex::new(&g);
    let active = vec![true; idx.num_arcs()];
    let mut r = dual_ascent_masked(&idx, 1, &[1, 3, 4], &active);
    r.steps[0].terminal = 2;
    assert_eq!(verify_certificate(&idx, 1, &[1, 3, 4], &active, &r), Err(CertificateError::NotATerminal(0)));
}

#[test]
fn a_step_for_the_root_is_rejected() {
    let g = path_graph();
    let idx = ArcIndex::new(&g);
    let active = vec![true; idx.num_arcs()];
    let mut r = dual_ascent_masked(&idx, 1, &[1, 3, 4], &active);
    r.steps[0].terminal = 1;
    assert_eq!(verify_certificate(&idx, 1, &[1, 3, 4], &active, &r), Err(CertificateError::ContainsRoot(0)));
}

#[test]
fn an_inflated_amount_names_its_step() {
    let g = path_graph();
    let idx = ArcIndex::new(&g);
    let active = vec![true; idx.num_arcs()];
    let mut r = dual_ascent_masked(&idx, 1, &[1, 3, 4], &active);
    r.steps[0].delta += 10;
    r.lower_bound += 10;
    assert_eq!(verify_certificate(&idx, 1, &[1, 3, 4], &active, &r), Err(CertificateError::ExceedsCut(0)));
}

#[test]
fn a_cut_off_terminal_gives_an_empty_cut() {
    // Terminal 3 has no entering arc at all.
    let mut g = DirectedGraph::new(3);
    for v in 1..=3u32 {
        g.add_node(v, NodeType::Terminal, 0);
    }
    g.add_arc(1, 2, 4);
    let idx = ArcIndex::new(&g);
    let active = vec![true; idx.num_arcs()];
    let r = dual_ascent_masked(&idx, 1, &[1, 2, 3], &active);
    assert_eq!(r.lower_bound, 4);
    let mut forged = dual_ascent_masked(&idx, 1, &[1, 2, 3], &active);
    forged.steps.push(scip_jack::graph::algorithms::dual_ascent::AscentStep { terminal: 3, delta: 1 });
    forged.lower_bound += 1;
    let n = forged.steps.len() - 1;
    assert_eq!(verify_certificate(&idx, 1, &[1, 2, 3], &active, &forged), Err(CertificateError::EmptyCut(n)));
}

#[test]
fn cuts_and_sets_are_recorded_within_their_budgets() {
    let g = path_graph();
    let idx = ArcIndex::new(&g);
    let active = vec![true; idx.num_arcs()];
    let r = dual_ascent_cuts(&idx, 1, &[1, 3, 4], &active, 100);
    assert_eq!(r.cuts.len(), r.steps.len());
    assert!(r.sets.is_empty());
    let p = dual_ascent_packing(&idx, 1, &[1, 3, 4], &active, 100);
    assert_eq!(p.sets.len(), p.steps.len());
    let total: u64 = p.sets.iter().map(|(d, _)| *d).sum();
    assert_eq!(total, p.lower_bound);
    assert!(p.cuts.is_empty());
}

#[test]
fn fixable_arcs_reach_the_incumbent() {
    let g = path_graph();
    let r = dual_ascent(&g, 1, &[1, 3, 4]);
    // Bound 8: against an incumbent of 8 nothing can improve, so every arc
    // is fixable; against 9 exactly the arcs of positive reduced cost are.
    assert_eq!(reduced_cost_fixable_arcs(&r, 8).len(), r.reduced_costs.len());
    let fixed = reduced_cost_fixable_arcs(&r, 9);
    for (a, &rc) in r.reduced_costs.iter().enumerate() {
        assert_eq!(fixed.contains(&(a as u32)), rc > 0);
    }
}

/// Minimum-cost connected subgraph spanning `terminals`, by subset enumeration.
fn brute_force_optimum(n: u32, edges: &[(NodeId, NodeId, u64)], terminals: &[NodeId]) -> Option<u64> {
    fn find(p: &mut Vec<u32>, x: u32) -> u32 {
        if p[x as usize] != x {
            let r = find(p, p[x as usize]);
            p[x as usize] = r;
        }
        p[x as usize]
    }
    let m = edges.len();
    let mut best: Option<u64> = None;
    for mask in 0u32..(1u32 << m) {
        let mut parent: Vec<u32> = (0..=n).collect();
        let mut cost = 0u64;
        for (i, &(u, v, c)) in edges.iter().enumerate() {
            if mask >> i & 1 == 1 {
                cost += c;
                let (a, b) = (find(&mut parent, u), find(&mut parent, v));
                parent[a as usize] = b;
            }
        }
        if best.map_or(false, |b| cost >= b) {
            continue;
        }
        let r0 = find(&mut parent, terminals[0]);
        if terminals.iter().all(|&t| find(&mut parent, t) == r0) {
            best = Some(cost);
        }
    }
    best
}

#[test]
fn bound_never_exceeds_the_optimum_on_random_graphs() {
    let mut seed = 0x9E3779B97F4A7C15u64;
    let mut rng = move || {
        seed ^= seed << 13;
        seed ^= seed >> 7;
        seed ^= seed << 17;
        seed
    };

    for _ in 0..400 {
        let n = 4 + (rng() % 3) as u32;
        let mut g = DirectedGraph::new(n);
        let num_terms = 2 + (rng() % 3) as usize;
        let mut terminals: Vec<NodeId> = Vec::new();
        for v in 1..=n {
            let is_t = (v as usize) <= num_terms;
            g.add_node(v, if is_t { NodeType::Terminal } else { NodeType::Steiner }, 0);
            if is_t {
                terminals.push(v);
            }
        }
        let mut edges = Vec::new();
        for u in 1..=n {
            for v in (u + 1)..=n {
                if rng() % 3 != 0 {
                    let c = 1 + rng() % 9;
                    g.add_arc(u, v, c);
                    g.add_arc(v, u, c);
                    edges.push((u, v, c));
                }
            }
        }
        if edges.is_empty() {
            continue;
        }

        let opt = brute_force_optimum(n, &edges, &terminals);
        let Some(opt) = opt else { continue };

        let r = dual_ascent(&g, terminals[0], &terminals);
        assert!(r.lower_bound <= opt, "dual ascent bound {} exceeds optimum {opt}", r.lower_bound);
    }
}

use scip_jack::graph::algorithms::dual_ascent::{
    reduced_cost_distances, reduced_cost_fixings, DualAscentResult,
};

fn plain_result(lower_bound: u64, reduced_costs: Vec<u64>) -> DualAscentResult {
    DualAscentResult { lower_bound, reduced_costs, root: 1, steps: Vec::new(), cuts: Vec::new(), sets: Vec::new() }
}

#[test]
fn reduced_cost_distances_from_the_root_and_to_the_terminals() {
    let g = path_graph();
    let idx = ArcIndex::new(&g);
    let costs: Vec<u64> = vec![1, 1, 2, 2, 5, 5];
    let active = vec![true; idx.num_arcs()];
    let d = reduced_cost_distances(&idx, 1, &[3, 4], &costs, &active);
    assert_eq!(d.from_root, vec![u64::MAX, 0, 1, 3, 6]);
    assert_eq!(d.to_terminal, vec![u64::MAX, 3, 2, 0, 0]);
}

#[test]
fn reduced_cost_distances_skip_inactive_arcs() {
    let g = path_graph();
    let idx = ArcIndex::new(&g);
    let costs: Vec<u64> = vec![1, 1, 2, 2, 5, 5];
    let mut active = vec![true; idx.num_arcs()];
    active[2] = false; // 2 -> 3
    let d = reduced_cost_distances(&idx, 1, &[3, 4], &costs, &active);
    assert_eq!(d.from_root, vec![u64::MAX, 0, 1, u64::MAX, 6]);
    assert_eq!(d.to_terminal, vec![u64::MAX, 6, 5, 0, 0]);
}

#[test]
fn reduced_cost_fixings_follow_the_distance_bound() {
    let g = path_graph();
    let idx = ArcIndex::new(&g);
    let costs: Vec<u64> = vec![1, 1, 2, 2, 5, 5];
    let active = vec![true; idx.num_arcs()];
    let d = reduced_cost_distances(&idx, 1, &[3, 4], &costs, &active);
    let fix = reduced_cost_fixings(&idx, 1, &[3, 4], &plain_result(0, costs.clone()), &d, &active, 8);
    assert_eq!(fix.arcs, vec![5]);
    assert!(fix.nodes.is_empty());
    let fix = reduced_cost_fixings(&idx, 1, &[3, 4], &plain_result(0, costs.clone()), &d, &active, 7);
    assert_eq!(fix.arcs, vec![3, 5]);
    assert!(fix.nodes.is_empty());
    let fix = reduced_cost_fixings(&idx, 1, &[3, 4], &plain_result(4, costs.clone()), &d, &active, 7);
    assert_eq!(fix.arcs, vec![0, 1, 2, 3, 4, 5]);
    assert_eq!(fix.nodes, vec![2]);
    // An inactive arc is never listed.
    let mut off = active.clone();
    off[5] = false;
    let fix = reduced_cost_fixings(&idx, 1, &[3, 4], &plain_result(0, costs), &d, &off, 8);
    assert!(fix.arcs.is_empty());
}
