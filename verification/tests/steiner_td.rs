use std::collections::{HashMap, HashSet};

use scip_jack::graph::algorithms::dreyfus_wagner::dreyfus_wagner;
use scip_jack::graph::algorithms::steiner_td::steiner_tree_over_decomposition;
use scip_jack::graph::algorithms::tree_decomposition::{decompose, MAX_BAG};
use scip_jack::graph::{NodeType, UndirectedGraph};

type Cost = u64;
type NodeId = u32;
type EdgeId = u32;

fn make(n: u32, edges: &[(u32, u32, u64)], terminals: &[u32]) -> UndirectedGraph {
    let mut g = UndirectedGraph::new(n);
    for v in 1..=n {
        let t = terminals.contains(&v);
        g.add_node(v, if t { NodeType::Terminal } else { NodeType::Steiner }, 0);
    }
    for &(u, w, c) in edges {
        g.add_edge(u, w, c);
    }
    g
}

fn solve(g: &UndirectedGraph, terminals: &[NodeId]) -> Option<(Cost, Vec<EdgeId>)> {
    let td = decompose(g, MAX_BAG - 1, None)?;
    assert!(td.verify(g), "decomposition failed its axioms");
    let with = steiner_tree_over_decomposition(g, terminals, &td, 4_000_000, true, None);
    // The cost-only mode frees each table once its parent is built, which
    // must not change the value it reports.
    let without = steiner_tree_over_decomposition(g, terminals, &td, 4_000_000, false, None);
    match (&with, &without) {
        (Some((a, _)), Some((b, edges))) => {
            assert_eq!(a, b, "cost-only mode reported {b} against {a}");
            assert!(edges.is_empty(), "cost-only mode returned edges");
        }
        (None, None) => {}
        _ => panic!("the two modes disagree on feasibility"),
    }
    with
}

/// The returned edge set is a tree spanning the terminals, and its cost is
/// the reported one.
fn check_tree(g: &UndirectedGraph, terminals: &[NodeId], cost: Cost, used: &[EdgeId]) {
    let mut sum = 0u64;
    let mut adj: HashMap<NodeId, Vec<NodeId>> = HashMap::new();
    let mut seen = HashSet::new();
    for &id in used {
        assert!(seen.insert(id), "edge {id} used twice");
        let e = &g.edges[id as usize];
        sum += e.cost;
        adj.entry(e.src).or_default().push(e.dst);
        adj.entry(e.dst).or_default().push(e.src);
    }
    assert_eq!(sum, cost, "cost {cost} but edges sum to {sum}");
    let verts: Vec<NodeId> = adj.keys().copied().collect();
    if verts.is_empty() {
        assert!(terminals.len() <= 1);
        return;
    }
    let mut stack = vec![verts[0]];
    let mut vis = HashSet::new();
    vis.insert(verts[0]);
    while let Some(x) = stack.pop() {
        for &y in adj.get(&x).map_or(&[][..], |v| v.as_slice()) {
            if vis.insert(y) {
                stack.push(y);
            }
        }
    }
    assert_eq!(vis.len(), verts.len(), "edge set is not connected");
    assert_eq!(used.len() + 1, verts.len(), "edge set has a cycle");
    for t in terminals {
        assert!(vis.contains(t), "terminal {t} not spanned");
    }
}

fn xorshift(s: &mut u64) -> u64 {
    *s ^= *s << 13;
    *s ^= *s >> 7;
    *s ^= *s << 17;
    *s
}

#[test]
fn matches_dreyfus_wagner_on_small_graphs() {
    let mut s = 0x51ED_2701_ABCD_1234u64;
    let mut ran = 0;
    for n in 3..=9u32 {
        for _ in 0..120 {
            let k = 2 + (xorshift(&mut s) % (n as u64 - 1).min(4)) as u32;
            let terminals: Vec<u32> = (1..=k).collect();
            let mut edges = Vec::new();
            let mut perm: Vec<u32> = (1..=n).collect();
            for i in (1..perm.len()).rev() {
                perm.swap(i, (xorshift(&mut s) % (i as u64 + 1)) as usize);
            }
            for w in perm.windows(2) {
                edges.push((w[0], w[1], 1 + xorshift(&mut s) % 9));
            }
            for u in 1..=n {
                for v in u + 1..=n {
                    if xorshift(&mut s) % 100 < 25 {
                        edges.push((u, v, 1 + xorshift(&mut s) % 9));
                    }
                }
            }
            let g = make(n, &edges, &terminals);
            let Some(dw) = dreyfus_wagner(&g, &terminals) else { continue };
            let Some((cost, used)) = solve(&g, &terminals) else { continue };
            assert_eq!(cost, dw.optimal_cost, "DP {cost} vs Dreyfus-Wagner {} on n={n} edges={edges:?}", dw.optimal_cost);
            check_tree(&g, &terminals, cost, &used);
            ran += 1;
        }
    }
    assert!(ran > 500, "only {ran} cases ran");
}

#[test]
fn matches_dreyfus_wagner_with_heavy_ties() {
    let mut s = 0x7EED_0F00_D1CE_2468u64;
    let mut ran = 0;
    for n in 6..=12u32 {
        for _ in 0..120 {
            let mut edges = Vec::new();
            let mut perm: Vec<u32> = (1..=n).collect();
            for i in (1..perm.len()).rev() {
                perm.swap(i, (xorshift(&mut s) % (i as u64 + 1)) as usize);
            }
            for w in perm.windows(2) {
                edges.push((w[0], w[1], 1));
            }
            for u in 1..=n {
                for v in u + 1..=n {
                    if xorshift(&mut s) % 100 < 30 {
                        edges.push((u, v, 1));
                    }
                }
            }
            let k = 3 + (xorshift(&mut s) % 4) as u32;
            let mut terminals: Vec<u32> = Vec::new();
            while (terminals.len() as u32) < k.min(n) {
                let t = 1 + (xorshift(&mut s) % n as u64) as u32;
                if !terminals.contains(&t) {
                    terminals.push(t);
                }
            }
            terminals.sort();
            let g = make(n, &edges, &terminals);
            let Some(dw) = dreyfus_wagner(&g, &terminals) else { continue };
            let Some((cost, used)) = solve(&g, &terminals) else { continue };
            assert_eq!(
                cost, dw.optimal_cost,
                "DP {cost} vs Dreyfus-Wagner {} on n={n} terminals={terminals:?} edges={edges:?}",
                dw.optimal_cost
            );
            check_tree(&g, &terminals, cost, &used);
            ran += 1;
        }
    }
    assert!(ran > 500, "only {ran} cases ran");
}

#[test]
fn matches_dreyfus_wagner_on_near_trees() {
    let mut s = 0x0BAD_C0DE_1111_2222u64;
    for n in 10..=22u32 {
        for _ in 0..40 {
            let mut edges = Vec::new();
            for v in 2..=n {
                let p = 1 + (xorshift(&mut s) % (v as u64 - 1)) as u32;
                edges.push((p, v, 1 + xorshift(&mut s) % 20));
            }
            for _ in 0..(xorshift(&mut s) % 5) + 1 {
                let u = 1 + (xorshift(&mut s) % n as u64) as u32;
                let v = 1 + (xorshift(&mut s) % n as u64) as u32;
                if u != v {
                    edges.push((u, v, 1 + xorshift(&mut s) % 20));
                }
            }
            let k = 3 + (xorshift(&mut s) % 4) as u32;
            let mut terminals: Vec<u32> = Vec::new();
            while (terminals.len() as u32) < k {
                let t = 1 + (xorshift(&mut s) % n as u64) as u32;
                if !terminals.contains(&t) {
                    terminals.push(t);
                }
            }
            terminals.sort();
            let g = make(n, &edges, &terminals);
            let Some(dw) = dreyfus_wagner(&g, &terminals) else { continue };
            let Some((cost, used)) = solve(&g, &terminals) else { continue };
            assert_eq!(cost, dw.optimal_cost, "DP {cost} vs DW {} on n={n}", dw.optimal_cost);
            check_tree(&g, &terminals, cost, &used);
        }
    }
}

#[test]
fn handles_many_terminals_at_small_width() {
    // A 50-cycle with every second vertex a terminal: width 2, 25 terminals.
    let n = 50u32;
    let mut edges = Vec::new();
    for v in 1..n {
        edges.push((v, v + 1, 1));
    }
    edges.push((n, 1, 1));
    let terminals: Vec<u32> = (1..=n).step_by(2).collect();
    let g = make(n, &edges, &terminals);
    let (cost, used) = solve(&g, &terminals).expect("solved");
    assert_eq!(cost, 48, "expected 48, got {cost}");
    check_tree(&g, &terminals, cost, &used);
}

#[test]
fn a_tree_input_returns_itself() {
    let g = make(7, &[(1, 2, 3), (2, 3, 4), (2, 4, 5), (4, 5, 6), (5, 6, 7), (5, 7, 8)], &[1, 3, 6]);
    let (cost, used) = solve(&g, &[1, 3, 6]).expect("solved");
    assert_eq!(cost, 25, "got {cost}");
    check_tree(&g, &[1, 3, 6], cost, &used);
}

#[test]
fn no_terminals_cost_nothing() {
    let g = make(3, &[(1, 2, 4), (2, 3, 5)], &[]);
    let td = decompose(&g, MAX_BAG - 1, None).expect("decomposition");
    let (cost, used) = steiner_tree_over_decomposition(&g, &[], &td, 1000, true, None).expect("solved");
    assert_eq!(cost, 0);
    assert!(used.is_empty());
}

#[test]
fn a_single_terminal_costs_nothing() {
    let g = make(3, &[(1, 2, 4), (2, 3, 5)], &[2]);
    let (cost, used) = solve(&g, &[2]).expect("solved");
    assert_eq!(cost, 0);
    assert!(used.is_empty());
}

#[test]
fn two_components_are_refused() {
    // Two separate edges give a decomposition of two components.
    let g = make(4, &[(1, 2, 1), (3, 4, 1)], &[1, 2]);
    let td = decompose(&g, MAX_BAG - 1, None).expect("decomposition");
    assert!(td.roots.len() != 1);
    assert!(steiner_tree_over_decomposition(&g, &[1, 2], &td, 1000, true, None).is_none());
}

#[test]
fn a_terminal_outside_the_decomposition_is_refused() {
    let g = make(3, &[(1, 2, 1), (2, 3, 1)], &[1, 3]);
    let td = decompose(&g, MAX_BAG - 1, None).expect("decomposition");
    assert!(steiner_tree_over_decomposition(&g, &[1, 99], &td, 1000, true, None).is_none());
}

#[test]
fn a_tiny_state_cap_is_refused() {
    let g = make(4, &[(1, 2, 1), (2, 3, 1), (3, 4, 1), (4, 1, 1)], &[1, 3]);
    let td = decompose(&g, MAX_BAG - 1, None).expect("decomposition");
    assert!(steiner_tree_over_decomposition(&g, &[1, 3], &td, 1, true, None).is_none());
    let (cost, used) = steiner_tree_over_decomposition(&g, &[1, 3], &td, 1_000_000, true, None).expect("solved");
    assert_eq!(cost, 2);
    check_tree(&g, &[1, 3], cost, &used);
}

#[test]
fn a_zero_cost_cycle_is_broken() {
    // The triangle 1-2-3 costs nothing, so the table may take all of it;
    // the reported edges must still be a tree of the reported cost.
    let g = make(4, &[(1, 2, 0), (2, 3, 0), (3, 1, 0), (3, 4, 5)], &[1, 2, 4]);
    let (cost, used) = solve(&g, &[1, 2, 4]).expect("solved");
    assert_eq!(cost, 5);
    check_tree(&g, &[1, 2, 4], cost, &used);
}

/// A decomposition whose bags exceed the signature encoding is refused.
#[test]
fn a_bag_wider_than_the_encoding_gives_none() {
    let n = 17u32;
    let mut edges = Vec::new();
    for u in 1..=n {
        for v in u + 1..=n {
            edges.push((u, v, 1));
        }
    }
    let g = make(n, &edges, &[1, 2, 3]);
    let td = decompose(&g, 20, None).expect("a clique decomposes under a wide cap");
    assert_eq!(td.width, 16);
    assert!(steiner_tree_over_decomposition(&g, &[1, 2, 3], &td, 4_000_000, true, None).is_none());
    assert!(steiner_tree_over_decomposition(&g, &[1, 2, 3], &td, 4_000_000, false, None).is_none());
}
