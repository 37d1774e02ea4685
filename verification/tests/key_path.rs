use scip_jack::deadline::DeadlineCell;
use scip_jack::graph::algorithms::dual_ascent::ArcIndex;
use scip_jack::graph::{ArcId, DirectedGraph, NodeId, NodeType, UndirectedGraph};
use scip_jack::heuristics::key_path::{key_path_exchange, KeyPathWorkspace};
use scip_jack::heuristics::sph::{shortest_path_heuristic, SphWorkspace};

type Cost = u64;

fn setup(g: &UndirectedGraph, terminals: &[NodeId]) -> (DirectedGraph, Vec<bool>) {
    let d = DirectedGraph::from_undirected(g);
    let mut is_t = vec![false; d.num_nodes as usize + 1];
    for &t in terminals {
        is_t[t as usize] = true;
    }
    (d, is_t)
}

#[test]
fn replaces_an_expensive_key_path() {
    // Terminals 1, 4, 6. The greedy heuristic from 1 first links 1-2-3-4 and
    // then reaches 6 the long way; a cheaper corridor exists through 7.
    let mut g = UndirectedGraph::new(7);
    for v in 1..=7u32 {
        let t = matches!(v, 1 | 4 | 6);
        g.add_node(v, if t { NodeType::Terminal } else { NodeType::Steiner }, 0);
    }
    g.add_edge(1, 2, 1);
    g.add_edge(2, 3, 1);
    g.add_edge(3, 4, 1);
    g.add_edge(4, 5, 9);
    g.add_edge(5, 6, 9);
    g.add_edge(4, 7, 1);
    g.add_edge(7, 6, 1);

    let terminals = vec![1, 4, 6];
    let (d, is_t) = setup(&g, &terminals);
    let idx = ArcIndex::new(&d);
    let active = vec![true; idx.num_arcs()];
    let w: Vec<Cost> = (0..idx.num_arcs()).map(|a| idx.cost(a as ArcId)).collect();
    let mut sws = SphWorkspace::new(idx.num_nodes());
    let mut kws = KeyPathWorkspace::new(idx.num_nodes());
    let cell = DeadlineCell::new();

    let start = shortest_path_heuristic(&idx, &active, &w, 1, 1, &terminals, &is_t, &mut sws).unwrap();
    let improved = key_path_exchange(&idx, &active, 1, &start, &is_t, 8, &mut kws, &mut sws, &cell);
    let best = improved.map_or(start.cost, |r| r.cost);
    assert_eq!(best, 5, "expected 5, got {best}");
}

#[test]
fn leaves_an_optimal_tree_alone() {
    let mut g = UndirectedGraph::new(3);
    g.add_node(1, NodeType::Terminal, 0);
    g.add_node(2, NodeType::Steiner, 0);
    g.add_node(3, NodeType::Terminal, 0);
    g.add_edge(1, 2, 1);
    g.add_edge(2, 3, 1);

    let terminals = vec![1, 3];
    let (d, is_t) = setup(&g, &terminals);
    let idx = ArcIndex::new(&d);
    let active = vec![true; idx.num_arcs()];
    let w: Vec<Cost> = (0..idx.num_arcs()).map(|a| idx.cost(a as ArcId)).collect();
    let mut sws = SphWorkspace::new(idx.num_nodes());
    let mut kws = KeyPathWorkspace::new(idx.num_nodes());
    let cell = DeadlineCell::new();

    let start = shortest_path_heuristic(&idx, &active, &w, 1, 1, &terminals, &is_t, &mut sws).unwrap();
    assert!(key_path_exchange(&idx, &active, 1, &start, &is_t, 8, &mut kws, &mut sws, &cell).is_none());
}

#[test]
fn never_returns_a_worse_or_infeasible_tree() {
    let mut seed = 0xFEED_FACE_0042_1337u64;
    let mut rng = move || {
        seed ^= seed << 13;
        seed ^= seed >> 7;
        seed ^= seed << 17;
        seed
    };

    for _ in 0..300 {
        let n = 8 + (rng() % 8) as u32;
        let mut g = UndirectedGraph::new(n);
        let k = 3 + (rng() % 4) as u32;
        let mut terminals = Vec::new();
        for v in 1..=n {
            let t = v <= k;
            g.add_node(v, if t { NodeType::Terminal } else { NodeType::Steiner }, 0);
            if t {
                terminals.push(v);
            }
        }
        for v in 2..=n {
            let u = 1 + (rng() % (v - 1) as u64) as u32;
            g.add_edge(u, v, 1 + rng() % 9);
        }
        for _ in 0..n {
            let u = 1 + (rng() % n as u64) as u32;
            let v = 1 + (rng() % n as u64) as u32;
            if u != v {
                g.add_edge(u, v, 1 + rng() % 9);
            }
        }

        let (d, is_t) = setup(&g, &terminals);
        let idx = ArcIndex::new(&d);
        let active = vec![true; idx.num_arcs()];
        let w: Vec<Cost> = (0..idx.num_arcs()).map(|a| idx.cost(a as ArcId)).collect();
        let mut sws = SphWorkspace::new(idx.num_nodes());
        let mut kws = KeyPathWorkspace::new(idx.num_nodes());
        let cell = DeadlineCell::new();

        let Some(start) = shortest_path_heuristic(&idx, &active, &w, 1, 1, &terminals, &is_t, &mut sws) else {
            continue;
        };
        let Some(better) = key_path_exchange(&idx, &active, 1, &start, &is_t, 8, &mut kws, &mut sws, &cell) else {
            continue;
        };
        assert!(better.cost <= start.cost, "{} -> {}", start.cost, better.cost);

        let mut seen = vec![false; idx.num_nodes()];
        seen[1] = true;
        let mut changed = true;
        while changed {
            changed = false;
            for &a in &better.arcs {
                if seen[idx.tail(a) as usize] && !seen[idx.head(a) as usize] {
                    seen[idx.head(a) as usize] = true;
                    changed = true;
                }
            }
        }
        assert!(terminals.iter().all(|&t| seen[t as usize]), "terminal unreachable");
        let vs: std::collections::HashSet<NodeId> =
            better.arcs.iter().flat_map(|&a| [idx.tail(a), idx.head(a)]).collect();
        assert_eq!(better.arcs.len(), vs.len() - 1, "not a tree");
        let recomputed: Cost = better.arcs.iter().map(|&a| idx.cost(a)).sum();
        assert_eq!(recomputed, better.cost);
    }
}

#[test]
fn a_passed_deadline_stops_before_any_exchange() {
    // The same instance as above, with a deadline already in the past.
    let mut g = UndirectedGraph::new(7);
    for v in 1..=7u32 {
        let t = matches!(v, 1 | 4 | 6);
        g.add_node(v, if t { NodeType::Terminal } else { NodeType::Steiner }, 0);
    }
    for &(u, v, c) in &[(1, 2, 1), (2, 3, 1), (3, 4, 1), (4, 5, 9), (5, 6, 9), (4, 7, 1), (7, 6, 1)] {
        g.add_edge(u, v, c);
    }
    let terminals = vec![1, 4, 6];
    let (d, is_t) = setup(&g, &terminals);
    let idx = ArcIndex::new(&d);
    let active = vec![true; idx.num_arcs()];
    let w: Vec<Cost> = (0..idx.num_arcs()).map(|a| idx.cost(a as ArcId)).collect();
    let mut sws = SphWorkspace::new(idx.num_nodes());
    let mut kws = KeyPathWorkspace::new(idx.num_nodes());
    let mut cell = DeadlineCell::new();
    let _guard = scip_jack::deadline::install(&mut cell, Some(std::time::Instant::now()));
    let start = shortest_path_heuristic(&idx, &active, &w, 1, 1, &terminals, &is_t, &mut sws).unwrap();
    assert!(key_path_exchange(&idx, &active, 1, &start, &is_t, 8, &mut kws, &mut sws, &cell).is_none());
}
