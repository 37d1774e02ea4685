use scip_jack::deadline::DeadlineCell;
use scip_jack::graph::algorithms::dual_ascent::ArcIndex;
use scip_jack::graph::{ArcId, DirectedGraph, NodeId, NodeType, UndirectedGraph};
use scip_jack::heuristics::ils::{iterated_local_search, IlsWorkspace};
use scip_jack::heuristics::key_path::KeyPathWorkspace;
use scip_jack::heuristics::sph::{shortest_path_heuristic, SphWorkspace};

type Cost = u64;

fn setup(g: &UndirectedGraph, terminals: &[NodeId]) -> (DirectedGraph, Vec<bool>) {
    let d = DirectedGraph::from_undirected(g);
    let mut is_t = vec![false; d.num_nodes as usize + 1];
    for &t in terminals {
        is_t[t as usize] = true;
    }
    (d, is_t)
}

#[test]
fn escapes_a_greedy_local_optimum() {
    let mut g = UndirectedGraph::new(5);
    for v in 1..=5u32 {
        let t = v == 1 || v == 4;
        g.add_node(v, if t { NodeType::Terminal } else { NodeType::Steiner }, 0);
    }
    g.add_edge(1, 2, 1);
    g.add_edge(2, 3, 1);
    g.add_edge(3, 4, 1);
    g.add_edge(1, 4, 9);
    g.add_edge(1, 5, 2);
    g.add_edge(5, 4, 2);

    let terminals = vec![1, 4];
    let (d, is_t) = setup(&g, &terminals);
    let idx = ArcIndex::new(&d);
    let active = vec![true; idx.num_arcs()];
    let mut sws = SphWorkspace::new(idx.num_nodes());
    let mut kws = KeyPathWorkspace::new(idx.num_nodes());
    let mut ws = IlsWorkspace::new(idx.num_arcs());
    let cell = DeadlineCell::new();

    let costs: Vec<Cost> = (0..idx.num_arcs()).map(|a| idx.cost(a as ArcId)).collect();
    let seed = shortest_path_heuristic(&idx, &active, &costs, 1, 1, &terminals, &is_t, &mut sws).expect("feasible");

    let best = iterated_local_search(
        &idx, &active, 1, &terminals, &is_t, seed, 0, 400, None, &mut ws, &mut sws, &mut kws, &cell,
    );
    assert_eq!(best.cost, 3, "expected 3, got {}", best.cost);
}

#[test]
fn never_degrades_the_seed() {
    let mut seed_state = 0xA5A5_1234_9876_FEEDu64;
    let mut rng = move || {
        seed_state ^= seed_state << 13;
        seed_state ^= seed_state >> 7;
        seed_state ^= seed_state << 17;
        seed_state
    };

    for _ in 0..60 {
        let n = 8 + (rng() % 8) as u32;
        let mut g = UndirectedGraph::new(n);
        let k = 2 + (rng() % 4) as u32;
        let mut terminals = Vec::new();
        for v in 1..=n {
            let t = v <= k;
            g.add_node(v, if t { NodeType::Terminal } else { NodeType::Steiner }, 0);
            if t {
                terminals.push(v);
            }
        }
        for u in 1..=n {
            for v in (u + 1)..=n {
                if rng() % 3 != 0 {
                    g.add_edge(u, v, 1 + rng() % 20);
                }
            }
        }

        let (d, is_t) = setup(&g, &terminals);
        let idx = ArcIndex::new(&d);
        let active = vec![true; idx.num_arcs()];
        let costs: Vec<Cost> = (0..idx.num_arcs()).map(|a| idx.cost(a as ArcId)).collect();
        let mut sws = SphWorkspace::new(idx.num_nodes());
        let mut kws = KeyPathWorkspace::new(idx.num_nodes());
        let mut ws = IlsWorkspace::new(idx.num_arcs());
        let cell = DeadlineCell::new();

        let Some(seed) = shortest_path_heuristic(
            &idx, &active, &costs, terminals[0], terminals[0], &terminals, &is_t, &mut sws,
        ) else {
            continue;
        };
        let before = seed.cost;
        let best = iterated_local_search(
            &idx, &active, terminals[0], &terminals, &is_t, seed, 0, 200, None, &mut ws, &mut sws, &mut kws, &cell,
        );
        assert!(best.cost <= before, "{} > {before}", best.cost);

        let mut reached = vec![false; idx.num_nodes()];
        reached[terminals[0] as usize] = true;
        let mut changed = true;
        while changed {
            changed = false;
            for &a in &best.arcs {
                if reached[idx.tail(a) as usize] && !reached[idx.head(a) as usize] {
                    reached[idx.head(a) as usize] = true;
                    changed = true;
                }
            }
        }
        assert!(terminals.iter().all(|&t| reached[t as usize]));
        let sum: Cost = best.arcs.iter().map(|&a| idx.cost(a)).sum();
        assert_eq!(sum, best.cost);
    }
}

#[test]
fn a_single_terminal_returns_the_polished_seed() {
    let mut g = UndirectedGraph::new(2);
    g.add_node(1, NodeType::Terminal, 0);
    g.add_node(2, NodeType::Steiner, 0);
    g.add_edge(1, 2, 4);
    let terminals = vec![1];
    let (d, is_t) = setup(&g, &terminals);
    let idx = ArcIndex::new(&d);
    let active = vec![true; idx.num_arcs()];
    let costs: Vec<Cost> = (0..idx.num_arcs()).map(|a| idx.cost(a as ArcId)).collect();
    let mut sws = SphWorkspace::new(idx.num_nodes());
    let mut kws = KeyPathWorkspace::new(idx.num_nodes());
    let mut ws = IlsWorkspace::new(idx.num_arcs());
    let cell = DeadlineCell::new();
    let seed = shortest_path_heuristic(&idx, &active, &costs, 1, 1, &terminals, &is_t, &mut sws).expect("feasible");
    let best = iterated_local_search(&idx, &active, 1, &terminals, &is_t, seed, 0, 10, None, &mut ws, &mut sws, &mut kws, &cell);
    assert_eq!(best.cost, 0);
    assert!(best.arcs.is_empty());
}
