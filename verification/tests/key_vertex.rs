use scip_jack::graph::algorithms::dual_ascent::ArcIndex;
use scip_jack::graph::{DirectedGraph, NodeId, NodeType, UndirectedGraph};
use scip_jack::heuristics::key_vertex::{key_vertex_elimination, vertex_insertion, KeyVertexWorkspace};
use scip_jack::heuristics::sph::{mst_prune, SphWorkspace};

fn index(edges: &[(NodeId, NodeId, u64)], n: u32, terminals: &[NodeId]) -> (DirectedGraph, Vec<bool>) {
    let mut g = UndirectedGraph::new(n);
    for v in 1..=n {
        let t = terminals.contains(&v);
        g.add_node(v, if t { NodeType::Terminal } else { NodeType::Steiner }, 0);
    }
    for &(u, v, c) in edges {
        g.add_edge(u, v, c);
    }
    let d = DirectedGraph::from_undirected(&g);
    let mut is_terminal = vec![false; n as usize + 1];
    for &t in terminals {
        is_terminal[t as usize] = true;
    }
    (d, is_terminal)
}

/// Terminals 1, 2, 3 on a triangle of cost 20 per side; a Steiner hub 4 joined
/// to each at 14. The star through 4 costs 42, two sides of the triangle 40;
/// deleting the hub is the only improving move.
#[test]
fn deletes_a_branch_point() {
    let (g, is_terminal) = index(
        &[(1, 2, 20), (2, 3, 20), (1, 3, 20), (1, 4, 14), (2, 4, 14), (3, 4, 14)],
        4,
        &[1, 2, 3],
    );
    let idx = ArcIndex::new(&g);
    let active = vec![true; idx.num_arcs()];
    let mut sws = SphWorkspace::new(idx.num_nodes());
    let mut kws = KeyVertexWorkspace::new(idx.num_nodes());

    let star = mst_prune(&idx, &active, 1, &[1, 2, 3, 4], &is_terminal, &mut sws);
    assert_eq!(star.cost, 42, "expected the star, got {}", star.cost);
    assert!(star.arcs.iter().any(|&a| idx.head(a) == 4), "expected the hub in the tree");

    let out = key_vertex_elimination(&idx, &active, 1, &star, &is_terminal, &mut kws, &mut sws)
        .expect("the hub should be eliminable");
    assert!(out.cost < 42, "cost {} did not improve", out.cost);
    assert!(out.arcs.iter().all(|&a| idx.tail(a) != 4 && idx.head(a) != 4), "the hub survived");
}

/// Whatever the moves do, the output is a tree spanning every terminal and
/// its reported cost is the sum of its arc costs.
#[test]
fn never_returns_an_invalid_tree() {
    let mut seed = 0x5EED_1234_ABCD_0001u64;
    let mut rng = move || {
        seed ^= seed << 13;
        seed ^= seed >> 7;
        seed ^= seed << 17;
        seed
    };
    let mut checked = 0;
    for _ in 0..2000 {
        let n = 6 + (rng() % 5) as u32;
        let k = 2 + (rng() % 3) as u32;
        let terminals: Vec<NodeId> = (1..=k).collect();
        let mut edges = Vec::new();
        for u in 1..=n {
            for v in (u + 1)..=n {
                if rng() % 3 != 0 {
                    edges.push((u, v, 1 + rng() % 9));
                }
            }
        }
        let (g, is_terminal) = index(&edges, n, &terminals);
        let idx = ArcIndex::new(&g);
        let active = vec![true; idx.num_arcs()];
        let mut sws = SphWorkspace::new(idx.num_nodes());
        let mut kws = KeyVertexWorkspace::new(idx.num_nodes());
        let all: Vec<NodeId> = (1..=n).collect();
        let start = mst_prune(&idx, &active, 1, &all, &is_terminal, &mut sws);
        // A disconnected graph leaves a terminal out of the rebuilt tree.
        let mut reach = vec![false; idx.num_nodes()];
        reach[1] = true;
        for &a in &start.arcs {
            reach[idx.head(a) as usize] = true;
        }
        if !terminals.iter().all(|&t| reach[t as usize]) {
            continue;
        }
        checked += 1;
        for out in [
            key_vertex_elimination(&idx, &active, 1, &start, &is_terminal, &mut kws, &mut sws),
            vertex_insertion(&idx, &active, 1, &start, &is_terminal, &mut sws),
        ]
        .into_iter()
        .flatten()
        {
            let sum: u64 = out.arcs.iter().map(|&a| idx.cost(a)).sum();
            assert_eq!(sum, out.cost, "cost {} but arcs sum to {sum}", out.cost);
            assert!(out.cost < start.cost, "returned a non-improvement");
            let mut seen = vec![false; idx.num_nodes()];
            seen[1] = true;
            let mut changed = true;
            while changed {
                changed = false;
                for &a in &out.arcs {
                    if seen[idx.tail(a) as usize] && !seen[idx.head(a) as usize] {
                        seen[idx.head(a) as usize] = true;
                        changed = true;
                    }
                }
            }
            assert!(terminals.iter().all(|&t| seen[t as usize]), "a terminal is unreachable");
            let mut vs: Vec<NodeId> = out.arcs.iter().flat_map(|&a| [idx.tail(a), idx.head(a)]).collect();
            vs.sort_unstable();
            vs.dedup();
            assert_eq!(out.arcs.len() + 1, vs.len().max(1), "not a tree");
        }
    }
    assert!(checked > 500, "only {checked} cases were checked");
}

#[test]
fn vertex_insertion_routes_through_a_hub() {
    // Terminals 1, 2, 3 joined by the path 1-2-3 at 20 an edge; the vertex 4
    // outside the tree reaches each of them at 5, so the star through it
    // costs 15.
    let (g, is_terminal) = index(&[(1, 2, 20), (2, 3, 20), (1, 4, 5), (2, 4, 5), (3, 4, 5)], 4, &[1, 2, 3]);
    let idx = ArcIndex::new(&g);
    let active = vec![true; idx.num_arcs()];
    let mut sws = SphWorkspace::new(idx.num_nodes());
    let path = mst_prune(&idx, &active, 1, &[1, 2, 3], &is_terminal, &mut sws);
    assert_eq!(path.cost, 40);
    let out = vertex_insertion(&idx, &active, 1, &path, &is_terminal, &mut sws).expect("the hub helps");
    assert_eq!(out.cost, 15);
    assert!(out.arcs.iter().any(|&a| idx.head(a) == 4));
}

#[test]
fn a_tree_without_a_key_vertex_is_left_alone() {
    let (g, is_terminal) = index(&[(1, 2, 3), (2, 3, 4)], 3, &[1, 3]);
    let idx = ArcIndex::new(&g);
    let active = vec![true; idx.num_arcs()];
    let mut sws = SphWorkspace::new(idx.num_nodes());
    let mut kws = KeyVertexWorkspace::new(idx.num_nodes());
    let path = mst_prune(&idx, &active, 1, &[1, 2, 3], &is_terminal, &mut sws);
    assert_eq!(path.cost, 7);
    assert!(key_vertex_elimination(&idx, &active, 1, &path, &is_terminal, &mut kws, &mut sws).is_none());
}
