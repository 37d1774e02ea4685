use scip_jack::graph::algorithms::dual_ascent::ArcIndex;
use scip_jack::graph::{ArcId, DirectedGraph, NodeId, NodeType, UndirectedGraph};
use scip_jack::heuristics::sph::{best_of_starts, mst_prune, shortest_path_heuristic, sibling, SphWorkspace};

fn setup(g: &UndirectedGraph, terminals: &[NodeId]) -> (DirectedGraph, Vec<bool>) {
    let d = DirectedGraph::from_undirected(g);
    let mut is_t = vec![false; d.num_nodes as usize + 1];
    for &t in terminals {
        is_t[t as usize] = true;
    }
    (d, is_t)
}

fn weights(idx: &ArcIndex) -> Vec<u64> {
    (0..idx.num_arcs()).map(|a| idx.cost(a as ArcId)).collect()
}

#[test]
fn finds_the_optimum_on_a_path() {
    let mut g = UndirectedGraph::new(3);
    g.add_node(1, NodeType::Terminal, 0);
    g.add_node(2, NodeType::Steiner, 0);
    g.add_node(3, NodeType::Terminal, 0);
    g.add_edge(1, 2, 3);
    g.add_edge(2, 3, 4);

    let terminals = vec![1, 3];
    let (d, is_t) = setup(&g, &terminals);
    let idx = ArcIndex::new(&d);
    let active = vec![true; idx.num_arcs()];
    let w = weights(&idx);
    let mut ws = SphWorkspace::new(idx.num_nodes());

    let r = shortest_path_heuristic(&idx, &active, &w, 1, 1, &terminals, &is_t, &mut ws).unwrap();
    assert_eq!(r.cost, 7, "got {}", r.cost);
}

#[test]
fn prunes_a_dead_steiner_branch() {
    let mut g = UndirectedGraph::new(4);
    g.add_node(1, NodeType::Terminal, 0);
    g.add_node(2, NodeType::Steiner, 0);
    g.add_node(3, NodeType::Terminal, 0);
    g.add_node(4, NodeType::Steiner, 0);
    g.add_edge(1, 2, 1);
    g.add_edge(2, 3, 1);
    g.add_edge(2, 4, 7);

    let terminals = vec![1, 3];
    let (d, is_t) = setup(&g, &terminals);
    let idx = ArcIndex::new(&d);
    let active = vec![true; idx.num_arcs()];
    let w = weights(&idx);
    let mut ws = SphWorkspace::new(idx.num_nodes());

    let r = shortest_path_heuristic(&idx, &active, &w, 1, 1, &terminals, &is_t, &mut ws).unwrap();
    assert_eq!(r.cost, 2, "got {}", r.cost);
    assert_eq!(r.arcs.len(), 2);
}

#[test]
fn mst_stage_beats_greedy_growth() {
    // Greedy from terminal 1 attaches 3 via the direct cost-10 edge, then 4.
    // The induced MST over {1,2,3,4} finds the cheaper 1-2-3 chain instead.
    let mut g = UndirectedGraph::new(4);
    g.add_node(1, NodeType::Terminal, 0);
    g.add_node(2, NodeType::Steiner, 0);
    g.add_node(3, NodeType::Terminal, 0);
    g.add_node(4, NodeType::Terminal, 0);
    g.add_edge(1, 2, 4);
    g.add_edge(2, 3, 4);
    g.add_edge(1, 3, 10);
    g.add_edge(3, 4, 1);

    let terminals = vec![1, 3, 4];
    let (d, is_t) = setup(&g, &terminals);
    let idx = ArcIndex::new(&d);
    let active = vec![true; idx.num_arcs()];
    let w = weights(&idx);
    let mut ws = SphWorkspace::new(idx.num_nodes());

    let r = shortest_path_heuristic(&idx, &active, &w, 1, 1, &terminals, &is_t, &mut ws).unwrap();
    assert_eq!(r.cost, 9, "expected 9 (1-2-3-4), got {}", r.cost);
}

#[test]
fn result_is_a_connected_arborescence() {
    let mut g = UndirectedGraph::new(6);
    for v in 1..=6u32 {
        let t = matches!(v, 1 | 4 | 6);
        g.add_node(v, if t { NodeType::Terminal } else { NodeType::Steiner }, 0);
    }
    g.add_edge(1, 2, 2);
    g.add_edge(2, 3, 2);
    g.add_edge(3, 4, 2);
    g.add_edge(4, 5, 3);
    g.add_edge(5, 6, 3);
    g.add_edge(2, 5, 9);

    let terminals = vec![1, 4, 6];
    let (d, is_t) = setup(&g, &terminals);
    let idx = ArcIndex::new(&d);
    let active = vec![true; idx.num_arcs()];
    let w = weights(&idx);
    let mut ws = SphWorkspace::new(idx.num_nodes());

    let r = shortest_path_heuristic(&idx, &active, &w, 1, 1, &terminals, &is_t, &mut ws).unwrap();

    // Every terminal reachable from the root through the returned arcs.
    let mut seen = vec![false; idx.num_nodes()];
    seen[1] = true;
    let mut changed = true;
    while changed {
        changed = false;
        for &a in &r.arcs {
            if seen[idx.tail(a) as usize] && !seen[idx.head(a) as usize] {
                seen[idx.head(a) as usize] = true;
                changed = true;
            }
        }
    }
    assert!(terminals.iter().all(|&t| seen[t as usize]));
    // A tree on k nodes has k-1 arcs.
    let nodes: std::collections::HashSet<NodeId> =
        r.arcs.iter().flat_map(|&a| [idx.tail(a), idx.head(a)]).collect();
    assert_eq!(r.arcs.len(), nodes.len() - 1);
}

#[test]
fn an_unreachable_terminal_gives_none() {
    let mut g = UndirectedGraph::new(4);
    for v in 1..=4u32 {
        g.add_node(v, NodeType::Terminal, 0);
    }
    g.add_edge(1, 2, 1);
    g.add_edge(3, 4, 1);
    let terminals = vec![1, 2, 4];
    let (d, is_t) = setup(&g, &terminals);
    let idx = ArcIndex::new(&d);
    let active = vec![true; idx.num_arcs()];
    let w = weights(&idx);
    let mut ws = SphWorkspace::new(idx.num_nodes());
    assert!(shortest_path_heuristic(&idx, &active, &w, 1, 1, &terminals, &is_t, &mut ws).is_none());
    assert!(best_of_starts(&idx, &active, &w, 1, &terminals, &is_t, &[1, 2, 4], &mut ws).is_none());
}

#[test]
fn inactive_arcs_are_not_used() {
    // Masking the cheap path forces the expensive direct edge.
    let mut g = UndirectedGraph::new(3);
    for v in 1..=3u32 {
        g.add_node(v, if v == 2 { NodeType::Steiner } else { NodeType::Terminal }, 0);
    }
    g.add_edge(1, 2, 1); // arcs 0, 1
    g.add_edge(2, 3, 1); // arcs 2, 3
    g.add_edge(1, 3, 5); // arcs 4, 5
    let terminals = vec![1, 3];
    let (d, is_t) = setup(&g, &terminals);
    let idx = ArcIndex::new(&d);
    let mut active = vec![true; idx.num_arcs()];
    active[2] = false;
    active[3] = false;
    let w = weights(&idx);
    let mut ws = SphWorkspace::new(idx.num_nodes());
    let r = shortest_path_heuristic(&idx, &active, &w, 1, 1, &terminals, &is_t, &mut ws).unwrap();
    assert_eq!(r.cost, 5);
}

#[test]
fn best_of_starts_keeps_the_cheapest() {
    let mut g = UndirectedGraph::new(4);
    g.add_node(1, NodeType::Terminal, 0);
    g.add_node(2, NodeType::Steiner, 0);
    g.add_node(3, NodeType::Terminal, 0);
    g.add_node(4, NodeType::Terminal, 0);
    g.add_edge(1, 2, 4);
    g.add_edge(2, 3, 4);
    g.add_edge(1, 3, 10);
    g.add_edge(3, 4, 1);
    let terminals = vec![1, 3, 4];
    let (d, is_t) = setup(&g, &terminals);
    let idx = ArcIndex::new(&d);
    let active = vec![true; idx.num_arcs()];
    let w = weights(&idx);
    let mut ws = SphWorkspace::new(idx.num_nodes());
    let r = best_of_starts(&idx, &active, &w, 1, &terminals, &is_t, &[1, 3, 4], &mut ws).unwrap();
    assert_eq!(r.cost, 9);
}

#[test]
fn mst_prune_recombines_a_vertex_set() {
    let mut g = UndirectedGraph::new(4);
    g.add_node(1, NodeType::Terminal, 0);
    g.add_node(2, NodeType::Steiner, 0);
    g.add_node(3, NodeType::Terminal, 0);
    g.add_node(4, NodeType::Steiner, 0);
    g.add_edge(1, 2, 1);
    g.add_edge(2, 3, 1);
    g.add_edge(1, 3, 5);
    g.add_edge(3, 4, 2);
    let terminals = vec![1, 3];
    let (d, is_t) = setup(&g, &terminals);
    let idx = ArcIndex::new(&d);
    let active = vec![true; idx.num_arcs()];
    let mut ws = SphWorkspace::new(idx.num_nodes());
    // The dead Steiner leaf 4 is pruned; the chord 1-3 loses to 1-2-3.
    let r = mst_prune(&idx, &active, 1, &[1, 2, 3, 4], &is_t, &mut ws);
    assert_eq!(r.cost, 2);
    assert_eq!(r.arcs.len(), 2);
}

#[test]
fn sibling_flips_the_low_bit() {
    assert_eq!(sibling(0), 1);
    assert_eq!(sibling(1), 0);
    assert_eq!(sibling(6), 7);
    assert_eq!(sibling(7), 6);
}
