use std::collections::HashSet;

use scip_jack::graph::{DirectedGraph, NodeId, NodeType};
use scip_jack::heuristics::constructive::ConstructiveHeuristic;
use scip_jack::heuristics::PrimalHeuristic;
use scip_jack::model::SteinerSolution;

fn build_test_instance() -> (DirectedGraph, NodeId, Vec<NodeId>) {
    //     1
    //    / \
    //   2   5
    //  / \   \
    // 3   4   6
    //
    // Terminals: 3, 4, 6
    // Edges (bidirectional): 1-2(1), 2-3(2), 2-4(3), 1-5(2), 5-6(1)
    let mut g = DirectedGraph::new(6);
    for i in 1..=6u32 {
        let nt = if [3, 4, 6].contains(&i) { NodeType::Terminal } else { NodeType::Steiner };
        g.add_node(i, nt, 0);
    }
    g.add_arc(1, 2, 1);
    g.add_arc(2, 1, 1);
    g.add_arc(2, 3, 2);
    g.add_arc(3, 2, 2);
    g.add_arc(2, 4, 3);
    g.add_arc(4, 2, 3);
    g.add_arc(1, 5, 2);
    g.add_arc(5, 1, 2);
    g.add_arc(5, 6, 1);
    g.add_arc(6, 5, 1);
    (g, 1, vec![3, 4, 6])
}

/// Every terminal is reachable from the root along the solution's arcs, and
/// the reported cost is their sum.
fn feasible(g: &DirectedGraph, root: NodeId, terminals: &[NodeId], sol: &SteinerSolution) -> bool {
    let mut seen = vec![false; g.num_nodes as usize + 1];
    seen[root as usize] = true;
    let mut changed = true;
    while changed {
        changed = false;
        for &a in &sol.arcs {
            let arc = &g.arcs[a as usize];
            if seen[arc.tail as usize] && !seen[arc.head as usize] {
                seen[arc.head as usize] = true;
                changed = true;
            }
        }
    }
    let sum: u64 = sol.arcs.iter().map(|&a| g.arcs[a as usize].cost).sum();
    terminals.iter().all(|&t| seen[t as usize]) && sum == sol.objective_value
}

#[test]
fn test_constructive_finds_solution() {
    let (graph, root, terminals) = build_test_instance();
    let mut heuristic = ConstructiveHeuristic::new(graph.clone(), root, terminals.clone());
    heuristic.num_starts = 3;

    let solution = heuristic.run();
    assert!(solution.is_some());

    let sol = solution.unwrap();
    assert!(feasible(&graph, root, &terminals, &sol));
    // Optimal: 1->2(1), 2->3(2), 2->4(3), 1->5(2), 5->6(1) = cost 9
    assert!(sol.objective_value <= 9);
}

#[test]
fn test_constructive_all_terminals_spanned() {
    let (graph, root, terminals) = build_test_instance();
    let mut heuristic = ConstructiveHeuristic::new(graph.clone(), root, terminals.clone());
    heuristic.num_starts = 1;

    let solution = heuristic.run().unwrap();
    let sol_nodes: HashSet<NodeId> = solution.nodes.iter().copied().collect();
    for &t in &terminals {
        assert!(sol_nodes.contains(&t), "Terminal {} not in solution", t);
    }
}

#[test]
fn takes_the_cheaper_route() {
    // 1 -> 2 directly at 4, or through the Steiner vertex 3 at 1 + 5.
    let mut g = DirectedGraph::new(3);
    g.add_node(1, NodeType::Terminal, 0);
    g.add_node(2, NodeType::Terminal, 0);
    g.add_node(3, NodeType::Steiner, 0);
    g.add_arc(1, 2, 4);
    g.add_arc(1, 3, 1);
    g.add_arc(3, 2, 5);
    let mut h = ConstructiveHeuristic::new(g.clone(), 1, vec![2]).with_num_starts(1);
    let sol = h.run().expect("feasible");
    assert_eq!(sol.objective_value, 4);
    assert_eq!(sol.arcs, vec![0]);
    assert!(feasible(&g, 1, &[2], &sol));
}

#[test]
fn constructive_reports_an_unreachable_terminal() {
    let mut g = DirectedGraph::new(3);
    g.add_node(1, NodeType::Terminal, 0);
    g.add_node(2, NodeType::Terminal, 0);
    g.add_node(3, NodeType::Terminal, 0);
    g.add_arc(1, 2, 1);
    let mut h = ConstructiveHeuristic::new(g, 1, vec![2, 3]);
    assert!(h.run().is_none());
}

#[test]
fn constructive_needs_a_terminal() {
    let (graph, root, _) = build_test_instance();
    let mut h = ConstructiveHeuristic::new(graph, root, vec![]);
    assert!(h.run().is_none());
}
