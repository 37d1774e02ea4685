use scip_jack::graph::{DirectedGraph, NodeId, NodeType};
use scip_jack::heuristics::local_search::LocalSearchHeuristic;
use scip_jack::heuristics::recombination::RecombinationHeuristic;
use scip_jack::heuristics::PrimalHeuristic;
use scip_jack::model::SteinerSolution;

fn build_test_graph() -> (DirectedGraph, NodeId, Vec<NodeId>) {
    //     1 (root)
    //    /|\
    //   2  3  4
    //  /|  |  |\
    // 5  6 7  8 9
    //
    // Terminals: 5, 7, 9
    let mut g = DirectedGraph::new(9);
    for i in 1..=9u32 {
        let nt = if [5, 7, 9].contains(&i) { NodeType::Terminal } else { NodeType::Steiner };
        g.add_node(i, nt, 0);
    }
    let edges: Vec<(u32, u32, u64)> = vec![
        (1, 2, 1), (1, 3, 2), (1, 4, 1),
        (2, 5, 2), (2, 6, 3),
        (3, 7, 1),
        (4, 8, 2), (4, 9, 1),
    ];
    for (u, v, c) in edges {
        g.add_arc(u, v, c);
        g.add_arc(v, u, c);
    }
    (g, 1, vec![5, 7, 9])
}

#[test]
fn test_recombination_needs_two_solutions() {
    let (graph, root, terminals) = build_test_graph();
    let mut recom = RecombinationHeuristic::new(graph, root, terminals);
    assert!(recom.run().is_none(), "Should return None with < 2 solutions");
    let sol = SteinerSolution::new(vec![0, 6], vec![1, 2, 5], 3);
    recom.add_solution(sol);
    assert!(recom.run().is_none(), "Should return None with only 1 solution");
}

#[test]
fn test_recombination_produces_valid_solution() {
    let (graph, root, terminals) = build_test_graph();
    let mut recom = RecombinationHeuristic::new(graph.clone(), root, terminals.clone());
    let sol1 = SteinerSolution::new(vec![0, 6, 4, 10, 12, 14], vec![1, 2, 3, 4, 5, 7, 9], 8);
    let sol2 = SteinerSolution::new(vec![0, 6, 4, 10, 12, 14], vec![1, 2, 3, 4, 5, 7, 9], 8);
    recom.add_solution(sol1);
    recom.add_solution(sol2);
    let result = recom.run();
    if let Some(sol) = result {
        assert!(sol.objective_value > 0);
        assert!(!sol.arcs.is_empty());
    }
}

#[test]
fn test_pool_stays_sorted() {
    let (graph, root, terminals) = build_test_graph();
    let mut recom = RecombinationHeuristic::new(graph, root, terminals);
    recom.add_solution(SteinerSolution::new(vec![0], vec![1, 2], 10));
    recom.add_solution(SteinerSolution::new(vec![0], vec![1, 2], 5));
    recom.add_solution(SteinerSolution::new(vec![0], vec![1, 2], 8));
    assert_eq!(recom.solution_pool[0].objective_value, 5);
    assert_eq!(recom.solution_pool[1].objective_value, 8);
    assert_eq!(recom.solution_pool[2].objective_value, 10);
}

#[test]
fn pool_keeps_only_the_cheapest() {
    let (graph, root, terminals) = build_test_graph();
    let mut recom = RecombinationHeuristic::new(graph, root, terminals);
    recom.max_pool_size = 2;
    recom.add_solution(SteinerSolution::new(vec![0], vec![1, 2], 10));
    recom.add_solution(SteinerSolution::new(vec![2], vec![1, 3], 5));
    recom.add_solution(SteinerSolution::new(vec![4], vec![1, 4], 8));
    assert_eq!(recom.solution_pool.len(), 2);
    assert_eq!(recom.solution_pool[0].objective_value, 5);
    assert_eq!(recom.solution_pool[0].arcs, vec![2]);
    assert_eq!(recom.solution_pool[1].objective_value, 8);
    // Ties keep the earlier solution first.
    recom.add_solution(SteinerSolution::new(vec![6], vec![1, 5], 5));
    assert_eq!(recom.solution_pool[0].arcs, vec![2]);
    assert_eq!(recom.solution_pool[1].arcs, vec![6]);
}

/// Root 1, terminals 2 and 3. Each parent pays the expensive edge 2-3; the
/// union holds both cheap edges from the root.
#[test]
fn union_of_two_parents_beats_both() {
    let mut g = DirectedGraph::new(3);
    g.add_node(1, NodeType::Terminal, 0);
    g.add_node(2, NodeType::Terminal, 0);
    g.add_node(3, NodeType::Terminal, 0);
    for (u, v, c) in [(1u32, 2u32, 1u64), (2, 3, 10), (1, 3, 1)] {
        g.add_arc(u, v, c);
        g.add_arc(v, u, c);
    }
    let mut recom = RecombinationHeuristic::new(g, 1, vec![2, 3]);
    recom.add_solution(SteinerSolution::new(vec![0, 2], vec![1, 2, 3], 11));
    recom.add_solution(SteinerSolution::new(vec![4, 3], vec![1, 3, 2], 11));
    let out = recom.run().expect("the union holds a cheaper tree");
    assert_eq!(out.objective_value, 2);
    let mut arcs = out.arcs.clone();
    arcs.sort();
    assert_eq!(arcs, vec![0, 4]);
    let mut nodes = out.nodes.clone();
    nodes.sort();
    assert_eq!(nodes, vec![1, 2, 3]);
    assert_eq!(recom.solution_pool.len(), 3);
    assert_eq!(recom.solution_pool[0].objective_value, 2);
}

#[test]
fn local_search_hands_back_the_incumbent() {
    let (graph, root, terminals) = build_test_graph();
    let mut ls = LocalSearchHeuristic::new(graph, root, terminals);
    assert!(ls.run().is_none());
    ls.set_incumbent(SteinerSolution::new(vec![0, 6], vec![1, 2, 5], 3));
    let out = ls.run().expect("an incumbent");
    assert_eq!(out.arcs, vec![0, 6]);
    assert_eq!(out.nodes, vec![1, 2, 5]);
    assert_eq!(out.objective_value, 3);
}
