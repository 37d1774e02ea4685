use scip_jack::graph::algorithms::dreyfus_wagner::dreyfus_wagner;
use scip_jack::graph::{NodeType, UndirectedGraph};

fn graph(n: u32, terminals: &[u32], edges: &[(u32, u32, u64)]) -> UndirectedGraph {
    let mut g = UndirectedGraph::new(n);
    for v in 1..=n {
        let kind = if terminals.contains(&v) { NodeType::Terminal } else { NodeType::Steiner };
        g.add_node(v, kind, 0);
    }
    for &(a, b, c) in edges {
        g.add_edge(a, b, c);
    }
    g
}

#[test]
fn test_dw_two_terminals_path() {
    // 1(T) --3-- 2(S) --4-- 3(T)
    let g = graph(3, &[1, 3], &[(1, 2, 3), (2, 3, 4)]);
    let result = dreyfus_wagner(&g, &[1, 3]).unwrap();
    assert_eq!(result.optimal_cost, 7);
}

#[test]
fn test_dw_three_terminals_steiner() {
    // 1-2: 1, 2-4: 1, 1-3: 1, 3-4: 1, 1-4: 5
    let g = graph(4, &[1, 3, 4], &[(1, 2, 1), (2, 4, 1), (1, 3, 1), (3, 4, 1), (1, 4, 5)]);
    let result = dreyfus_wagner(&g, &[1, 3, 4]).unwrap();
    assert!(result.optimal_cost <= 2, "Expected <= 2, got {}", result.optimal_cost);
    assert_eq!(result.optimal_cost, 2);
}

#[test]
fn test_dw_b01_structure() {
    // Optimal: 1-2(2) + 2-3(3) + 2-4(1) + 4-5(2) = 8
    let g = graph(5, &[1, 3, 5], &[(1, 2, 2), (2, 3, 3), (2, 4, 1), (4, 5, 2), (3, 5, 10)]);
    let result = dreyfus_wagner(&g, &[1, 3, 5]).unwrap();
    assert_eq!(result.optimal_cost, 8);
}

#[test]
fn test_dw_single_terminal() {
    let g = graph(3, &[1], &[(1, 2, 1), (2, 3, 1)]);
    let result = dreyfus_wagner(&g, &[1]).unwrap();
    assert_eq!(result.optimal_cost, 0);
    assert!(result.tree_edges.is_empty());
}

#[test]
fn dw_no_terminals_costs_nothing() {
    let g = graph(2, &[], &[(1, 2, 4)]);
    let result = dreyfus_wagner(&g, &[]).unwrap();
    assert_eq!(result.optimal_cost, 0);
}

#[test]
fn dw_disconnected_terminals_are_infeasible() {
    let g = graph(4, &[1, 4], &[(1, 2, 1), (3, 4, 1)]);
    assert!(dreyfus_wagner(&g, &[1, 4]).is_none());
}

#[test]
fn dw_refuses_more_than_24_terminals() {
    let n = 26u32;
    let terminals: Vec<u32> = (1..=n - 1).collect();
    let edges: Vec<(u32, u32, u64)> = (1..n).map(|v| (v, v + 1, 1)).collect();
    let g = graph(n, &terminals, &edges);
    assert!(dreyfus_wagner(&g, &terminals).is_none());
}

#[test]
fn dw_star_uses_the_centre() {
    // Three terminals around a Steiner centre: 3 * 2 = 6 beats any pair of
    // outer edges (each 5).
    let g = graph(4, &[1, 2, 3], &[(1, 4, 2), (2, 4, 2), (3, 4, 2), (1, 2, 5), (2, 3, 5)]);
    let result = dreyfus_wagner(&g, &[1, 2, 3]).unwrap();
    assert_eq!(result.optimal_cost, 6);
    // Every recorded edge is an edge of the graph with its cost.
    for &(a, b, c) in &result.tree_edges {
        let known = [(1, 4, 2), (2, 4, 2), (3, 4, 2), (1, 2, 5), (2, 3, 5)];
        assert!(known.iter().any(|&(x, y, w)| ((x, y) == (a, b) || (y, x) == (a, b)) && w == c));
    }
}

#[test]
fn dw_parallel_edges_take_the_cheaper() {
    let g = graph(2, &[1, 2], &[(1, 2, 9), (1, 2, 4)]);
    let result = dreyfus_wagner(&g, &[1, 2]).unwrap();
    assert_eq!(result.optimal_cost, 4);
}
