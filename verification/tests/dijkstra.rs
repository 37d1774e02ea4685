use scip_jack::graph::algorithms::dijkstra::{shortest_path, shortest_paths_from};
use scip_jack::graph::{DirectedGraph, NodeType};

fn build_test_graph() -> (DirectedGraph, Vec<u64>) {
    // Simple diamond graph:
    //   1 --2--> 2
    //   1 --5--> 3
    //   2 --1--> 4
    //   3 --1--> 4
    let mut g = DirectedGraph::new(4);
    g.add_node(1, NodeType::Terminal, 0);
    g.add_node(2, NodeType::Steiner, 0);
    g.add_node(3, NodeType::Steiner, 0);
    g.add_node(4, NodeType::Terminal, 0);

    g.add_arc(1, 2, 2); // arc 0
    g.add_arc(1, 3, 5); // arc 1
    g.add_arc(2, 4, 1); // arc 2
    g.add_arc(3, 4, 1); // arc 3

    let costs = vec![2, 5, 1, 1];
    (g, costs)
}

#[test]
fn test_shortest_path_simple() {
    let (g, costs) = build_test_graph();
    let (dist, path) = shortest_path(&g, 1, 4, &costs).unwrap();
    assert_eq!(dist, 3);
    assert_eq!(path, vec![0, 2]); // arc 0 (1->2), arc 2 (2->4)
}

#[test]
fn test_shortest_paths_from() {
    let (g, costs) = build_test_graph();
    let result = shortest_paths_from(&g, 1, &costs);
    assert_eq!(result.distance_to(1), Some(0));
    assert_eq!(result.distance_to(2), Some(2));
    assert_eq!(result.distance_to(3), Some(5));
    assert_eq!(result.distance_to(4), Some(3));
}

#[test]
fn test_unreachable() {
    let mut g = DirectedGraph::new(3);
    g.add_node(1, NodeType::Terminal, 0);
    g.add_node(2, NodeType::Terminal, 0);
    g.add_node(3, NodeType::Terminal, 0);
    g.add_arc(1, 2, 1);
    // Node 3 is unreachable from 1

    let costs = vec![1];
    assert!(shortest_path(&g, 1, 3, &costs).is_none());
}

#[test]
fn paths_and_vertices_follow_the_predecessors() {
    let (g, costs) = build_test_graph();
    let result = shortest_paths_from(&g, 1, &costs);
    assert_eq!(result.path_to(4), Some(vec![0, 2]));
    assert_eq!(result.nodes_on_path_to(4), Some(vec![1, 2, 4]));
    assert_eq!(result.path_to(1), Some(vec![]));
    assert_eq!(result.nodes_on_path_to(1), Some(vec![1]));
    assert_eq!(result.distance_to(0), None);
    assert_eq!(result.path_to(0), None);
}

#[test]
fn custom_costs_override_the_arc_costs() {
    let (g, _) = build_test_graph();
    let costs = vec![9, 1, 9, 1];
    let (dist, path) = shortest_path(&g, 1, 4, &costs).unwrap();
    assert_eq!(dist, 2);
    assert_eq!(path, vec![1, 3]);
}

#[test]
fn path_costs_saturate() {
    let mut g = DirectedGraph::new(3);
    g.add_arc(1, 2, 0);
    g.add_arc(2, 3, 0);
    let costs = vec![u64::MAX - 1, 5];
    let (dist, path) = shortest_path(&g, 1, 3, &costs).unwrap();
    assert_eq!(dist, u64::MAX);
    assert_eq!(path, vec![0, 1]);
}
