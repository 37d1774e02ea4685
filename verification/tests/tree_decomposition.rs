use scip_jack::graph::algorithms::tree_decomposition::{decompose, decompose_with, min_degree_bound, treewidth_lower_bound, EliminationOrdering, TreeDecomposition};
use scip_jack::graph::{NodeType, UndirectedGraph};

fn path(n: u32) -> UndirectedGraph {
    let mut g = UndirectedGraph::new(n);
    for i in 1..=n {
        g.add_node(i, NodeType::Steiner, 0);
    }
    for i in 1..n {
        g.add_edge(i, i + 1, 1);
    }
    g
}

fn clique(n: u32) -> UndirectedGraph {
    let mut g = UndirectedGraph::new(n);
    for i in 1..=n {
        g.add_node(i, NodeType::Steiner, 0);
    }
    for i in 1..=n {
        for j in i + 1..=n {
            g.add_edge(i, j, 1);
        }
    }
    g
}

fn xorshift(seed: &mut u64) -> u64 {
    *seed ^= *seed << 13;
    *seed ^= *seed >> 7;
    *seed ^= *seed << 17;
    *seed
}

#[test]
fn path_has_width_one() {
    let g = path(20);
    let td = decompose(&g, 16, None).expect("decomposition");
    assert_eq!(td.width, 1);
    assert!(td.verify(&g));
}

#[test]
fn clique_has_width_n_minus_one() {
    let n = 7u32;
    let g = clique(n);
    let td = decompose(&g, 16, None).expect("decomposition");
    assert_eq!(td.width, (n - 1) as usize);
    assert!(td.verify(&g));
}

#[test]
fn grid_width_is_at_most_side() {
    let k = 6u32;
    let id = |r: u32, c: u32| r * k + c + 1;
    let mut g = UndirectedGraph::new(k * k);
    for r in 0..k {
        for c in 0..k {
            g.add_node(id(r, c), NodeType::Steiner, 0);
        }
    }
    for r in 0..k {
        for c in 0..k {
            if r + 1 < k {
                g.add_edge(id(r, c), id(r + 1, c), 1);
            }
            if c + 1 < k {
                g.add_edge(id(r, c), id(r, c + 1), 1);
            }
        }
    }
    let td = decompose(&g, 32, None).expect("decomposition");
    assert!(td.verify(&g), "grid decomposition invalid");
    assert!(td.width <= (k as usize) + 2, "width {} on a {k}x{k} grid", td.width);
}

#[test]
fn random_graphs_verify() {
    let mut seed = 0x1234_5678_9abc_def0u64;
    for n in 4..=12u32 {
        for _ in 0..20 {
            let mut g = UndirectedGraph::new(n);
            for i in 1..=n {
                g.add_node(i, NodeType::Steiner, 0);
            }
            for i in 1..=n {
                for j in i + 1..=n {
                    if xorshift(&mut seed) % 100 < 35 {
                        g.add_edge(i, j, 1);
                    }
                }
            }
            let td = decompose(&g, 32, None).expect("decomposition");
            assert!(td.verify(&g), "invalid decomposition on n={n}");
            assert!(td.parent.iter().enumerate().all(|(i, &p)| p == usize::MAX || p > i));
        }
    }
}

#[test]
fn disconnected_graph_gives_a_forest() {
    let mut g = UndirectedGraph::new(6);
    for i in 1..=6u32 {
        g.add_node(i, NodeType::Steiner, 0);
    }
    g.add_edge(1, 2, 1);
    g.add_edge(2, 3, 1);
    g.add_edge(4, 5, 1);
    let td = decompose(&g, 8, None).expect("decomposition");
    assert!(td.verify(&g));
    assert_eq!(td.roots.len(), 3);
}

#[test]
fn every_ordering_yields_a_valid_decomposition() {
    let mut seed = 0xfeed_beef_0bad_cafeu64;
    let orders = [
        EliminationOrdering::MinDegree,
        EliminationOrdering::MinFill,
        EliminationOrdering::MinDegreeFill,
        EliminationOrdering::FillWeighted,
    ];
    for n in 3..=10u32 {
        let mut g = UndirectedGraph::new(n);
        for i in 1..=n {
            g.add_node(i, NodeType::Steiner, 0);
        }
        for i in 1..=n {
            for j in i + 1..=n {
                if xorshift(&mut seed) % 100 < 45 {
                    g.add_edge(i, j, 1);
                }
            }
        }
        for &o in &orders {
            let td: TreeDecomposition = decompose_with(&g, o, 64, None).expect("decomposition");
            assert!(td.verify(&g));
            assert_eq!(td.post_order(), (0..td.num_bags()).collect::<Vec<_>>());
        }
    }
}

#[test]
fn width_cap_refuses_a_clique() {
    let g = clique(6);
    assert!(decompose_with(&g, EliminationOrdering::MinDegree, 4, None).is_none());
    assert!(decompose_with(&g, EliminationOrdering::MinDegree, 5, None).is_some());
}

#[test]
fn empty_graph_has_no_decomposition() {
    let g = UndirectedGraph::new(0);
    assert!(decompose(&g, 8, None).is_none());
}

#[test]
fn lower_bound_never_exceeds_a_realised_width() {
    let mut seed = 0xdead_beef_cafe_babeu64;
    for n in 3..=13u32 {
        for _ in 0..25 {
            let mut g = UndirectedGraph::new(n);
            for i in 1..=n {
                g.add_node(i, NodeType::Steiner, 0);
            }
            for i in 1..=n {
                for j in i + 1..=n {
                    if xorshift(&mut seed) % 100 < 40 {
                        g.add_edge(i, j, 1);
                    }
                }
            }
            let lb = treewidth_lower_bound(&g);
            let td = decompose(&g, 64, None).expect("decomposition");
            assert!(td.verify(&g));
            assert!(lb <= td.width, "lower bound {lb} above realised width {}", td.width);
        }
    }
    for k in 2..=7u32 {
        let g = clique(k);
        assert_eq!(treewidth_lower_bound(&g), (k - 1) as usize);
        assert_eq!(decompose(&g, 16, None).unwrap().width, (k - 1) as usize);
    }
    assert_eq!(treewidth_lower_bound(&path(12)), 1);
}

/// A cycle has minimum degree 2 and treewidth 2; a star has minimum degree 1.
#[test]
fn lower_bound_dominates_the_minimum_degree() {
    let mut cycle = path(6);
    cycle.add_edge(6, 1, 1);
    assert_eq!(min_degree_bound(&cycle), 2);
    assert_eq!(treewidth_lower_bound(&cycle), 2);
    let mut star = UndirectedGraph::new(5);
    for i in 1..=5 {
        star.add_node(i, NodeType::Steiner, 0);
    }
    for i in 2..=5 {
        star.add_edge(1, i, 1);
    }
    assert_eq!(treewidth_lower_bound(&star), 1);
    let mut empty = UndirectedGraph::new(3);
    for i in 1..=3 {
        empty.add_node(i, NodeType::Steiner, 0);
    }
    assert_eq!(treewidth_lower_bound(&empty), 0);
}
