use scip_jack::graph::{DirectedGraph, NodeType, UndirectedGraph};
use scip_jack::heuristics::ils::Rng;
use scip_jack::heuristics::sph::sibling;

#[test]
fn sibling_pairs_the_two_orientations() {
    let mut g = UndirectedGraph::new(3);
    g.add_node(1, NodeType::Terminal, 0);
    g.add_node(2, NodeType::Steiner, 0);
    g.add_node(3, NodeType::Terminal, 0);
    g.add_edge(1, 2, 4);
    g.add_edge(2, 3, 7);
    let d = DirectedGraph::from_undirected(&g);
    for a in 0..d.arcs.len() as u32 {
        let s = sibling(a);
        let (x, y) = (&d.arcs[a as usize], &d.arcs[s as usize]);
        assert_eq!((x.tail, x.head, x.cost), (y.head, y.tail, y.cost));
        assert_eq!(sibling(s), a);
    }
    assert_eq!(sibling(0), 1);
    assert_eq!(sibling(3), 2);
}

#[test]
fn xorshift_is_reproducible() {
    let mut a = Rng(0x2545_F491_4F6C_DD1D);
    let mut b = Rng(0x2545_F491_4F6C_DD1D);
    for _ in 0..100 {
        let x = a.next();
        assert_eq!(x, b.next());
        assert_ne!(x, 0);
    }
    let mut one = Rng(1);
    // 1 ^ (1 << 13) = 0x2001; ^= >> 7 gives 0x2041; ^= << 17 gives 0x4082_2041.
    assert_eq!(one.next(), 0x4082_2041);
    assert_eq!(one.0, 0x4082_2041);
}
