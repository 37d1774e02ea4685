use scip_jack::graph::NodeType;
use scip_jack::io::StpReader;

const SAMPLE: &str = "33D32945 STP File, STP Format Version 1.0\n\
\n\
SECTION Comment\n\
Name    \"tiny\"\n\
Comment \"three terminals\"\n\
END\n\
\n\
SECTION Graph\n\
Nodes 4\n\
Edges 3\n\
E 1 2 10\n\
E 2 3 4\n\
# a comment line\n\
E 2 4 7\n\
END\n\
\n\
SECTION Terminals\n\
Terminals 3\n\
T 1\n\
T 3\n\
T 4\n\
Root 1\n\
END\n\
\n\
EOF\n";

#[test]
fn reads_the_three_sections() {
    let inst = StpReader::new().parse(SAMPLE.as_bytes());
    assert_eq!(inst.name, "tiny");
    assert_eq!(inst.comment, "three terminals");
    assert_eq!(inst.num_nodes, 4);
    assert_eq!(inst.num_edges, 3);
    assert_eq!(inst.num_terminals, 3);
    assert_eq!(inst.edges.len(), 3);
    assert_eq!((inst.edges[1].id, inst.edges[1].src, inst.edges[1].dst, inst.edges[1].cost), (1, 2, 3, 4));
    assert_eq!(inst.terminals, vec![1, 3, 4]);
    assert_eq!(inst.root, Some(1));
}

#[test]
fn nodes_are_implied_by_the_node_count() {
    let inst = StpReader::new().parse(SAMPLE.as_bytes());
    assert_eq!(inst.nodes.len(), 4);
    let kinds: Vec<NodeType> = inst.nodes.iter().map(|n| n.node_type).collect();
    assert_eq!(kinds, vec![NodeType::Terminal, NodeType::Steiner, NodeType::Terminal, NodeType::Terminal]);
    assert_eq!(inst.nodes[3].id, 4);
}

#[test]
fn section_names_ignore_case_but_the_keyword_does_not() {
    let text = "E 1 2 3\nSECTION GRAPH\nNodes 2\nA 2 1 5\nEND\nE 9 9 9\n";
    let inst = StpReader::new().parse(text.as_bytes());
    assert_eq!(inst.num_nodes, 2);
    assert_eq!(inst.edges.len(), 1);
    assert_eq!((inst.edges[0].src, inst.edges[0].dst, inst.edges[0].cost), (2, 1, 5));
    // The keyword itself is matched exactly.
    let lower = StpReader::new().parse("section Graph\nNodes 2\nEND\n".as_bytes());
    assert_eq!(lower.num_nodes, 0);
}

#[test]
fn malformed_numbers_read_as_zero() {
    let text = "SECTION Graph\nNodes x\nE 1 two 3\nE 1 2\nEND\nSECTION Terminals\nT nine\nRootP 7\nEND\n";
    let inst = StpReader::new().parse(text.as_bytes());
    assert_eq!(inst.num_nodes, 0);
    assert_eq!(inst.edges.len(), 1);
    assert_eq!((inst.edges[0].src, inst.edges[0].dst), (1, 0));
    assert!(inst.terminals.is_empty());
    assert_eq!(inst.root, Some(7));
    assert!(inst.nodes.is_empty());
}
