pub mod types;
pub mod undirected;
pub mod directed;
pub mod algorithms;

pub use types::{NodeId, ArcId, EdgeId, Cost, NodeType, Node, Edge, Arc, SteinerInstance};
pub use undirected::UndirectedGraph;
pub use directed::DirectedGraph;
