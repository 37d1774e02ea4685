pub mod branching;
pub mod node_selection;
pub mod tree;

pub use branching::BranchingRule;
pub use node_selection::NodeSelector;
pub use tree::SolveStatus;
