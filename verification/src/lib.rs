pub mod bptree;
pub mod bst;
pub mod entries;
pub mod laws;
pub mod queue;

pub use bptree::{BPlusTree, Node, NodeType};
pub use bst::Tree;
pub use queue::Queue;
