//! The file tree: nodes, navigation over the visible entries, and search.
pub mod tree_node;
pub mod visible;
pub mod navigation;
pub mod component;
pub mod file_ops;
pub mod search;
