//! A complete binary tree of memory blocks with a bitmap of used nodes.

pub mod def;
pub mod index;
pub mod tree;
pub mod tree_node;
pub mod treemap;
