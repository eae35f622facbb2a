//! The page allocator: runs of pages handed out from a complete binary tree of blocks.

pub mod buddy_allocator;
pub mod def;
