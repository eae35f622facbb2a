//! Free lists of fixed-size chunks of memory.

pub mod link;
pub mod node;
