//! Small-object allocators: pools of fixed-size chunks.

pub mod pools;
pub mod slab;
pub mod slab_allocator;
