//! Page and small-object allocators over a fixed memory zone.
//!
//! The buddy allocator hands out runs of pages from a complete binary tree of
//! blocks; the slab allocator serves small requests from per-size pools of
//! chunks and asks the buddy allocator for fresh pages.

use vstd::prelude::*;

pub mod align;
pub mod bintree;
pub mod buddy;
pub mod def;
pub mod heap;
pub mod layout;
pub mod linklist;
pub mod slab;
