use vstd::prelude::*;

use crate::bintree::def::MAX_LEAF;
use crate::def::PGSZ;

verus! {

/// Size of one page in bytes.
pub const PAGE_SIZE: usize = PGSZ;
/// Largest number of pages `BuddyAllocator::init` accepts.
pub const MAX_PAGES: usize = MAX_LEAF;
/// Pages at the start of the zone that hold the allocator's own tree; they are never handed out.
pub const ZONE_PAGES: usize = 3;

/// An address in memory.
pub type MemPtr = usize;

} // verus!
