use vstd::prelude::*;

use crate::def::PGSZ;

verus! {

/// Size reserved for a tree record ahead of its zone: none.
pub const TREE_SIZE: usize = 0;
/// Largest block the tree hands out.
pub const MAX_SIZE: usize = PGSZ << 10;
/// Smallest block: one page.
pub const MIN_SIZE: usize = PGSZ;
/// Largest number of leaves (pages) of a tree.
pub const MAX_LEAF: usize = 1024;
/// Largest number of nodes of a tree.
pub const MAX_PAGES: usize = 2047;
/// Number of levels of the largest tree (`MAX_LEAF` leaves).
pub const MAX_LEVEL: usize = 11;
/// Bytes of the node bitmap: one bit for each node.
pub const MAX_NODES: usize = 256;
/// Number of bits in one byte of the node bitmap.
pub const BITS_PER_BYTE: usize = 8;

/// The values of the tree's limits.
pub proof fn lemma_limits()
    ensures
        MAX_SIZE == 4194304,
        MIN_SIZE == 4096,
        MAX_LEAF == 1024,
{
    assert(MAX_SIZE == 4194304) by (bit_vector);
}

} // verus!
