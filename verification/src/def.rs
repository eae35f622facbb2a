use vstd::prelude::*;

verus! {

/// Size of one page in bytes.
pub const PGSZ: usize = 4096;

/// Chunk sizes of the pools, in bytes.
pub const POOL_SIZE_32: usize = 32;
pub const POOL_SIZE_64: usize = 64;
pub const POOL_SIZE_128: usize = 128;
pub const POOL_SIZE_256: usize = 256;
pub const POOL_SIZE_512: usize = 512;
pub const POOL_SIZE_1024: usize = 1024;
pub const POOL_SIZE_2048: usize = 2048;
pub const POOL_SIZE_4096: usize = 4096;

/// Index of the pool of each chunk size.
pub const POOL_32: usize = 0;
pub const POOL_64: usize = 1;
pub const POOL_128: usize = 2;
pub const POOL_256: usize = 3;
pub const POOL_512: usize = 4;
pub const POOL_1024: usize = 5;
pub const POOL_2048: usize = 6;
pub const POOL_4096: usize = 7;
/// Index of the pool of whole pages.
pub const POOL_PGSZ: usize = 8;
/// Number of pools.
pub const POOL_COUNT: usize = 9;

/// Chunk size of pool `index`, for the pools of chunks smaller than a page and of one page.
pub open spec fn pool_size(index: int) -> nat
    recommends
        0 <= index < 8,
{
    if index == 0 {
        32
    } else if index == 1 {
        64
    } else if index == 2 {
        128
    } else if index == 3 {
        256
    } else if index == 4 {
        512
    } else if index == 5 {
        1024
    } else if index == 6 {
        2048
    } else {
        4096
    }
}

/// Index of the pool whose chunks have `size` bytes, or `-1` when no pool has them.
pub open spec fn pool_index(size: nat) -> int {
    if size == 32 {
        0
    } else if size == 64 {
        1
    } else if size == 128 {
        2
    } else if size == 256 {
        3
    } else if size == 512 {
        4
    } else if size == 1024 {
        5
    } else if size == 2048 {
        6
    } else if size == 4096 {
        7
    } else {
        -1
    }
}

} // verus!
