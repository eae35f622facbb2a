# buddy_slab

Page and small-object allocators over a fixed zone of memory, verified with Verus.

- `src/bintree`: a complete binary tree of blocks over a power-of-two number of pages,
  with a bitmap of used nodes (`BinTree`, `TreeMap`, `TreeNode`).
- `src/buddy`: the page allocator (`BuddyAllocator`); its contracts say which node a
  request takes (the first free block of the request's size whose address is a multiple of
  the requested alignment), which errors come on which inputs, and how the count of free
  pages moves. Laws relate `allocate` and `deallocate` for requests of any size: a freed
  block is found again and its pages counted free again, a block handed out is aligned, its
  pages were free, pages in use stay in use across an allocation and the new block holds
  none of them, so the blocks handed out by a run of allocations are pairwise disjoint.
- `src/linklist`: free lists of fixed-size chunks (`Linkedlist`).
- `src/slab`: eight pools of chunks from 32 bytes to a page over the page allocator
  (`slab_allocator::SlabAllocator`), and a variant over a plain list of pages.
- `src/heap.rs`: pools of chunks over a list of pages that count the bytes handed out.
- `src/layout.rs`: the size and alignment of a request.
- `app/`: the allocators behind spin locks, as `GlobalAlloc` implementations; each call
  first tests the library function's precondition with the matching `can_*` check.
  The allocators keep their pools and free lists in `Vec`s, which grow through the global
  allocator. Installed as the global allocator itself, such a wrapper would re-enter its own
  lock when a list grows and deadlock; use them as allocators of a region managed next to
  a working global allocator, not as the process's `#[global_allocator]`.

Run the tests under `tests/` with the crate's test harness; the proofs are checked by Verus
on `src/lib.rs`.
