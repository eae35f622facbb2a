use buddy_slab::def::PGSZ;
use buddy_slab::layout::Layout;
use buddy_slab::slab::slab_allocator::SlabAllocator;

/// Bounds of a zone of 40960 words, `top` being the address of its last word.
fn zone() -> (usize, usize) {
    let bottom: usize = 0x100000;
    let top = bottom + (4096 * 10 - 1) * 8;
    (bottom, top)
}

#[test]
fn test_alloc_small() {
    let (bottom, top) = zone();
    let mut heap = SlabAllocator::new();
    heap.init(bottom, top);
    let mut now = 0;
    for i in 0..10 {
        let last = now;
        let layout = Layout::from_size_align(290, 8).unwrap();
        now = heap.allocate_fit(layout).unwrap();
        if i != 0 {
            assert_eq!(last + 512, now);
        }
    }
}

#[test]
fn test_free_small() {
    let (bottom, top) = zone();
    let mut heap = SlabAllocator::new();
    heap.init(bottom, top);
    let mut now = 0;
    for i in 0..10 {
        let last = now;
        let layout = Layout::from_size_align(290, 8).unwrap();
        now = heap.allocate_fit(layout).unwrap();
        heap.deallocate_fit(now, layout);
        if i != 0 {
            assert_eq!(last, now);
        }
    }
}

#[test]
fn test_alloc_big() {
    let (bottom, top) = zone();
    let mut heap = SlabAllocator::new();
    heap.init(bottom, top);
    let mut now = 0;
    for i in 0..3 {
        let last = now;
        let layout = Layout::from_size_align(PGSZ * 2, 8).unwrap();
        now = heap.allocate_fit(layout).unwrap();
        if i != 0 {
            assert_eq!(last + PGSZ * 2, now);
        }
    }
}

#[test]
fn test_free_big() {
    let (bottom, top) = zone();
    let mut heap = SlabAllocator::new();
    heap.init(bottom, top);
    let mut now = 0;
    for i in 0..3 {
        let last = now;
        let layout = Layout::from_size_align(PGSZ * 2, 8).unwrap();
        now = heap.allocate_fit(layout).unwrap();
        heap.deallocate_fit(now, layout);
        if i != 0 {
            assert_eq!(last, now);
        }
    }
}

use buddy_slab::heap::Heap;
use buddy_slab::slab::slab::SlabAllocator as PageSlab;

#[test]
fn slab_zero_size() {
    let (bottom, top) = zone();
    let mut heap = SlabAllocator::new();
    heap.init(bottom, top);
    let layout = Layout::from_size_align(0, 1).unwrap();
    assert!(heap.can_allocate_fit(layout));
    assert_eq!(heap.allocate_fit(layout), Ok(0));
    // freeing an empty request does nothing
    assert!(heap.can_deallocate_fit(0x100000, layout));
    heap.deallocate_fit(0x100000, layout);
    assert_eq!(heap.allocate_fit(layout), Ok(0));
}

#[test]
fn slab_align_layout() {
    let l = SlabAllocator::align_layout(Layout::from_size_align(100, 8).unwrap()).unwrap();
    assert_eq!((l.size(), l.align()), (128, 128));
    let l = SlabAllocator::align_layout(Layout::from_size_align(20, 256).unwrap()).unwrap();
    assert_eq!((l.size(), l.align()), (32, 256));
    let l = SlabAllocator::align_layout(Layout::from_size_align(PGSZ + 1, 8).unwrap()).unwrap();
    assert_eq!((l.size(), l.align()), (2 * PGSZ, 2 * PGSZ));
    // more than a page keeps page alignment, whatever the size
    let l = SlabAllocator::align_layout(Layout::from_size_align(3 * PGSZ, 8).unwrap()).unwrap();
    assert_eq!((l.size(), l.align()), (3 * PGSZ, PGSZ));
    let l = SlabAllocator::align_layout(Layout::from_size_align(3 * PGSZ, 4 * PGSZ).unwrap()).unwrap();
    assert_eq!((l.size(), l.align()), (3 * PGSZ, 4 * PGSZ));
}

#[test]
fn slab_regular_sizes() {
    let heap = SlabAllocator::new();
    assert!(heap.is_aready_algin_for_pool(Layout::from_size_align(64, 8).unwrap()));
    assert!(!heap.is_aready_algin_for_pool(Layout::from_size_align(100, 8).unwrap()));
    assert!(heap.is_aready_algin_for_pool(Layout::from_size_align(2 * PGSZ, 8).unwrap()));
    assert!(!heap.is_aready_algin_for_pool(Layout::from_size_align(2 * PGSZ + 1, 8).unwrap()));
}

#[test]
fn slab_needs_pages() {
    let heap = SlabAllocator::new();
    let layout = Layout::from_size_align(64, 8).unwrap();
    // no zone: the pool is empty and no page can refill it
    assert!(!heap.can_allocate_fit(layout));
}

#[test]
fn slab_chunks_of_one_page() {
    let (bottom, top) = zone();
    let mut heap = SlabAllocator::new();
    heap.init(bottom, top);
    let layout = Layout::from_size_align(1000, 8).unwrap();
    let first = heap.allocate_fit(layout).unwrap();
    // the chunks of 1 KiB of a fresh page, one after the other
    for i in 1..4 {
        assert_eq!(heap.allocate_fit(layout), Ok(first + i * 1024));
    }
    assert_eq!(first % PGSZ, 0);
    // the page is used up: the next chunk comes from another page
    let next = heap.allocate_fit(layout).unwrap();
    assert_eq!(next % PGSZ, 0);
    assert_ne!(next, first);
}

#[test]
fn slab_alloc_after_free() {
    let (bottom, top) = zone();
    let mut heap = SlabAllocator::new();
    heap.init(bottom, top);
    let layout = Layout::from_size_align(48, 8).unwrap();
    let a = heap.allocate_fit(layout).unwrap();
    let b = heap.allocate_fit(layout).unwrap();
    assert_eq!(b, a + 64);
    assert!(heap.can_deallocate_fit(a, layout));
    heap.deallocate_fit(a, layout);
    assert_eq!(heap.allocate_fit(layout), Ok(a));
}

#[test]
fn slab_big_free_checks() {
    let (bottom, top) = zone();
    let mut heap = SlabAllocator::new();
    heap.init(bottom, top);
    let layout = Layout::from_size_align(2 * PGSZ, 8).unwrap();
    let p = heap.allocate_fit(layout).unwrap();
    assert!(heap.can_deallocate_fit(p, layout));
    assert!(!heap.can_deallocate_fit(p + PGSZ, layout));
    heap.deallocate_fit(p, layout);
    assert!(!heap.can_deallocate_fit(p, layout));
}

#[test]
fn heap_can_init() {
    assert!(Heap::can_init(0x100000, 0x100000 + 4 * PGSZ));
    assert!(!Heap::can_init(0, 100));
    assert!(!Heap::can_init(0x100001, 0x100000 + PGSZ + 100));
    assert!(Heap::can_init(0x100001, 0x100000 + 2 * PGSZ));
}

#[test]
fn heap_chunks_from_page_end() {
    let bottom: usize = 0x100000;
    let mut heap = Heap::new_uninit();
    heap.init(bottom, bottom + 4 * PGSZ);
    assert_eq!(heap.used, 0);
    let small = Layout::from_size_align(20, 8).unwrap();
    assert!(heap.can_allocate_fit(small));
    // the highest chunk of the first page, then the one below it
    assert_eq!(heap.allocate_fit(small), Ok(bottom + PGSZ - 32));
    assert_eq!(heap.allocate_fit(small), Ok(bottom + PGSZ - 64));
    assert_eq!(heap.used, 40);
    assert!(heap.can_deallocate_fit(bottom + PGSZ - 32, small));
    heap.deallocate_fit(bottom + PGSZ - 32, small);
    assert_eq!(heap.used, 8);
    assert_eq!(heap.allocate_fit(small), Ok(bottom + PGSZ - 32));
    // a chunk of another size comes from the next page
    let other = Layout::from_size_align(100, 8).unwrap();
    assert_eq!(heap.allocate_fit(other), Ok(bottom + 2 * PGSZ - 128));
}

#[test]
fn heap_rejects_large_and_null() {
    let bottom: usize = 0x100000;
    let mut heap = Heap::new_uninit();
    heap.init(bottom, bottom + 4 * PGSZ);
    let big = Layout::from_size_align(2 * PGSZ, 8).unwrap();
    assert!(heap.can_allocate_fit(big));
    assert_eq!(heap.allocate_fit(big), Err(()));
    let small = Layout::from_size_align(20, 8).unwrap();
    assert!(!heap.can_deallocate_fit(0, small));
    assert!(!heap.can_deallocate_fit(0x1000, small));
}

#[test]
fn page_slab_pools() {
    let bottom: usize = 0x100000;
    let mut slab = PageSlab::new_uninit();
    assert!(!slab.is_pool_empty(8));
    slab.init(bottom, bottom + 3 * PGSZ);
    assert!(slab.is_pool_empty(8));
    let layout = Layout::from_size_align(256, 8).unwrap();
    assert_eq!(slab.allocate_fit(layout), Ok(bottom + PGSZ - 256));
    assert!(slab.is_pool_empty(3));
    slab.deallocate_fit(bottom + PGSZ - 256, layout);
    assert_eq!(slab.allocate_fit(layout), Ok(bottom + PGSZ - 256));
}

#[test]
fn slab_three_pages() {
    let (bottom, top) = zone();
    let mut heap = SlabAllocator::new();
    heap.init(bottom, top);
    let layout = Layout::from_size_align(3 * PGSZ, 8).unwrap();
    assert!(heap.can_allocate_fit(layout));
    let p = heap.allocate_fit(layout).unwrap();
    assert_eq!(p % PGSZ, 0);
    assert!(heap.can_deallocate_fit(p, layout));
    heap.deallocate_fit(p, layout);
    assert_eq!(heap.allocate_fit(layout), Ok(p));
}

#[test]
fn slab_uninit_big_fails() {
    let mut heap = SlabAllocator::new();
    let layout = Layout::from_size_align(2 * PGSZ, 8).unwrap();
    assert!(heap.can_allocate_fit(layout));
    assert_eq!(heap.allocate_fit(layout), Err(()));
    assert_eq!(heap.allocate_fit(Layout::from_size_align(0, 1).unwrap()), Ok(0));
}
