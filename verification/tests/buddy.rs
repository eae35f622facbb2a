use buddy_slab::align::align_up;
use buddy_slab::bintree::def::MIN_SIZE;
use buddy_slab::buddy::buddy_allocator::BuddyAllocator;
use buddy_slab::buddy::def::PAGE_SIZE;
use buddy_slab::layout::Layout;

#[test]
fn buddy_test() {
    const PAGE_COUNTS: usize = 16;
    let bottom: usize = 0x10008;
    let top = bottom + PAGE_COUNTS * PAGE_SIZE;

    let mut buddy = BuddyAllocator::new();
    buddy.init(bottom, top);

    assert_eq!(align_up(bottom, MIN_SIZE), buddy.zone());

    let mut addr1 = buddy.allocate(Layout::from_size_align(PAGE_SIZE, PAGE_SIZE << 1).unwrap());
    match addr1 {
        Ok(addr) => {
            assert_eq!(align_up(bottom + 3 * PAGE_SIZE, PAGE_SIZE), addr);
        }
        Err(_) => {
            panic!("")
        }
    }

    let mut addr2 = buddy.allocate(Layout::from_size_align(PAGE_SIZE << 1, PAGE_SIZE).unwrap());
    match addr2 {
        Ok(addr) => {
            assert_eq!(align_up(bottom + 4 * PAGE_SIZE, PAGE_SIZE), addr);
        }
        Err(_) => {
            panic!("");
        }
    }

    let addr3 = buddy.allocate(Layout::from_size_align(PAGE_SIZE, PAGE_SIZE).unwrap());
    match addr3 {
        Ok(addr) => {
            assert_eq!(align_up(bottom + 6 * PAGE_SIZE, PAGE_SIZE), addr,);
        }
        Err(_) => {
            panic!("");
        }
    }

    let free1 = buddy.deallocate(addr1.unwrap(), PAGE_SIZE).unwrap();
    assert_eq!(18, free1);
    let free2 = buddy.deallocate(addr2.unwrap(), PAGE_SIZE << 1).unwrap();
    assert_eq!(9, free2);

    addr1 = buddy.allocate(Layout::from_size_align(PAGE_SIZE, PAGE_SIZE).unwrap());
    match addr1 {
        Ok(addr) => {
            assert_eq!(align_up(bottom + 3 * PAGE_SIZE, PAGE_SIZE), addr);
        }
        Err(_) => {
            panic!("");
        }
    }

    addr2 = buddy.allocate(Layout::from_size_align(PAGE_SIZE << 1, PAGE_SIZE).unwrap());
    match addr2 {
        Ok(addr) => {
            assert_eq!(align_up(bottom + 4 * PAGE_SIZE, PAGE_SIZE), addr);
        }
        Err(_) => {
            panic!("");
        }
    }
}

use buddy_slab::buddy::buddy_allocator::BuddyErr;

/// A zone of 16 whole pages starting on a page boundary.
fn zone16() -> (usize, usize) {
    let bottom: usize = 0x10000;
    (bottom, bottom + 16 * PAGE_SIZE)
}

fn page_layout(pages: usize) -> Layout {
    Layout::from_size_align(pages * PAGE_SIZE, PAGE_SIZE).unwrap()
}

#[test]
fn buddy_empty_before_init() {
    let mut buddy = BuddyAllocator::new();
    assert_eq!(buddy.zone(), 0);
    assert!(!buddy.can_allocate(page_layout(1)));
    assert_eq!(buddy.allocate(page_layout(1)), Err(BuddyErr::Empty));
    assert!(!buddy.can_deallocate(0x10000, PAGE_SIZE));
}

#[test]
fn buddy_can_init() {
    let (bottom, top) = zone16();
    assert!(BuddyAllocator::can_init(bottom, top));
    // a null bottom
    assert!(!BuddyAllocator::can_init(0, top));
    // no whole page between the bounds
    assert!(!BuddyAllocator::can_init(bottom + 1, bottom + 100));
    // two pages keep a tree of two pages, fewer than the tree's own three
    assert!(!BuddyAllocator::can_init(bottom, bottom + PAGE_SIZE));
    // four pages are enough
    assert!(BuddyAllocator::can_init(bottom, bottom + 3 * PAGE_SIZE));
    // more than the largest tree
    assert!(!BuddyAllocator::can_init(bottom, bottom + 1024 * PAGE_SIZE));
    assert!(BuddyAllocator::can_init(bottom, bottom + 1023 * PAGE_SIZE));
    // a zone that would end past the end of memory
    assert!(!BuddyAllocator::can_init(usize::MAX - 8 * PAGE_SIZE, usize::MAX));
}

#[test]
fn buddy_allocates_by_level() {
    let (bottom, top) = zone16();
    let mut buddy = BuddyAllocator::new();
    buddy.init(bottom, top);
    assert_eq!(buddy.zone(), bottom);
    // the first three pages hold the tree: a block of four pages starts at page 4
    assert_eq!(buddy.allocate(page_layout(4)), Ok(bottom + 4 * PAGE_SIZE));
    assert_eq!(buddy.allocate(page_layout(4)), Ok(bottom + 8 * PAGE_SIZE));
    assert_eq!(buddy.allocate(page_layout(4)), Ok(bottom + 12 * PAGE_SIZE));
    // one page is left, page 3
    assert_eq!(buddy.allocate(page_layout(2)), Err(BuddyErr::NotEnough));
    assert_eq!(buddy.allocate(page_layout(1)), Ok(bottom + 3 * PAGE_SIZE));
    assert_eq!(buddy.allocate(page_layout(1)), Err(BuddyErr::Empty));
}

#[test]
fn buddy_not_enough() {
    let (bottom, top) = zone16();
    let mut buddy = BuddyAllocator::new();
    buddy.init(bottom, top);
    assert!(!buddy.can_allocate(page_layout(14)));
    assert_eq!(buddy.allocate(page_layout(14)), Err(BuddyErr::NotEnough));
    assert!(buddy.can_allocate(page_layout(8)));
    assert_eq!(buddy.allocate(page_layout(8)), Ok(bottom + 8 * PAGE_SIZE));
}

#[test]
fn buddy_not_found() {
    let (bottom, top) = zone16();
    let mut buddy = BuddyAllocator::new();
    buddy.init(bottom, top);
    // the block of twelve pages and a byte is the whole tree, whose first pages are taken
    let layout = Layout::from_size_align(12 * PAGE_SIZE + 1, PAGE_SIZE).unwrap();
    assert!(!buddy.can_allocate(layout));
    assert_eq!(buddy.allocate(layout), Err(BuddyErr::NotFound));
}

#[test]
fn buddy_deallocate_errors() {
    let (bottom, top) = zone16();
    let mut buddy = BuddyAllocator::new();
    buddy.init(bottom, top);
    assert_eq!(buddy.deallocate(bottom + 1, PAGE_SIZE), Err(BuddyErr::WrongSize));
    assert_eq!(buddy.deallocate(bottom, 100), Err(BuddyErr::WrongAddr));
    assert_eq!(buddy.deallocate(bottom, 32 * PAGE_SIZE), Err(BuddyErr::WrongSize));
    assert_eq!(buddy.deallocate(bottom + 8 * PAGE_SIZE, 8 * PAGE_SIZE), Err(BuddyErr::NotFound));
    assert!(!buddy.can_deallocate(bottom + 8 * PAGE_SIZE, 8 * PAGE_SIZE));
}

#[test]
fn buddy_free_after_alloc() {
    let (bottom, top) = zone16();
    let mut buddy = BuddyAllocator::new();
    buddy.init(bottom, top);
    let addr = buddy.allocate(page_layout(2)).unwrap();
    assert_eq!(addr, bottom + 4 * PAGE_SIZE);
    assert!(buddy.can_deallocate(addr, 2 * PAGE_SIZE));
    // blocks of two pages are nodes 7..=14; the one at page 4 is node 9
    assert_eq!(buddy.deallocate(addr, 2 * PAGE_SIZE), Ok(9));
    // freed again, it is no longer found
    assert_eq!(buddy.deallocate(addr, 2 * PAGE_SIZE), Err(BuddyErr::NotFound));
}

#[test]
fn buddy_alloc_after_free() {
    let (bottom, top) = zone16();
    let mut buddy = BuddyAllocator::new();
    buddy.init(bottom, top);
    let first = buddy.allocate(page_layout(4)).unwrap();
    buddy.deallocate(first, 4 * PAGE_SIZE).unwrap();
    assert_eq!(buddy.allocate(page_layout(4)), Ok(first));
}

#[test]
fn buddy_blocks_disjoint() {
    let (bottom, top) = zone16();
    let mut buddy = BuddyAllocator::new();
    buddy.init(bottom, top);
    let a = buddy.allocate(page_layout(2)).unwrap();
    let b = buddy.allocate(page_layout(1)).unwrap();
    let c = buddy.allocate(page_layout(4)).unwrap();
    let blocks = [(a, 2), (b, 1), (c, 4)];
    for (i, &(x, nx)) in blocks.iter().enumerate() {
        assert!(x >= bottom + 3 * PAGE_SIZE && x + nx * PAGE_SIZE <= bottom + 16 * PAGE_SIZE);
        for &(y, ny) in blocks.iter().skip(i + 1) {
            assert!(x + nx * PAGE_SIZE <= y || y + ny * PAGE_SIZE <= x);
        }
    }
}

#[test]
fn buddy_free_restores_count() {
    let (bottom, top) = zone16();
    let mut buddy = BuddyAllocator::new();
    buddy.init(bottom, top);
    let a = buddy.allocate(page_layout(8)).unwrap();
    // five pages are left: another eight do not fit
    assert_eq!(buddy.allocate(page_layout(8)), Err(BuddyErr::NotEnough));
    buddy.deallocate(a, 8 * PAGE_SIZE).unwrap();
    // the freed pages count again
    assert_eq!(buddy.allocate(page_layout(8)), Ok(a));
}

#[test]
fn buddy_small_requests_take_pages() {
    let (bottom, top) = zone16();
    let mut buddy = BuddyAllocator::new();
    buddy.init(bottom, top);
    let small = Layout::from_size_align(100, 8).unwrap();
    let mut seen = Vec::new();
    for _ in 0..13 {
        let a = buddy.allocate(small).unwrap();
        assert!(!seen.contains(&a));
        seen.push(a);
    }
    // each request took a whole page: none is left
    assert_eq!(buddy.allocate(small), Err(BuddyErr::Empty));
    let empty = Layout::from_size_align(0, 1).unwrap();
    assert_eq!(buddy.allocate(empty), Err(BuddyErr::Empty));
}

#[test]
fn buddy_honours_alignment() {
    let (bottom, top) = zone16();
    let mut buddy = BuddyAllocator::new();
    buddy.init(bottom, top);
    // page 3 is the first free page, but it is not aligned to two pages
    let layout = Layout::from_size_align(PAGE_SIZE, 2 * PAGE_SIZE).unwrap();
    assert_eq!(buddy.allocate(layout), Ok(bottom + 4 * PAGE_SIZE));
    assert_eq!(buddy.allocate(page_layout(1)), Ok(bottom + 3 * PAGE_SIZE));
    // no free page of the zone is aligned to 1 MiB
    let far = Layout::from_size_align(PAGE_SIZE, 0x100000).unwrap();
    assert_eq!(buddy.allocate(far), Err(BuddyErr::NotFound));
}

#[test]
fn buddy_deallocate_before_init() {
    let mut buddy = BuddyAllocator::new();
    assert_eq!(buddy.deallocate(0x10001, PAGE_SIZE), Err(BuddyErr::WrongSize));
    assert_eq!(buddy.deallocate(0x10000, 100), Err(BuddyErr::WrongAddr));
    assert_eq!(buddy.deallocate(0x10000, PAGE_SIZE), Err(BuddyErr::WrongSize));
}

#[test]
fn buddy_empty_request_round_trip() {
    let (bottom, top) = zone16();
    let mut buddy = BuddyAllocator::new();
    buddy.init(bottom, top);
    let empty = Layout::from_size_align(0, 1).unwrap();
    // thirteen empty requests take the thirteen free pages, one each
    let first = buddy.allocate(empty).unwrap();
    assert_eq!(first, bottom + 3 * PAGE_SIZE);
    assert_eq!(buddy.deallocate(first, 0), Ok(18));
    // the page is counted free again: thirteen requests still fit
    for _ in 0..13 {
        assert!(buddy.allocate(empty).is_ok());
    }
    assert_eq!(buddy.allocate(empty), Err(BuddyErr::Empty));
}
