use buddy_slab::align::align_up;
use buddy_slab::def::POOL_SIZE_64;
use buddy_slab::linklist::link::Linkedlist;

#[test]
fn it_works() {
    let start: usize = 0x20010;
    let end = start + 4095;
    let mut linked_list = Linkedlist::new();

    linked_list.init(start, end, POOL_SIZE_64);

    assert_eq!((end - start) / 64, linked_list.len());

    let mut items = linked_list.iter();
    let mut i = 0;
    while let Some(item) = items.next() {
        assert_eq!(align_up(start, POOL_SIZE_64) + POOL_SIZE_64 * i, item);
        i += 1;
    }
}

use buddy_slab::linklist::node::Node;

#[test]
fn list_pop_after_push() {
    let mut list = Linkedlist::new();
    assert!(list.is_empty());
    assert_eq!(list.first(), None);
    assert_eq!(list.pop(), None);
    list.push(0x1000);
    list.push(0x2000);
    assert_eq!(list.len(), 2);
    assert_eq!(list.first(), Some(0x2000));
    assert_eq!(list.pop(), Some(0x2000));
    assert_eq!(list.pop(), Some(0x1000));
    assert!(list.is_empty());
}

#[test]
fn list_push_tail() {
    let mut list = Linkedlist::new();
    list.push(0x1000);
    list.push_tail(0x3000);
    assert_eq!(list.pop(), Some(0x1000));
    assert_eq!(list.pop(), Some(0x3000));
}

#[test]
fn list_pop_algin_rotates() {
    let mut list = Linkedlist::new();
    list.push(0x1000);
    list.push(0x2000);
    list.push(0x3010);
    assert!(list.can_pop_algin(0x1000));
    // the unaligned head moves to the tail
    assert_eq!(list.pop_algin(0x1000), Some(0x2000));
    assert_eq!(list.pop(), Some(0x1000));
    assert_eq!(list.pop(), Some(0x3010));
}

#[test]
fn list_pop_algin_after_push() {
    let mut list = Linkedlist::new();
    list.init(0x20000, 0x21000, 0x400);
    list.push(0x8000);
    assert_eq!(list.pop_algin(0x400), Some(0x8000));
    assert_eq!(list.len(), 4);
}

#[test]
fn list_pop_algin_drops_unaligned_tail() {
    let mut list = Linkedlist::new();
    list.push(0x3010);
    assert!(!list.can_pop_algin(0x1000));
    assert_eq!(list.pop_algin(0x1000), None);
    assert!(list.is_empty());
}

#[test]
fn list_init_chunks() {
    let mut list = Linkedlist::new();
    list.init(0x20010, 0x21000, 0x400);
    // the chunks of 1 KiB between 0x20400 and 0x21000, in address order
    assert_eq!(list.len(), 3);
    assert_eq!(list.pop(), Some(0x20400));
    assert_eq!(list.pop(), Some(0x20800));
    assert_eq!(list.pop(), Some(0x20c00));
}

#[test]
fn node_set_next() {
    let mut node = Node { next: 0 };
    node.set_next(0x4000);
    assert_eq!(node.next, 0x4000);
}
