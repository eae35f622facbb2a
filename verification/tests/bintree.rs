use buddy_slab::bintree::def::MAX_NODES;
use buddy_slab::bintree::tree::BinTree;
use buddy_slab::bintree::tree_node::TreeNode;
use buddy_slab::bintree::treemap::TreeMap;
use buddy_slab::def::PGSZ;

#[test]
fn get_level_test() {
    let mut tree1 = BinTree::new();
    let mut tree2 = BinTree::new();
    let mut tree3 = BinTree::new();
    let _ = tree1.init(0x10000, PGSZ);
    let _ = tree2.init(0x10000, PGSZ * 2);
    let _ = tree3.init(0x10000, PGSZ * 3);

    for i in 0..tree1.level {
        assert_eq!(i + 1, tree1.get_level(PGSZ * (1 >> i)));
    }

    for i in 0..tree2.level {
        assert_eq!(i + 1, tree2.get_level(PGSZ * (2 >> i)));
    }

    for i in 0..tree3.level {
        assert_eq!(i + 1, tree3.get_level(PGSZ * (2 >> i)));
    }
}

#[test]
fn get_index_test() {
    let mut tree1 = BinTree::new();
    let mut tree2 = BinTree::new();
    let mut tree3 = BinTree::new();
    let _ = tree1.init(0x10000, PGSZ);
    let _ = tree2.init(0x10000, PGSZ * 2);
    let _ = tree3.init(0x10000, PGSZ * 3);

    for i in 0..tree1.level {
        assert_eq!((2usize.pow(i as u32)) - 1, tree1.get_index(i + 1));
    }

    for i in 0..tree2.level {
        assert_eq!((2usize.pow(i as u32)) - 1, tree2.get_index(i + 1));
    }

    for i in 0..tree3.level {
        assert_eq!((2usize.pow(i as u32)) - 1, tree3.get_index(i + 1));
    }
}

#[test]
fn find_test() {
    let mut tree = BinTree::new();
    let _ = tree.init(0x10000, PGSZ);

    match tree.find_unused(PGSZ) {
        Ok(idx) => assert_eq!(0, idx),
        Err(err) => {
            panic!("{}", err);
        }
    }
}

#[test]
fn init_test() {
    let mut tree = BinTree::new();
    let mut bad_tree = BinTree::new();

    let gen_success = tree.init(0x10000, PGSZ * 10);
    let gen_error = bad_tree.init(0x10000, PGSZ / 2);

    assert_eq!(Ok(8), gen_success);
    assert!(gen_error.is_err());

    println!("{:x?}", tree);
}

#[test]
fn insert_test() {
    let mut root = TreeNode::new(0);

    match root.insert_left(1) {
        Ok(_) => {}
        Err(err) => {
            panic!("{}", err);
        }
    }

    match root.insert_right(2) {
        Ok(_) => {}
        Err(err) => {
            panic!("{}", err);
        }
    }

    assert_eq!(0, root.get_value());
    assert_eq!(1, root.left_value().unwrap());
    assert_eq!(2, root.right_value().unwrap());
}

#[test]
fn delete_test() {
    let mut root = TreeNode::new(0);

    let _ = root.insert_left(1);
    let _ = root.insert_right(2);

    assert_eq!(1, root.delete_left().unwrap());
    assert_eq!(2, root.delete_right().unwrap());
}

#[test]
fn map_test() {
    let mut bitmap = TreeMap::new();

    for i in 0..MAX_NODES {
        if bitmap.is_empty(i) {
            bitmap.set_bit(i);
            assert!(!bitmap.is_empty(i));
            bitmap.unset_bit(i);
            assert!(bitmap.is_empty(i));
        } else {
            panic!();
        }
    }

    bitmap.set_bit_all();
    for i in 0..MAX_NODES {
        assert!(!bitmap.is_empty(i));
    }

    bitmap.unset_bit_all();
    for i in 0..MAX_NODES {
        assert!(bitmap.is_empty(i));
    }
}

use buddy_slab::bintree::tree::TreeErr;

/// A tree over eight pages from `0x10000`.
fn tree8() -> BinTree {
    let mut tree = BinTree::new();
    assert_eq!(tree.init(0x10000, PGSZ * 8), Ok(8));
    tree
}

#[test]
fn tree_values_and_children() {
    let tree = tree8();
    assert_eq!(tree.level(), 4);
    assert_eq!(tree.max_node(), 14);
    assert_eq!(tree.get_value(0), 0x10000);
    assert_eq!(tree.get_value(2), 0x10000 + 4 * PGSZ);
    assert_eq!(tree.get_value(14), 0x10000 + 7 * PGSZ);
    assert_eq!(tree.find_left_child(2), 5);
    assert_eq!(tree.find_right_child(2), 6);
    assert_eq!(tree.find_parent(6), 2);
    assert_eq!(tree.find_parent(5), 2);
}

#[test]
fn tree_use_and_unuse() {
    let mut tree = tree8();
    // the first unused block of two pages is node 3
    assert_eq!(tree.find_unused(2 * PGSZ), Ok(3));
    // no block of two pages is used yet: the level's last node comes back unexamined
    assert_eq!(tree.find_used(2 * PGSZ), Ok(6));
    tree.use_mem(3);
    assert!(!tree.can_use(7, 2));
    assert!(tree.can_use(9, 2));
    assert_eq!(tree.find_used(2 * PGSZ), Ok(3));
    assert_eq!(tree.find_unused(2 * PGSZ), Ok(4));
    assert_eq!(tree.find_match(2 * PGSZ, 0x10000, true), Ok(3));
    tree.unuse_mem(3);
    assert!(tree.can_use(7, 2));
    assert_eq!(tree.find_unused(2 * PGSZ), Ok(3));
    assert_eq!(tree.find_match(2 * PGSZ, 0x10000, true), Err(TreeErr::NotFound));
}

#[test]
fn tree_pages_one_by_one() {
    let mut tree = tree8();
    tree.use_page(7);
    assert!(!tree.can_use(7, 1));
    assert_eq!(tree.find_unused(PGSZ), Ok(8));
    tree.unuse_page(7);
    assert_eq!(tree.find_unused(PGSZ), Ok(7));
}

#[test]
fn tree_wrong_size() {
    let tree = tree8();
    assert_eq!(tree.find_unused(PGSZ << 11), Err("BinTree::find"));
    let mut one = BinTree::new();
    assert_eq!(one.init(0x10000, PGSZ), Ok(1));
    assert_eq!(one.find_used(PGSZ), Ok(0));
    assert_eq!(tree.find_used(PGSZ << 11), Err("BinTree::find"));
    let mut empty = BinTree::new();
    assert_eq!(empty.init(0x10000, PGSZ - 1), Err("BinTree::init"));
    assert_eq!(tree.find_match(16 * PGSZ, 0x10000, false), Err(TreeErr::WrongSize));
    assert_eq!(tree.find_match(PGSZ << 11, 0x10000, false), Err(TreeErr::WrongSize));
}

#[test]
fn tree_node_errors() {
    let mut node = TreeNode::new(5);
    assert_eq!(node.delete_left(), Err("falut occured in delete_left."));
    assert_eq!(node.delete_right(), Err("falut occured in delete_right."));
    assert_eq!(node.insert_left(1), Ok(1));
    assert_eq!(node.insert_left(2), Err("falut occured in insert_left."));
    assert_eq!(node.insert_right(3), Ok(3));
    assert_eq!(node.insert_right(4), Err("falut occured in insert_right."));
    assert_eq!(node.left_value(), Some(1));
    assert!(!node.is_visited());
    node.visit();
    assert!(node.is_visited());
    assert_eq!(node.set_value(7), 7);
    assert_eq!(node.get_value(), 7);
}

#[test]
fn map_bits_in_runs() {
    let mut bitmap = TreeMap::new();
    assert!(bitmap.mul_get_bit(10, 4));
    bitmap.set_bit(12);
    assert!(bitmap.get_bit(12));
    assert!(!bitmap.mul_get_bit(10, 4));
    assert!(bitmap.mul_get_bit(13, 3));
    bitmap.unset_bit(12);
    assert!(bitmap.mul_get_bit(10, 4));
    // a run past the end of the map
    assert!(!bitmap.mul_get_bit(MAX_NODES * 8 - 2, 3));
}

#[test]
fn tree_find_unused_never_returns_used() {
    let mut tree = BinTree::new();
    assert_eq!(tree.init(0x10000, PGSZ), Ok(1));
    tree.use_page(0);
    assert_eq!(tree.find_unused(PGSZ), Err("BinTree::find"));
    let mut tree = tree8();
    // every block of four pages taken: the last one is examined too
    tree.use_mem(1);
    assert_eq!(tree.find_unused(4 * PGSZ), Ok(2));
    tree.use_mem(2);
    assert_eq!(tree.find_unused(4 * PGSZ), Err("BinTree::find"));
}
