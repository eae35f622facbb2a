use buddy_slab::align::{align, align_down, align_up};

#[test]
fn align_test() {
    assert_eq!(0x810, align(0x810, !0xf));
    assert_eq!(0x810, align(0x818, !0xf));
    assert_eq!(0x810, align_down(0x818, 0x10));
    assert_eq!(0x820, align_up(0x818, 0x10));
    assert_eq!(0x820, align_up(0x820, 0x10));

    assert_eq!(0x7fc000, align_up(0x7fb078, 0x2000));
    assert_eq!(0x7fa000, align_down(0x7fb078, 0x2000));
}

use buddy_slab::layout::{Layout, LayoutError};

#[test]
fn layout_from_size_align() {
    let l = Layout::from_size_align(24, 8).unwrap();
    assert_eq!((l.size(), l.align()), (24, 8));
    assert_eq!(Layout::from_size_align(8, 3), Err(LayoutError));
    assert_eq!(Layout::from_size_align(8, 0), Err(LayoutError));
    assert_eq!(Layout::from_size_align(isize::MAX as usize, 2), Err(LayoutError));
    assert!(Layout::from_size_align(isize::MAX as usize - 1, 2).is_ok());
}
