use buddy_alloc::geometry::{align_b, align_f, MAX_BLOCK_BYTES, MAX_ORDER, NIL, ORDER_COUNT, UNIT};
use buddy_alloc::page::Page;
use buddy_alloc::buddy::Allocator;

#[test]
fn align_b_rounds_down() {
    assert_eq!(align_b(5000, 4096), 4096);
    assert_eq!(align_b(4096, 4096), 4096);
    assert_eq!(align_b(4095, 4096), 0);
    assert_eq!(align_b(81920, 1048576), 0);
    assert_eq!(align_b(7, 3), 6);
}

#[test]
fn align_f_rounds_up() {
    assert_eq!(align_f(5000, 4096), 8192);
    assert_eq!(align_f(4096, 4096), 4096);
    assert_eq!(align_f(1, 4096), 4096);
    assert_eq!(align_f(81920, 1048576), 1048576);
    assert_eq!(align_f(1048577, 1048576), 2097152);
}

#[test]
fn get_ord_maps_sizes_to_classes() {
    assert_eq!(Allocator::get_ord(1), 8);
    assert_eq!(Allocator::get_ord(4096), 8);
    assert_eq!(Allocator::get_ord(4097), 7);
    assert_eq!(Allocator::get_ord(8192), 7);
    assert_eq!(Allocator::get_ord(8193), 6);
    assert_eq!(Allocator::get_ord(524288), 1);
    assert_eq!(Allocator::get_ord(524289), 0);
    assert_eq!(Allocator::get_ord(MAX_BLOCK_BYTES), 0);
}

#[test]
fn get_buddy_flips_the_block_bit() {
    // order 8: single pages pair up
    assert_eq!(Allocator::get_buddy(0, 8), 4096);
    assert_eq!(Allocator::get_buddy(4096, 8), 0);
    // order 7: 8 KiB blocks pair up
    assert_eq!(Allocator::get_buddy(0, 7), 8192);
    assert_eq!(Allocator::get_buddy(8192, 7), 0);
    assert_eq!(Allocator::get_buddy(16384, 7), 24576);
    // order 0: 1 MiB blocks pair up
    assert_eq!(Allocator::get_buddy(0, 0), 1048576);
    assert_eq!(Allocator::get_buddy(1048576, 0), 0);
    assert_eq!(Allocator::get_buddy(2097152, 0), 3145728);
}

#[test]
fn size_class_constants_are_consistent() {
    assert_eq!(UNIT, 4096);
    assert_eq!(MAX_ORDER, 8);
    assert_eq!(ORDER_COUNT, MAX_ORDER + 1);
    // the largest block spans 2^MAX_ORDER units
    assert_eq!(MAX_BLOCK_BYTES, (1 << MAX_ORDER) * UNIT);
}

#[test]
fn page_new_is_idle_and_unlinked() {
    let p = Page::new(17, 3);
    assert_eq!(p.idx, 17);
    assert_eq!(p.ord, 3);
    assert_eq!(p.ref_cnt, 0);
    assert!(p.is_idle());
    assert_eq!(p.next, NIL);
    assert_eq!(p.prev, NIL);
}

#[test]
fn page_rm_links_clears_both_links() {
    let mut p = Page::new(5, 8);
    p.next = 6;
    p.prev = 4;
    p.rm_links();
    assert_eq!(p.next, NIL);
    assert_eq!(p.prev, NIL);
    assert_eq!(p.idx, 5);
    assert_eq!(p.ord, 8);
}

#[test]
fn page_is_idle_tracks_ref_cnt() {
    let mut p = Page::new(0, 0);
    assert!(p.is_idle());
    p.ref_cnt = 1;
    assert!(!p.is_idle());
}

#[test]
fn page_default_is_the_zero_record() {
    let p = Page::default();
    assert_eq!(p.idx, 0);
    assert_eq!(p.ord, 0);
    assert_eq!(p.ref_cnt, 0);
    assert_eq!(p.next, NIL);
    assert_eq!(p.prev, NIL);
}
