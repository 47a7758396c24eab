use buddy_alloc::buddy::{AllocError, Allocator};

const MB: usize = 1048576;

/// Byte size of a block at order `o`.
fn bytes_of(o: usize) -> usize {
    4096usize << (8 - o)
}

/// All nine free lists, head first.
fn lists(a: &Allocator) -> Vec<Vec<usize>> {
    (0..9).map(|o| a.free_list_contents(o)).collect()
}

/// The nine free lists with each list sorted: the population, ignoring
/// internal list order.
fn population(a: &Allocator) -> Vec<Vec<usize>> {
    let mut ls = lists(a);
    for l in ls.iter_mut() {
        l.sort();
    }
    ls
}

/// Sum of block sizes across all free lists, in bytes.
fn capacity(a: &Allocator) -> usize {
    let mut total = 0;
    for o in 0..9 {
        total += a.free_list_contents(o).len() * bytes_of(o);
    }
    total
}

#[test]
fn construction_seeds_whole_largest_blocks() {
    // 8 MiB arena: 2048 pages, 81920 bytes of page table, one reserved
    // 1 MiB block, seven free order-0 blocks, lowest first.
    let a = Allocator::new(8 * MB);
    assert_eq!(a.free_list_contents(0), vec![256, 512, 768, 1024, 1280, 1536, 1792]);
    for o in 1..9 {
        assert_eq!(a.free_list_contents(o), Vec::<usize>::new());
    }
    assert_eq!(capacity(&a), 7 * MB);
}

#[test]
fn construction_of_minimal_arena_has_no_capacity() {
    // 1 MiB arena: the only largest block is eaten by the reservation.
    let mut a = Allocator::new(MB);
    for o in 0..9 {
        assert_eq!(a.free_list_contents(o).len(), 0);
    }
    assert_eq!(a.allocate(1), Err(AllocError::ArenaExhausted));
}

#[test]
fn concrete_scenario_eight_mib() {
    let mut a = Allocator::new(8 * MB);
    // a page-sized request resolves to order 8 and is page-aligned
    let p1 = a.allocate(4096).unwrap();
    assert_eq!(p1 % 4096, 0);
    assert_eq!(p1, 256 * 4096);
    assert!(a.is_allocated(p1));
    // a one-byte request rounds up to order 8 as well
    let p2 = a.allocate(1).unwrap();
    assert_eq!(p2 % 4096, 0);
    assert_eq!(p2, 257 * 4096);
    // over the 1 MiB cap: rejected
    assert_eq!(a.allocate(MB + 1), Err(AllocError::InvalidSize));
    // exactly the cap succeeds while an order-0 block remains
    let big = a.allocate(MB).unwrap();
    assert_eq!(big % MB, 0);
    assert_eq!(big, 512 * 4096);
}

#[test]
fn invalid_sizes_fail_without_state_change() {
    let mut a = Allocator::new(8 * MB);
    let before = lists(&a);
    assert_eq!(a.allocate(0), Err(AllocError::InvalidSize));
    assert_eq!(a.allocate(MB + 1), Err(AllocError::InvalidSize));
    assert_eq!(a.allocate(usize::MAX), Err(AllocError::InvalidSize));
    assert_eq!(lists(&a), before);
}

#[test]
fn exhaustion_fails_without_state_change() {
    // 2 MiB arena: one free order-0 block in all
    let mut a = Allocator::new(2 * MB);
    assert_eq!(a.free_list_contents(0), vec![256]);
    let big = a.allocate(MB).unwrap();
    assert_eq!(big, 256 * 4096);
    let before = lists(&a);
    assert_eq!(a.allocate(1), Err(AllocError::ArenaExhausted));
    assert_eq!(a.allocate(MB), Err(AllocError::ArenaExhausted));
    assert_eq!(lists(&a), before);
}

#[test]
fn alloc_results_are_aligned_and_in_range() {
    let mut a = Allocator::new(8 * MB);
    for o in (0..9).rev() {
        let n = bytes_of(o);
        match a.allocate(n) {
            Ok(addr) => {
                assert_eq!(addr % n, 0);
                assert!(addr >= MB); // beyond the reserved prefix
                assert!(addr + n <= 8 * MB);
            }
            Err(e) => assert_eq!(e, AllocError::ArenaExhausted),
        }
    }
}

#[test]
fn allocated_ranges_stay_disjoint() {
    let mut a = Allocator::new(8 * MB);
    let mut held: Vec<(usize, usize)> = Vec::new();
    let sizes = [4096, 8192, 4096, 70000, 4096, MB, 30000, 8192];
    for &n in sizes.iter() {
        let addr = a.allocate(n).unwrap();
        let block = bytes_of(Allocator::get_ord(n));
        for &(b, s) in held.iter() {
            assert!(addr + block <= b || b + s <= addr);
        }
        held.push((addr, block));
    }
}

#[test]
fn free_returns_exactly_the_block_size_of_capacity() {
    let mut a = Allocator::new(8 * MB);
    let p1 = a.allocate(4096).unwrap();
    let p2 = a.allocate(10000).unwrap(); // order 6, 16 KiB
    let cap = capacity(&a);
    a.free(p1);
    assert_eq!(capacity(&a), cap + 4096);
    a.free(p2);
    assert_eq!(capacity(&a), cap + 4096 + 16384);
}

#[test]
fn buddies_merge_only_when_idle_and_order_matched() {
    let mut a = Allocator::new(8 * MB);
    let p1 = a.allocate(4096).unwrap(); // unit 256
    let p2 = a.allocate(4096).unwrap(); // unit 257
    assert_eq!((p1 / 4096, p2 / 4096), (256, 257));
    // p2's buddy (unit 256) is still allocated: no merge, p2 lands on
    // the order-8 list alone
    a.free(p2);
    assert_eq!(a.free_list_contents(8), vec![257]);
    assert!(a.is_allocated(p1));
    assert!(!a.is_allocated(p2));
    // freeing p1 merges the pair, and the cascade rebuilds the whole
    // order-0 block
    a.free(p1);
    assert_eq!(a.free_list_contents(8), Vec::<usize>::new());
    assert_eq!(a.free_list_contents(0), vec![256, 512, 768, 1024, 1280, 1536, 1792]);
}

#[test]
fn idle_neighbor_of_different_order_stays_unmerged() {
    let mut a = Allocator::new(8 * MB);
    let p1 = a.allocate(4096).unwrap(); // unit 256, order 8
    let p2 = a.allocate(4096).unwrap(); // unit 257, order 8
    let p3 = a.allocate(8192).unwrap(); // units 258..259, order 7
    assert_eq!(p3 / 4096, 258);
    // free the page at unit 257: its buddy (256) is allocated
    a.free(p2);
    assert_eq!(a.free_list_contents(8), vec![257]);
    // free the 8 KiB block at 258: its order-7 buddy position is unit
    // 256, which currently holds an order-8 block; the idle neighbor at
    // 257 has the wrong order, so nothing merges
    a.free(p3);
    assert_eq!(a.free_list_contents(7), vec![258]);
    assert_eq!(a.free_list_contents(8), vec![257]);
    let _ = p1;
}

#[test]
fn round_trip_restores_post_construction_lists() {
    let mut a = Allocator::new(8 * MB);
    let initial = population(&a);
    let mut held = Vec::new();
    for &n in [4096, 8192, MB, 123, 70000, 4096, 524288].iter() {
        held.push(a.allocate(n).unwrap());
    }
    // free in an order different from allocation
    for k in [3usize, 0, 6, 1, 5, 2, 4] {
        a.free(held[k]);
    }
    assert_eq!(population(&a), initial);
}

#[test]
fn freed_block_is_reused_first() {
    let mut a = Allocator::new(8 * MB);
    let p1 = a.allocate(4096).unwrap();
    let p2 = a.allocate(4096).unwrap();
    // p2's buddy (p1) is still held, so p2 lands at the head of the
    // order-8 list and the next page-sized request takes it back
    a.free(p2);
    let p3 = a.allocate(4096).unwrap();
    assert_eq!(p3, p2);
    let _ = p1;
}

#[test]
fn allocation_prefers_the_smallest_adequate_block() {
    let mut a = Allocator::new(8 * MB);
    // splitting for the first page leaves one spare block on every
    // order from 1 to 8
    let p1 = a.allocate(4096).unwrap();
    assert_eq!(p1 / 4096, 256);
    // an 8 KiB request is served from the order-7 spare, not by
    // splitting another large block
    let p2 = a.allocate(8192).unwrap();
    assert_eq!(p2 / 4096, 258);
    // a 16 KiB request from the order-6 spare
    let p3 = a.allocate(16384).unwrap();
    assert_eq!(p3 / 4096, 260);
}

struct Lcg(u64);

impl Lcg {
    fn next(&mut self) -> usize {
        self.0 = self.0.wrapping_mul(6364136223846793005).wrapping_add(1442695040888963407);
        (self.0 >> 33) as usize
    }
}

#[test]
fn fuzz_rounds_restore_the_population() {
    let mut a = Allocator::new(8 * MB);
    let mut rng = Lcg(0x5eed);
    for _round in 0..8 {
        let snapshot = population(&a);
        let mut held = Vec::new();
        // draw sizes within a randomly chosen order's byte range until
        // the arena is exhausted at that order
        loop {
            let o = rng.next() % 9;
            let size = 1 + rng.next() % bytes_of(o);
            match a.allocate(size) {
                Ok(addr) => held.push(addr),
                Err(AllocError::ArenaExhausted) => break,
                Err(e) => panic!("unexpected failure: {:?}", e),
            }
        }
        // free everything in a random order
        while !held.is_empty() {
            let k = rng.next() % held.len();
            let addr = held.swap_remove(k);
            a.free(addr);
        }
        assert_eq!(population(&a), snapshot);
    }
}
