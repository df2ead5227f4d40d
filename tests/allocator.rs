use buddy_allocator::{order_from_max_block_size, BuddyAllocator, MIN_BLOCK_SIZE};

// A pool address aligned to 256 bytes, so that a 256-byte pool is one block.
const ALIGNMENT: usize = 256;
const POOL_ADDR: usize = 0x4_0000;
const ORDERS: usize = 5;

#[test]
fn test_add_memory() {
    let pool_addr = POOL_ADDR;
    let pool_size = 2 * ALIGNMENT;

    let mut allocator = BuddyAllocator::<ORDERS>::new();
    // Smaller than smallest pool that can be added
    let added = allocator.add_memory(pool_addr, MIN_BLOCK_SIZE - 1);
    assert_eq!(added, 0);
    // Smallest pool that can be added
    let added = allocator.add_memory(pool_addr, MIN_BLOCK_SIZE);
    assert_eq!(added, MIN_BLOCK_SIZE);

    let mut allocator = BuddyAllocator::<ORDERS>::new();
    // Add everything
    let added = allocator.add_memory(pool_addr, pool_size);
    assert_eq!(added, pool_size);

    const ALL_BLOCKS_POOL_SIZE: usize = MIN_BLOCK_SIZE * ((2 << (ORDERS - 1)) - 1);
    let mut allocator = BuddyAllocator::<ORDERS>::new();
    // Add all block sizes
    let added = allocator.add_memory(pool_addr, ALL_BLOCKS_POOL_SIZE);
    assert_eq!(added, ALL_BLOCKS_POOL_SIZE);
}

#[test]
fn test_memory_allocation() {
    let pool_addr = POOL_ADDR;
    let pool_size = ALIGNMENT;

    let mut allocator = BuddyAllocator::<ORDERS>::new();
    // Add one biggest block
    let added = allocator.add_memory(pool_addr, pool_size);
    assert_eq!(added, allocator.get_max_block_size());

    // Request 1 bytes, which will allocate `MIN_BLOCK_SIZE` bytes
    for offset in (0..pool_size).step_by(MIN_BLOCK_SIZE) {
        let result = allocator.get_memory(1, 1);
        assert!(result.is_some_and(|(ptr, len)| ptr == pool_addr + offset && len == MIN_BLOCK_SIZE));
    }
    // No more memory to allocate
    assert!(allocator.get_memory(1, 1).is_none());

    // Deallocate every requested block
    for offset in (0..pool_size).step_by(MIN_BLOCK_SIZE) {
        allocator.return_memory(pool_addr + offset, 1, 1);
    }

    // Allocate maximum block size
    let max = allocator.get_max_block_size();
    let result = allocator.get_memory(max, 1);
    assert!(result.is_some_and(|(ptr, len)| ptr == pool_addr && len == max));
    // No more memory to allocate
    assert!(allocator.get_memory(max, 1).is_none());
}

fn free_total(allocator: &BuddyAllocator<ORDERS>) -> usize {
    let mut total = 0;
    for order in 0..ORDERS {
        total += allocator.free_blocks(order).len() * (MIN_BLOCK_SIZE << order);
    }
    total
}

fn snapshot(allocator: &BuddyAllocator<ORDERS>) -> Vec<Vec<usize>> {
    (0..ORDERS).map(|order| allocator.free_blocks(order)).collect()
}

#[test]
fn order_count_from_largest_block() {
    assert_eq!(order_from_max_block_size(256), 5);
    assert_eq!(order_from_max_block_size(16), 1);
    assert_eq!(order_from_max_block_size(4096), 9);
}

#[test]
fn largest_block_of_five_orders_is_256_bytes() {
    let allocator = BuddyAllocator::<ORDERS>::new();
    assert_eq!(allocator.get_max_block_size(), 256);
    for order in 0..ORDERS {
        assert!(allocator.free_blocks(order).is_empty());
    }
}

#[test]
fn add_memory_trims_an_unaligned_region_and_tiles_it_greedily() {
    let mut allocator = BuddyAllocator::<ORDERS>::new();
    // [0x4_0005, 0x4_0005 + 100): aligned span is [0x4_0010, 0x4_0060)
    let added = allocator.add_memory(POOL_ADDR + 5, 100);
    assert_eq!(added, 0x50);
    // 16 bytes at 0x4_0010, 32 at 0x4_0020 (not aligned to 64), 32 at
    // 0x4_0040 (aligned to 64, but only 32 bytes are left)
    assert_eq!(allocator.free_blocks(0), vec![POOL_ADDR + 0x10]);
    assert_eq!(allocator.free_blocks(1), vec![POOL_ADDR + 0x40, POOL_ADDR + 0x20]);
    assert!(allocator.free_blocks(2).is_empty());
    assert!(allocator.free_blocks(3).is_empty());
    assert!(allocator.free_blocks(4).is_empty());
}

#[test]
fn add_memory_caps_blocks_at_the_largest_size() {
    let mut allocator = BuddyAllocator::<ORDERS>::new();
    let added = allocator.add_memory(0, 1024);
    assert_eq!(added, 1024);
    assert_eq!(allocator.free_blocks(4), vec![0x300, 0x200, 0x100, 0]);
}

#[test]
fn zero_sized_request_gets_a_minimum_block() {
    let mut allocator = BuddyAllocator::<ORDERS>::new();
    allocator.add_memory(POOL_ADDR, 256);
    assert_eq!(allocator.get_memory(0, 1), Some((POOL_ADDR, MIN_BLOCK_SIZE)));
}

#[test]
fn alignment_raises_the_block_size() {
    let mut allocator = BuddyAllocator::<ORDERS>::new();
    allocator.add_memory(POOL_ADDR, 256);
    assert_eq!(allocator.get_memory(1, 64), Some((POOL_ADDR, 64)));
    assert_eq!(allocator.get_memory(33, 1), Some((POOL_ADDR + 64, 64)));
}

#[test]
fn requests_larger_than_the_largest_block_fail_softly() {
    let mut allocator = BuddyAllocator::<ORDERS>::new();
    allocator.add_memory(POOL_ADDR, 1024);
    let before = snapshot(&allocator);
    assert_eq!(allocator.get_memory(257, 1), None);
    assert_eq!(allocator.get_memory(1, 512), None);
    assert_eq!(allocator.get_memory(usize::MAX, 1), None);
    assert_eq!(snapshot(&allocator), before);
}

#[test]
fn split_leaves_one_upper_half_per_order() {
    let mut allocator = BuddyAllocator::<ORDERS>::new();
    allocator.add_memory(POOL_ADDR, 256);
    assert_eq!(allocator.get_memory(16, 16), Some((POOL_ADDR, 16)));
    assert_eq!(allocator.free_blocks(0), vec![POOL_ADDR + 16]);
    assert_eq!(allocator.free_blocks(1), vec![POOL_ADDR + 32]);
    assert_eq!(allocator.free_blocks(2), vec![POOL_ADDR + 64]);
    assert_eq!(allocator.free_blocks(3), vec![POOL_ADDR + 128]);
    assert!(allocator.free_blocks(4).is_empty());
}

#[test]
fn conservation_of_bytes() {
    let mut allocator = BuddyAllocator::<ORDERS>::new();
    let added = allocator.add_memory(POOL_ADDR, 512) + allocator.add_memory(POOL_ADDR + 0x1000, 200);
    let mut out = Vec::new();
    for size in [1usize, 40, 100, 16, 7, 64] {
        if let Some((addr, len)) = allocator.get_memory(size, 1) {
            out.push((addr, size, len));
        }
        let held: usize = out.iter().map(|b| b.2).sum();
        assert_eq!(free_total(&allocator) + held, added);
    }
    while let Some((addr, size, _)) = out.pop() {
        allocator.return_memory(addr, size, 1);
        let held: usize = out.iter().map(|b| b.2).sum();
        assert_eq!(free_total(&allocator) + held, added);
    }
    assert_eq!(free_total(&allocator), added);
}

#[test]
fn free_blocks_are_aligned_to_their_size() {
    let mut allocator = BuddyAllocator::<ORDERS>::new();
    allocator.add_memory(POOL_ADDR + 48, 700);
    let a = allocator.get_memory(20, 1).unwrap();
    let b = allocator.get_memory(3, 1).unwrap();
    allocator.return_memory(a.0, 20, 1);
    for order in 0..ORDERS {
        for addr in allocator.free_blocks(order) {
            assert_eq!(addr % (MIN_BLOCK_SIZE << order), 0);
        }
    }
    allocator.return_memory(b.0, 3, 1);
}

#[test]
fn allocate_then_release_restores_the_free_lists() {
    let mut allocator = BuddyAllocator::<ORDERS>::new();
    allocator.add_memory(POOL_ADDR, 512);
    allocator.get_memory(64, 1).unwrap();
    let before = snapshot(&allocator);
    for (size, align) in [(1usize, 1usize), (17, 1), (100, 8), (256, 1), (3, 32)] {
        let (addr, _) = allocator.get_memory(size, align).unwrap();
        assert_ne!(snapshot(&allocator), before);
        allocator.return_memory(addr, size, align);
        assert_eq!(snapshot(&allocator), before);
    }
}

#[test]
fn exhaustion_after_handing_out_everything() {
    let mut allocator = BuddyAllocator::<ORDERS>::new();
    let added = allocator.add_memory(POOL_ADDR, 384);
    assert_eq!(added, 384);
    assert_eq!(allocator.get_memory(256, 1), Some((POOL_ADDR, 256)));
    assert_eq!(allocator.get_memory(128, 1), Some((POOL_ADDR + 256, 128)));
    for size in [0usize, 1, 16, 64, 256] {
        assert_eq!(allocator.get_memory(size, 1), None);
    }
}

#[test]
fn single_block_remerges_whatever_the_release_order() {
    let orders: [&[usize]; 3] = [
        &[0, 1, 2, 3, 4, 5, 6, 7, 8, 9, 10, 11, 12, 13, 14, 15],
        &[15, 14, 13, 12, 11, 10, 9, 8, 7, 6, 5, 4, 3, 2, 1, 0],
        &[5, 12, 0, 9, 3, 14, 7, 1, 10, 15, 2, 8, 13, 6, 11, 4],
    ];
    for release in orders {
        let mut allocator = BuddyAllocator::<ORDERS>::new();
        allocator.add_memory(POOL_ADDR, 256);
        let mut blocks = Vec::new();
        for _ in 0..16 {
            blocks.push(allocator.get_memory(1, 1).unwrap().0);
        }
        for &i in release {
            allocator.return_memory(blocks[i], 1, 1);
        }
        for order in 0..ORDERS - 1 {
            assert!(allocator.free_blocks(order).is_empty());
        }
        assert_eq!(allocator.free_blocks(ORDERS - 1), vec![POOL_ADDR]);
    }
}

#[test]
fn split_then_release_the_other_half_first() {
    let mut allocator = BuddyAllocator::<ORDERS>::new();
    allocator.add_memory(POOL_ADDR, 256);
    // split down to order 0 while handing out the upper halves first
    let (a, _) = allocator.get_memory(128, 1).unwrap();
    let (b, _) = allocator.get_memory(128, 1).unwrap();
    assert_eq!((a, b), (POOL_ADDR, POOL_ADDR + 128));
    allocator.return_memory(b, 128, 1);
    let (c, _) = allocator.get_memory(16, 1).unwrap();
    assert_eq!(c, POOL_ADDR + 128);
    allocator.return_memory(a, 128, 1);
    allocator.return_memory(c, 16, 1);
    for order in 0..ORDERS - 1 {
        assert!(allocator.free_blocks(order).is_empty());
    }
    assert_eq!(allocator.free_blocks(ORDERS - 1), vec![POOL_ADDR]);
}

#[test]
fn thirty_two_minimum_blocks_from_512_bytes() {
    let mut allocator = BuddyAllocator::<ORDERS>::new();
    assert_eq!(allocator.add_memory(POOL_ADDR, 512), 512);
    assert_eq!(allocator.free_blocks(4).len(), 2);
    let mut blocks = Vec::new();
    for _ in 0..32 {
        let (addr, len) = allocator.get_memory(1, 1).unwrap();
        assert_eq!(len, 16);
        assert_eq!(addr % 16, 0);
        assert!(addr >= POOL_ADDR && addr + len <= POOL_ADDR + 512);
        blocks.push(addr);
    }
    let mut sorted = blocks.clone();
    sorted.sort();
    let expected: Vec<usize> = (0..32).map(|i| POOL_ADDR + 16 * i).collect();
    assert_eq!(sorted, expected);
    assert_eq!(allocator.get_memory(1, 1), None);

    // release in an interleaved order
    let mut release: Vec<usize> = blocks.iter().copied().step_by(2).collect();
    release.extend(blocks.iter().copied().skip(1).step_by(2).rev());
    for addr in release {
        allocator.return_memory(addr, 1, 1);
    }
    for order in 0..4 {
        assert!(allocator.free_blocks(order).is_empty());
    }
    let mut top = allocator.free_blocks(4);
    top.sort();
    assert_eq!(top, vec![POOL_ADDR, POOL_ADDR + 256]);
}

#[test]
fn largest_block_from_a_region_of_exactly_that_size() {
    let mut allocator = BuddyAllocator::<ORDERS>::new();
    let max = allocator.get_max_block_size();
    assert_eq!(allocator.add_memory(POOL_ADDR, max), max);
    assert_eq!(allocator.get_memory(max, 1), Some((POOL_ADDR, max)));
    assert_eq!(allocator.get_memory(max, 1), None);
}

#[test]
fn top_order_blocks_do_not_merge_further() {
    let mut allocator = BuddyAllocator::<ORDERS>::new();
    allocator.add_memory(POOL_ADDR, 512);
    let (a, _) = allocator.get_memory(256, 1).unwrap();
    let (b, _) = allocator.get_memory(256, 1).unwrap();
    allocator.return_memory(a, 256, 1);
    allocator.return_memory(b, 256, 1);
    assert_eq!(allocator.free_blocks(4).len(), 2);
}
