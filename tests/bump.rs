use rallocator::{BumpAllocator, SearchMode};
use std::alloc::Layout;

fn is_aligned(addr: usize, align: usize) -> bool {
    addr % align == 0
}

fn alloc_layout(allocator: &mut BumpAllocator, layout: Layout) -> Option<usize> {
    allocator.allocate(layout.size(), layout.align())
}

fn write_bytes(allocator: &mut BumpAllocator, addr: usize, bytes: &[u8]) {
    for (i, b) in bytes.iter().enumerate() {
        allocator.write_byte(addr + i, *b);
    }
}

fn read_bytes(allocator: &BumpAllocator, addr: usize, n: usize) -> Vec<u8> {
    (0..n).map(|i| allocator.read_byte(addr + i)).collect()
}

fn write_u64(allocator: &mut BumpAllocator, addr: usize, v: u64) {
    write_bytes(allocator, addr, &v.to_le_bytes());
}

fn read_u64(allocator: &BumpAllocator, addr: usize) -> u64 {
    let b = read_bytes(allocator, addr, 8);
    u64::from_le_bytes([b[0], b[1], b[2], b[3], b[4], b[5], b[6], b[7]])
}

fn write_u16(allocator: &mut BumpAllocator, addr: usize, v: u16) {
    write_bytes(allocator, addr, &v.to_le_bytes());
}

fn read_u16(allocator: &BumpAllocator, addr: usize) -> u16 {
    let b = read_bytes(allocator, addr, 2);
    u16::from_le_bytes([b[0], b[1]])
}

fn write_u32(allocator: &mut BumpAllocator, addr: usize, v: u32) {
    write_bytes(allocator, addr, &v.to_le_bytes());
}

fn read_u32(allocator: &BumpAllocator, addr: usize) -> u32 {
    let b = read_bytes(allocator, addr, 4);
    u32::from_le_bytes([b[0], b[1], b[2], b[3]])
}

#[test]
fn basic_allocation_and_write_read() {
    let mut allocator = BumpAllocator::new();

    // Allocate a u64 and write to it
    let layout_u64 = Layout::new::<u64>();
    let ptr_u64 = alloc_layout(&mut allocator, layout_u64);
    assert!(ptr_u64.is_some());
    let ptr_u64 = ptr_u64.unwrap();

    write_u64(&mut allocator, ptr_u64, 0xDEADBEEFDEADBEEF);
    assert_eq!(read_u64(&allocator, ptr_u64), 0xDEADBEEFDEADBEEF);

    // Allocate an array of u16 and write a small pattern
    let count = 8usize;
    let layout_u16 = Layout::array::<u16>(count).unwrap();
    let ptr_u16 = alloc_layout(&mut allocator, layout_u16);
    assert!(ptr_u16.is_some());
    let ptr_u16 = ptr_u16.unwrap();

    for i in 0..count {
        write_u16(&mut allocator, ptr_u16 + 2 * i, (i as u16) + 1);
    }

    // Check that the original u64 wasn't corrupted
    assert_eq!(read_u64(&allocator, ptr_u64), 0xDEADBEEFDEADBEEF);

    for i in 0..count {
        assert_eq!((i as u16) + 1, read_u16(&allocator, ptr_u16 + 2 * i));
    }
}

#[test]
fn allocations_respect_layout_alignment() {
    let mut allocator = BumpAllocator::new();

    let layouts = [
        Layout::new::<u8>(),
        Layout::new::<u16>(),
        Layout::new::<u32>(),
        Layout::new::<u64>(),
        Layout::new::<u128>(),
        Layout::array::<u64>(4).unwrap(),
    ];

    for layout in layouts {
        let ptr = alloc_layout(&mut allocator, layout);
        assert!(ptr.is_some());
        let ptr = ptr.unwrap();

        assert!(
            is_aligned(ptr, layout.align()),
            "allocation must be {}-byte aligned, got {:#x}",
            layout.align(),
            ptr
        );
    }
}

#[test]
fn multiple_allocations_are_monotonic_and_distinct() {
    let mut allocator = BumpAllocator::new();

    let layouts = [
        Layout::array::<u8>(8).unwrap(),
        Layout::array::<u16>(16).unwrap(),
        Layout::array::<u64>(4).unwrap(),
        Layout::array::<u128>(2).unwrap(),
    ];

    let mut addrs = Vec::new();

    for layout in layouts {
        let ptr = alloc_layout(&mut allocator, layout);
        assert!(ptr.is_some());
        addrs.push(ptr.unwrap());
    }

    for w in addrs.windows(2) {
        assert!(w[1] >= w[0], "addresses should be monotonic, got {:#x} then {:#x}", w[0], w[1]);
    }
}

#[test]
fn deallocate_null_is_noop_and_deallocate_last_block_does_not_crash() {
    let mut allocator = BumpAllocator::new();

    // deallocating null should be a no-op
    allocator.deallocate(None);

    // Keep track of break before
    let brk_before = allocator.heap().boundary();

    // Single allocation
    let layout = Layout::new::<u64>();
    let ptr_u64 = alloc_layout(&mut allocator, layout);
    assert!(ptr_u64.is_some());
    let ptr_u64 = ptr_u64.unwrap();

    write_u64(&mut allocator, ptr_u64, 123);
    assert_eq!(read_u64(&allocator, ptr_u64), 123);

    // Deallocate that block (it should be the last block)
    allocator.deallocate(Some(ptr_u64));

    let brk_after = allocator.heap().boundary();

    assert!(brk_after <= brk_before, "program break should not increase after deallocation");
}

#[test]
fn large_block_allocation_and_integrity() {
    let mut allocator = BumpAllocator::new();

    let count = 4096usize;
    let layout = Layout::array::<u32>(count).unwrap();
    let ptr = alloc_layout(&mut allocator, layout);
    assert!(ptr.is_some());
    let ptr = ptr.unwrap();

    for i in 0..count {
        write_u32(&mut allocator, ptr + 4 * i, (i as u32) ^ 0xA5A5_A5A5);
    }

    for i in 0..count {
        let val = read_u32(&allocator, ptr + 4 * i);
        assert_eq!(val, (i as u32) ^ 0xA5A5_A5A5);
    }
}

#[test]
fn search_mode_default_is_first_fit() {
    let allocator = BumpAllocator::new();
    assert_eq!(allocator.search_mode(), SearchMode::FirstFit);
}

#[test]
fn with_search_mode_sets_mode_correctly() {
    let allocator_first = BumpAllocator::with_search_mode(SearchMode::FirstFit);
    let allocator_next = BumpAllocator::with_search_mode(SearchMode::NextFit);
    let allocator_best = BumpAllocator::with_search_mode(SearchMode::BestFit);

    assert_eq!(allocator_first.search_mode(), SearchMode::FirstFit);
    assert_eq!(allocator_next.search_mode(), SearchMode::NextFit);
    assert_eq!(allocator_best.search_mode(), SearchMode::BestFit);
}

#[test]
fn set_search_mode_changes_mode() {
    let mut allocator = BumpAllocator::new();
    assert_eq!(allocator.search_mode(), SearchMode::FirstFit);

    allocator.set_search_mode(SearchMode::BestFit);
    assert_eq!(allocator.search_mode(), SearchMode::BestFit);

    allocator.set_search_mode(SearchMode::NextFit);
    assert_eq!(allocator.search_mode(), SearchMode::NextFit);

    allocator.set_search_mode(SearchMode::FirstFit);
    assert_eq!(allocator.search_mode(), SearchMode::FirstFit);
}

/// Creates blocks with sizes [64, 128, 32, 256, 64] and marks those at
/// `free_indices` free.
fn setup_allocator_with_blocks(search_mode: SearchMode, free_indices: &[usize]) -> (BumpAllocator, Vec<usize>) {
    let mut allocator = BumpAllocator::with_search_mode(search_mode);
    let sizes = [64usize, 128, 32, 256, 64];
    let mut ptrs = Vec::new();

    for &size in &sizes {
        let layout = Layout::from_size_align(size, 8).unwrap();
        let ptr = alloc_layout(&mut allocator, layout);
        assert!(ptr.is_some());
        ptrs.push(ptr.unwrap());
    }

    for &idx in free_indices {
        let block = allocator.find_block(ptrs[idx]).unwrap();
        allocator.mark_block(block, true);
    }

    (allocator, ptrs)
}

#[test]
fn first_fit_returns_first_matching_block() {
    let (mut allocator, ptrs) = setup_allocator_with_blocks(SearchMode::FirstFit, &[1, 3]);

    let found = allocator.find_free_block(100);
    assert!(found.is_some());

    let expected_block = allocator.find_block(ptrs[1]);
    assert_eq!(found, expected_block);
    assert_eq!(allocator.block(found.unwrap()).size, 128);
}

#[test]
fn first_fit_returns_null_when_no_block_fits() {
    let (mut allocator, _ptrs) = setup_allocator_with_blocks(SearchMode::FirstFit, &[0, 2]);

    let found = allocator.find_free_block(100);
    assert!(found.is_none());
}

#[test]
fn best_fit_returns_smallest_adequate_block() {
    let (mut allocator, ptrs) = setup_allocator_with_blocks(SearchMode::BestFit, &[1, 3]);

    let found = allocator.find_free_block(100);
    assert!(found.is_some());

    let expected_block = allocator.find_block(ptrs[1]);
    assert_eq!(found, expected_block);
    assert_eq!(allocator.block(found.unwrap()).size, 128);
}

#[test]
fn best_fit_chooses_smaller_block_over_earlier_larger_block() {
    let (mut allocator, ptrs) = setup_allocator_with_blocks(SearchMode::BestFit, &[1, 3, 4]);

    let found = allocator.find_free_block(50);
    assert!(found.is_some());

    let expected_block = allocator.find_block(ptrs[4]);
    assert_eq!(found, expected_block);
    assert_eq!(allocator.block(found.unwrap()).size, 64);
}

#[test]
fn best_fit_returns_perfect_fit_immediately() {
    let (mut allocator, ptrs) = setup_allocator_with_blocks(SearchMode::BestFit, &[0, 1, 2, 3, 4]);

    let found = allocator.find_free_block(128);
    assert!(found.is_some());

    let expected_block = allocator.find_block(ptrs[1]);
    assert_eq!(found, expected_block);
    assert_eq!(allocator.block(found.unwrap()).size, 128);
}

#[test]
fn next_fit_starts_from_last_search_position() {
    let (mut allocator, ptrs) = setup_allocator_with_blocks(SearchMode::NextFit, &[0, 1, 4]);

    let found1 = allocator.find_free_block(50);
    assert!(found1.is_some());
    let block0 = allocator.find_block(ptrs[0]);
    assert_eq!(found1, block0);

    allocator.mark_block(found1.unwrap(), false);

    let found2 = allocator.find_free_block(50);
    assert!(found2.is_some());
    let block1 = allocator.find_block(ptrs[1]);
    assert_eq!(found2, block1);

    allocator.mark_block(found2.unwrap(), false);

    let found3 = allocator.find_free_block(50);
    assert!(found3.is_some());
    let block4 = allocator.find_block(ptrs[4]);
    assert_eq!(found3, block4);
}

#[test]
fn next_fit_wraps_around_to_beginning() {
    let (mut allocator, ptrs) = setup_allocator_with_blocks(SearchMode::NextFit, &[0, 4]);

    let found1 = allocator.find_free_block(50);
    assert!(found1.is_some());
    allocator.mark_block(found1.unwrap(), false);

    let found2 = allocator.find_free_block(50);
    assert!(found2.is_some());
    let block4 = allocator.find_block(ptrs[4]);
    assert_eq!(found2, block4);

    let block0 = allocator.find_block(ptrs[0]);
    allocator.mark_block(block0.unwrap(), true);
    allocator.mark_block(found2.unwrap(), false);

    let found3 = allocator.find_free_block(50);
    assert!(found3.is_some());
    assert_eq!(found3, block0);
}

#[test]
fn next_fit_returns_null_when_no_block_fits() {
    let (mut allocator, _ptrs) = setup_allocator_with_blocks(SearchMode::NextFit, &[2]);

    let found = allocator.find_free_block(100);
    assert!(found.is_none());
}

#[test]
fn all_modes_return_null_on_empty_allocator() {
    for mode in [SearchMode::FirstFit, SearchMode::NextFit, SearchMode::BestFit] {
        let mut allocator = BumpAllocator::with_search_mode(mode);

        let found = allocator.find_free_block(100);
        assert!(found.is_none(), "Mode {:?} should return null on empty allocator", mode);
    }
}

#[test]
fn all_modes_return_null_when_all_blocks_in_use() {
    for mode in [SearchMode::FirstFit, SearchMode::NextFit, SearchMode::BestFit] {
        let (mut allocator, _ptrs) = setup_allocator_with_blocks(mode, &[]);

        let found = allocator.find_free_block(32);
        assert!(found.is_none(), "Mode {:?} should return null when no blocks are free", mode);
    }
}
