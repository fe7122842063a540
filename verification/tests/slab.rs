use burritos::allocator::fixed_size::{list_index, FixedSizeAlloc, BLOCK_SIZES};
use burritos::allocator::layout::Layout;

fn layout(size: usize, align: usize) -> Layout {
    Layout::from_size_align(size, align).unwrap()
}

fn heap(start: usize, size: usize) -> FixedSizeAlloc {
    let mut heap = FixedSizeAlloc::new();
    heap.init(start, size);
    heap
}

#[test]
fn list_index_picks_the_smallest_class() {
    assert_eq!(BLOCK_SIZES, [8, 16, 32, 64, 128, 256, 512, 1024, 2048]);
    assert_eq!(list_index(&layout(0, 1)), Some(0));
    assert_eq!(list_index(&layout(8, 8)), Some(0));
    assert_eq!(list_index(&layout(9, 1)), Some(1));
    assert_eq!(list_index(&layout(32, 8)), Some(2));
    assert_eq!(list_index(&layout(33, 8)), Some(3));
    assert_eq!(list_index(&layout(4, 128)), Some(4));
    assert_eq!(list_index(&layout(2048, 8)), Some(8));
    assert_eq!(list_index(&layout(2049, 8)), None);
    assert_eq!(list_index(&layout(8, 4096)), None);
}

#[test]
fn list_index_grows_with_the_size() {
    let mut last = 0;
    for size in 0..=2048usize {
        let index = list_index(&layout(size, 8)).unwrap();
        assert!(last <= index);
        assert!(BLOCK_SIZES[index] >= size);
        last = index;
    }
}

#[test]
fn a_freed_block_goes_back_to_its_class() {
    let mut heap = heap(0x10000, 4096);
    let first = heap.allocate(layout(30, 2)).unwrap();
    assert_eq!(first % 32, 0);
    heap.dealloc(first, layout(30, 2));
    // another layout of the same class gets the block
    assert_eq!(heap.allocate(layout(17, 8)), Some(first));
    // and the list is empty again
    let next = heap.allocate(layout(32, 32)).unwrap();
    assert_ne!(next, first);
}

#[test]
fn freed_blocks_come_back_last_in_first_out() {
    let mut heap = heap(0x10000, 4096);
    let a = heap.allocate(layout(64, 8)).unwrap();
    let b = heap.allocate(layout(64, 8)).unwrap();
    heap.dealloc(a, layout(64, 8));
    heap.dealloc(b, layout(64, 8));
    assert_eq!(heap.allocate(layout(64, 8)), Some(b));
    assert_eq!(heap.allocate(layout(64, 8)), Some(a));
}

#[test]
fn a_block_of_a_class_never_returns_to_the_fallback() {
    let mut heap = heap(0x10000, 2048);
    let block = heap.allocate(layout(2048, 8)).unwrap();
    assert_eq!(heap.allocate(layout(8, 8)), None);
    heap.dealloc(block, layout(2048, 8));
    // the memory stays with the class of 2048 bytes
    assert_eq!(heap.allocate(layout(8, 8)), None);
    assert_eq!(heap.allocate(layout(1025, 1)), Some(block));
}

#[test]
fn a_large_block_goes_through_the_fallback() {
    let mut heap = heap(0x10000, 8192);
    let large = heap.allocate(layout(4096, 8)).unwrap();
    assert_eq!(heap.allocate(layout(4096, 8)), Some(large + 4096));
    assert_eq!(heap.allocate(layout(4096, 8)), None);
    heap.dealloc(large, layout(4096, 8));
    assert_eq!(heap.allocate(layout(4096, 8)), Some(large));
}

#[test]
fn slab_grows_by_provisioning() {
    let start = 0x4444_0000usize;
    let size = 100 * 1024;
    let mut heap = heap(start, size);
    let first = heap.allocate(layout(32, 8)).unwrap();
    heap.dealloc(first, layout(32, 8));
    let mut seen: Vec<usize> = Vec::new();
    for round in 0..1000 {
        let addr = heap.allocate(layout(32, 8)).unwrap();
        assert_eq!(addr % 32, 0);
        assert!(start <= addr && addr + 32 <= start + size);
        if round == 0 {
            assert_eq!(addr, first);
        }
        assert!(!seen.contains(&addr));
        seen.push(addr);
    }
    seen.sort();
    for pair in seen.windows(2) {
        assert!(pair[0] + 32 <= pair[1]);
    }
}

#[test]
fn slab_allocations_are_aligned_in_bounds_and_apart() {
    let mut heap = heap(0x10000, 16384);
    let requests = [(1usize, 1usize), (24, 8), (100, 64), (16, 16), (3000, 4), (8, 256), (2048, 8)];
    let mut blocks: Vec<(usize, usize)> = Vec::new();
    for (size, align) in requests {
        let addr = heap.allocate(layout(size, align)).unwrap();
        assert_eq!(addr % align, 0);
        assert!(0x10000 <= addr && addr + size <= 0x10000 + 16384);
        for &(other, other_size) in &blocks {
            assert!(addr + size <= other || other + other_size <= addr);
        }
        blocks.push((addr, size));
    }
}

#[test]
fn the_slab_runs_out_with_its_fallback() {
    let mut heap = heap(0x10000, 256);
    let mut count = 0;
    while let Some(addr) = heap.allocate(layout(64, 8)) {
        assert!(0x10000 <= addr && addr + 64 <= 0x10100);
        count += 1;
        assert!(count <= 4);
    }
    assert_eq!(count, 4);
    assert_eq!(heap.allocate(layout(8, 8)), None);
}

#[test]
fn a_slab_without_memory_has_no_room() {
    let mut heap = FixedSizeAlloc::new();
    assert_eq!(heap.allocate(layout(8, 8)), None);
    assert_eq!(heap.allocate(layout(4096, 8)), None);
}
