use burritos::allocator::layout::Layout;
use burritos::allocator::linked_list::{LinkedListAlloc, Node, NODE_ALIGN, NODE_SIZE};

fn layout(size: usize, align: usize) -> Layout {
    Layout::from_size_align(size, align).unwrap()
}

fn heap(start: usize, size: usize) -> LinkedListAlloc {
    let mut heap = LinkedListAlloc::new();
    heap.init(start, size);
    heap
}

#[test]
fn node_knows_its_bounds() {
    let node = Node::new(0x1000, 0x40);
    assert_eq!(node.start_addr(), 0x1000);
    assert_eq!(node.end_addr(), 0x1040);
}

#[test]
fn size_align_makes_room_for_a_node() {
    assert_eq!((NODE_SIZE, NODE_ALIGN), (16, 8));
    assert_eq!(LinkedListAlloc::size_align(layout(1, 1)), (16, 8));
    assert_eq!(LinkedListAlloc::size_align(layout(17, 1)), (24, 8));
    assert_eq!(LinkedListAlloc::size_align(layout(64, 8)), (64, 8));
    assert_eq!(LinkedListAlloc::size_align(layout(40, 32)), (64, 32));
    assert_eq!(LinkedListAlloc::size_align(layout(0, 4)), (16, 8));
}

#[test]
fn alloc_from_region_applies_the_leftover_rule() {
    let region = Node::new(0x1000, 64);
    assert_eq!(LinkedListAlloc::alloc_from_region(&region, 64, 8), Some(0x1000));
    assert_eq!(LinkedListAlloc::alloc_from_region(&region, 48, 8), Some(0x1000));
    // eight bytes would be left: too few for a node
    assert_eq!(LinkedListAlloc::alloc_from_region(&region, 56, 8), None);
    assert_eq!(LinkedListAlloc::alloc_from_region(&region, 72, 8), None);
    let unaligned = Node::new(0x1008, 72);
    assert_eq!(LinkedListAlloc::alloc_from_region(&unaligned, 32, 32), Some(0x1020));
    assert_eq!(LinkedListAlloc::alloc_from_region(&unaligned, 48, 32), Some(0x1020));
    assert_eq!(LinkedListAlloc::alloc_from_region(&unaligned, 40, 32), None);
    assert_eq!(LinkedListAlloc::alloc_from_region(&unaligned, 56, 32), None);
}

#[test]
fn alloc_from_region_treats_overflow_as_no_fit() {
    let top = Node::new(usize::MAX - 63, 63);
    assert_eq!(LinkedListAlloc::alloc_from_region(&top, 16, 128), None);
    assert_eq!(LinkedListAlloc::alloc_from_region(&top, 128, 8), None);
}

#[test]
fn find_region_takes_the_first_that_fits() {
    let mut heap = LinkedListAlloc::new();
    heap.add_free_region(0x3000, 256);
    heap.add_free_region(0x2000, 32);
    heap.add_free_region(0x1000, 16);
    // list order: 0x1000 (16), 0x2000 (32), 0x3000 (256)
    assert_eq!(heap.find_region(32, 8), Some((Node::new(0x2000, 32), 0x2000)));
    assert_eq!(heap.find_region(32, 8), Some((Node::new(0x3000, 256), 0x3000)));
    assert_eq!(heap.find_region(32, 8), None);
    assert_eq!(heap.find_region(16, 8), Some((Node::new(0x1000, 16), 0x1000)));
    assert_eq!(heap.find_region(16, 8), None);
}

#[test]
fn allocations_are_aligned_in_bounds_and_apart() {
    let mut heap = heap(0x1000, 4096);
    let requests = [(1usize, 1usize), (24, 8), (100, 64), (16, 16), (300, 4), (8, 256)];
    let mut blocks: Vec<(usize, usize)> = Vec::new();
    for (size, align) in requests {
        let addr = heap.allocate(layout(size, align)).unwrap();
        assert_eq!(addr % align, 0);
        assert!(0x1000 <= addr && addr + size <= 0x2000);
        for &(other, other_size) in &blocks {
            assert!(addr + size <= other || other + other_size <= addr);
        }
        blocks.push((addr, size));
    }
}

#[test]
fn a_freed_block_is_used_again() {
    let mut heap = heap(0x1000, 256);
    let first = heap.allocate(layout(64, 8)).unwrap();
    heap.dealloc(first, layout(64, 8));
    assert_eq!(heap.allocate(layout(48, 8)), Some(first));
}

#[test]
fn a_leftover_too_small_for_a_node_is_not_cut_off() {
    let mut heap = heap(0x1000, 24);
    // sixteen bytes would leave eight behind
    assert_eq!(heap.allocate(layout(16, 8)), None);
    assert_eq!(heap.allocate(layout(24, 8)), Some(0x1000));
}

#[test]
fn first_fit_lands_in_the_freed_hole() {
    let mut heap = heap(0x1000, 4096);
    let a = heap.allocate(layout(64, 8)).unwrap();
    let b = heap.allocate(layout(64, 8)).unwrap();
    let c = heap.allocate(layout(64, 8)).unwrap();
    assert_eq!((a, b, c), (0x1000, 0x1040, 0x1080));
    heap.dealloc(b, layout(64, 8));
    let d = heap.allocate(layout(32, 8)).unwrap();
    assert!(b <= d && d + 32 <= b + 64);
    assert_eq!(d, 0x1040);
}

#[test]
fn the_free_list_runs_out() {
    let mut heap = heap(0x1000, 128);
    let mut count = 0;
    while let Some(addr) = heap.allocate(layout(32, 8)) {
        assert!(0x1000 <= addr && addr + 32 <= 0x1080);
        count += 1;
        assert!(count <= 4);
    }
    assert_eq!(count, 4);
    assert_eq!(heap.allocate(layout(1, 1)), None);
}

#[test]
fn neighbours_are_not_merged() {
    let mut heap = heap(0x1000, 128);
    let a = heap.allocate(layout(64, 8)).unwrap();
    let b = heap.allocate(layout(64, 8)).unwrap();
    heap.dealloc(a, layout(64, 8));
    heap.dealloc(b, layout(64, 8));
    assert_eq!(heap.allocate(layout(128, 8)), None);
    assert_eq!(heap.allocate(layout(64, 8)), Some(b));
}

#[test]
fn a_heap_without_memory_has_no_room() {
    let mut heap = LinkedListAlloc::new();
    assert_eq!(heap.allocate(layout(1, 1)), None);
}
