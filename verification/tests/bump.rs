use burritos::allocator::bump::BumpAlloc;
use burritos::allocator::layout::Layout;

fn layout(size: usize, align: usize) -> Layout {
    Layout::from_size_align(size, align).unwrap()
}

#[test]
fn bump_hands_out_aligned_blocks_in_order() {
    let mut heap = BumpAlloc::new();
    heap.init(0x1000, 4096);
    assert_eq!(heap.allocate(layout(3, 1)), Some(0x1000));
    assert_eq!(heap.allocate(layout(8, 8)), Some(0x1008));
    assert_eq!(heap.allocate(layout(1, 64)), Some(0x1040));
    assert_eq!(heap.allocations(), 3);
}

#[test]
fn bump_fails_when_the_heap_is_full() {
    let mut heap = BumpAlloc::new();
    heap.init(0x1000, 128);
    assert_eq!(heap.allocate(layout(64, 8)), Some(0x1000));
    assert_eq!(heap.allocate(layout(64, 8)), Some(0x1040));
    assert_eq!(heap.allocate(layout(1, 1)), None);
    assert_eq!(heap.allocate(layout(64, 8)), None);
    assert_eq!(heap.allocations(), 2);
}

#[test]
fn bump_without_heap_has_no_room() {
    let mut heap = BumpAlloc::new();
    assert_eq!(heap.allocate(layout(1, 1)), None);
}

#[test]
fn bump_treats_overflow_as_failure() {
    let mut heap = BumpAlloc::new();
    heap.init(usize::MAX - 31, 31);
    assert_eq!(heap.allocate(layout(8, 64)), None);
    assert_eq!(heap.allocate(layout(32, 1)), None);
    assert_eq!(heap.allocate(layout(31, 1)), Some(usize::MAX - 31));
}

#[test]
fn bump_reclaims_everything_with_the_last_release() {
    let mut heap = BumpAlloc::new();
    heap.init(0x2000, 1024);
    let a = heap.allocate(layout(100, 4)).unwrap();
    let b = heap.allocate(layout(200, 8)).unwrap();
    let c = heap.allocate(layout(300, 16)).unwrap();
    heap.dealloc(b, layout(200, 8));
    // an earlier release frees nothing by itself
    assert_eq!(heap.allocate(layout(600, 1)), None);
    heap.dealloc(c, layout(300, 16));
    heap.dealloc(a, layout(100, 4));
    assert_eq!(heap.allocations(), 0);
    assert_eq!(heap.allocate(layout(600, 1)), Some(0x2000));
}
