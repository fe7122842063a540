use burritos::allocator::{heap_page_range, page_start, HEAP_SIZE, HEAP_START, PAGE_SIZE};
use burritos::memory::{BootInfoFrameAllocator, MemoryRegion, FRAME_SIZE};

fn region(start: u64, end: u64, usable: bool) -> MemoryRegion {
    MemoryRegion { start, end, usable }
}

#[test]
fn page_start_rounds_down() {
    assert_eq!(PAGE_SIZE, 4096);
    assert_eq!(page_start(0), 0);
    assert_eq!(page_start(4095), 0);
    assert_eq!(page_start(4096), 4096);
    assert_eq!(page_start(0xdead_beaf_123), 0xdead_beaf_000);
}

#[test]
fn the_kernel_heap_lies_on_twenty_five_pages() {
    assert_eq!(HEAP_START, 0x4444_4444_0000);
    assert_eq!(HEAP_SIZE, 102_400);
    let (first, last) = heap_page_range(HEAP_START, HEAP_SIZE);
    assert_eq!(first, 0x4444_4444_0000);
    assert_eq!(last, 0x4444_4445_8000);
    assert_eq!((last - first) / PAGE_SIZE + 1, 25);
}

#[test]
fn a_heap_off_the_page_bounds_touches_both_ends() {
    assert_eq!(heap_page_range(0x1800, 0x1000), (0x1000, 0x2000));
    assert_eq!(heap_page_range(0x1000, 1), (0x1000, 0x1000));
    assert_eq!(heap_page_range(0x1fff, 2), (0x1000, 0x2000));
}

#[test]
fn frames_come_from_the_usable_regions_in_order() {
    assert_eq!(FRAME_SIZE, 4096);
    let map = vec![
        region(0x0000, 0x3000, true),
        region(0x3000, 0x5000, false),
        region(0x6000, 0x6000, true),
        region(0x8000, 0xa000, true),
    ];
    let mut frames = BootInfoFrameAllocator::init(map);
    let mut handed_out: Vec<u64> = Vec::new();
    while let Some(frame) = frames.allocate_frame() {
        handed_out.push(frame);
    }
    assert_eq!(handed_out, vec![0x0000, 0x1000, 0x2000, 0x8000, 0x9000]);
    assert_eq!(frames.allocate_frame(), None);
}

#[test]
fn a_region_that_ends_within_a_frame_gives_that_frame_too() {
    let mut frames = BootInfoFrameAllocator::init(vec![region(0x1000, 0x2001, true)]);
    assert_eq!(frames.allocate_frame(), Some(0x1000));
    assert_eq!(frames.allocate_frame(), Some(0x2000));
    assert_eq!(frames.allocate_frame(), None);
}

#[test]
fn a_map_without_usable_regions_gives_no_frame() {
    let mut frames = BootInfoFrameAllocator::init(vec![region(0, 0x10000, false)]);
    assert_eq!(frames.allocate_frame(), None);
    let mut empty = BootInfoFrameAllocator::init(Vec::new());
    assert_eq!(empty.allocate_frame(), None);
}
