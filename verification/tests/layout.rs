use burritos::allocator::layout::{Layout, LayoutError};
use burritos::allocator::{align_up, checked_align_up};

#[test]
fn align_up_rounds_to_the_next_multiple() {
    assert_eq!(align_up(0, 8), 0);
    assert_eq!(align_up(1, 8), 8);
    assert_eq!(align_up(8, 8), 8);
    assert_eq!(align_up(9, 8), 16);
    assert_eq!(align_up(0x1001, 0x1000), 0x2000);
    assert_eq!(align_up(13, 1), 13);
}

#[test]
fn checked_align_up_fails_at_the_top_of_the_address_space() {
    assert_eq!(checked_align_up(usize::MAX, 1), Some(usize::MAX));
    assert_eq!(checked_align_up(usize::MAX - 6, 8), None);
    assert_eq!(checked_align_up(usize::MAX - 7, 8), Some(usize::MAX - 7));
    assert_eq!(checked_align_up(17, 16), Some(32));
}

#[test]
fn layout_keeps_size_and_alignment() {
    let layout = Layout::from_size_align(24, 8).unwrap();
    assert_eq!(layout.size(), 24);
    assert_eq!(layout.align(), 8);
}

#[test]
fn layout_refuses_an_alignment_that_is_no_power_of_two() {
    assert_eq!(Layout::from_size_align(8, 0), Err(LayoutError));
    assert_eq!(Layout::from_size_align(8, 3), Err(LayoutError));
    assert_eq!(Layout::from_size_align(8, 24), Err(LayoutError));
    assert!(Layout::from_size_align(8, 1).is_ok());
    assert!(Layout::from_size_align(0, 4096).is_ok());
}

#[test]
fn layout_refuses_a_size_that_does_not_fit_once_padded() {
    let max = isize::MAX as usize;
    assert!(Layout::from_size_align(max, 1).is_ok());
    assert_eq!(Layout::from_size_align(max + 1, 1), Err(LayoutError));
    assert!(Layout::from_size_align(max - 7, 8).is_ok());
    assert_eq!(Layout::from_size_align(max - 6, 8), Err(LayoutError));
}

#[test]
fn align_to_takes_the_larger_alignment() {
    let layout = Layout::from_size_align(10, 4).unwrap();
    assert_eq!(layout.align_to(16), Layout::from_size_align(10, 16));
    assert_eq!(layout.align_to(2), Layout::from_size_align(10, 4));
    let large = Layout::from_size_align(isize::MAX as usize - 1, 1).unwrap();
    assert_eq!(large.align_to(8), Err(LayoutError));
}

#[test]
fn pad_to_align_rounds_the_size_up() {
    let layout = Layout::from_size_align(10, 4).unwrap();
    assert_eq!(layout.pad_to_align(), Layout::from_size_align(12, 4).unwrap());
    let exact = Layout::from_size_align(16, 8).unwrap();
    assert_eq!(exact.pad_to_align(), exact);
}
