use kernel_heap::util::{align_up, is_power_of_two};
use kernel_heap::{AllocErr, Allocator, Layout};

fn shape(size: usize, align: usize) -> Layout {
    Layout::from_size_align(size, align)
}

fn exhausted(size: usize, align: usize) -> Result<usize, AllocErr> {
    Err(AllocErr::Exhausted { request: shape(size, align) })
}

#[test]
fn reuse_then_exhaustion_in_small_arena() {
    let mut heap = Allocator::new(0x1000, 0x1000 + 64);
    assert_eq!(heap.allocate(shape(16, 8)), Ok(0x1000));
    assert_eq!(heap.allocate(shape(16, 16)), Ok(0x1010));
    heap.dealloc(0x1000, shape(16, 8));
    assert_eq!(heap.allocate(shape(16, 8)), Ok(0x1000));
    assert_eq!(heap.allocate(shape(40, 8)), exhausted(40, 8));
}

#[test]
fn every_block_is_aligned() {
    let mut heap = Allocator::new(0x1001, 0x9000);
    for &align in &[1usize, 2, 4, 8, 16, 64, 256, 4096] {
        for &size in &[1usize, 3, 17, 100] {
            let a = heap.allocate(shape(size, align)).unwrap();
            assert_eq!(a % align, 0);
        }
    }
}

#[test]
fn blocks_fit_and_do_not_overlap() {
    let end = 0x2000 + 300;
    let mut heap = Allocator::new(0x2000, end);
    let mut live: Vec<(usize, usize)> = Vec::new();
    let shapes = [(5usize, 1usize), (24, 8), (7, 4), (64, 32), (1, 1), (33, 16)];
    for &(size, align) in shapes.iter() {
        if let Ok(a) = heap.allocate(shape(size, align)) {
            assert!(a + size <= end);
            for &(b, n) in live.iter() {
                assert!(a + size <= b || b + n <= a);
            }
            live.push((a, size));
        }
    }
    assert_eq!(live.len(), shapes.len());
}

#[test]
fn huge_request_does_not_wrap() {
    let start = usize::MAX - 64;
    let mut heap = Allocator::new(start, usize::MAX);
    assert_eq!(heap.allocate(shape(usize::MAX - 8, 1)), exhausted(usize::MAX - 8, 1));
    assert_eq!(heap.allocate(shape(128, 1)), exhausted(128, 1));
    assert_eq!(heap.allocate(shape(8, 1 << 20)), exhausted(8, 1 << 20));
    assert_eq!(heap.cursor(), start);
    assert_eq!(heap.allocate(shape(64, 1)), Ok(start));
}

#[test]
fn last_released_is_first_reused() {
    let mut heap = Allocator::new(0x4000, 0x5000);
    let a = heap.allocate(shape(32, 8)).unwrap();
    let b = heap.allocate(shape(32, 8)).unwrap();
    assert_ne!(a, b);
    heap.dealloc(a, shape(32, 8));
    heap.dealloc(b, shape(32, 8));
    assert_eq!(heap.allocate(shape(32, 8)), Ok(b));
    assert_eq!(heap.allocate(shape(32, 8)), Ok(a));
    assert_eq!(heap.allocate(shape(32, 8)), Ok(0x4040));
}

#[test]
fn cursor_counts_carved_bytes_once() {
    let mut heap = Allocator::new(0x1001, 0x2000);
    assert_eq!(heap.cursor(), 0x1001);
    assert_eq!(heap.allocate(shape(8, 8)), Ok(0x1008));
    assert_eq!(heap.cursor(), 0x1010);
    assert_eq!(heap.allocate(shape(3, 1)), Ok(0x1010));
    assert_eq!(heap.cursor(), 0x1013);
    heap.dealloc(0x1008, shape(8, 8));
    assert_eq!(heap.cursor(), 0x1013);
    assert_eq!(heap.allocate(shape(8, 8)), Ok(0x1008));
    assert_eq!(heap.cursor(), 0x1013);
    assert_eq!(heap.allocate(shape(4, 4)), Ok(0x1014));
    assert_eq!(heap.cursor(), 0x1018);
}

#[test]
fn whole_arena_once_then_nothing() {
    let mut heap = Allocator::new(0x3000, 0x3000 + 24);
    assert_eq!(heap.allocate(shape(24, 1)), Ok(0x3000));
    assert_eq!(heap.allocate(shape(1, 1)), exhausted(1, 1));
    assert_eq!(heap.allocate(shape(24, 1)), exhausted(24, 1));
}

#[test]
fn empty_arena_is_exhausted() {
    let mut heap = Allocator::new(0x3000, 0x3000);
    assert_eq!(heap.allocate(shape(1, 1)), exhausted(1, 1));
}

#[test]
fn bad_shapes_are_unsupported() {
    let mut heap = Allocator::new(0x1000, 0x2000);
    for &(size, align) in &[(0usize, 8usize), (8, 0), (8, 3), (8, 12)] {
        assert_eq!(
            heap.allocate(shape(size, align)),
            Err(AllocErr::Unsupported { request: shape(size, align) })
        );
    }
    assert_eq!(heap.cursor(), 0x1000);
}

#[test]
fn classes_are_kept_apart() {
    let mut heap = Allocator::new(0x1000, 0x2000);
    let small = heap.allocate(shape(16, 8)).unwrap();
    heap.dealloc(small, shape(16, 8));
    assert_eq!(heap.allocate(shape(32, 8)), Ok(0x1010));
    assert_eq!(heap.allocate(shape(16, 16)), Ok(0x1030));
    assert_eq!(heap.allocate(shape(10, 8)), Ok(small));
}

#[test]
fn class_size_is_rounded_to_alignment() {
    let mut heap = Allocator::new(0x1000, 0x2000);
    assert_eq!(heap.allocate(shape(10, 8)), Ok(0x1000));
    assert_eq!(heap.cursor(), 0x1010);
}

#[test]
fn align_up_rounds_by_mask() {
    assert_eq!(align_up(0x1001, 8), Some(0x1008));
    assert_eq!(align_up(0x1000, 8), Some(0x1000));
    assert_eq!(align_up(0, 4096), Some(0));
    assert_eq!(align_up(7, 1), Some(7));
    assert_eq!(align_up(usize::MAX - 7, 8), Some(usize::MAX - 7));
    assert_eq!(align_up(usize::MAX - 6, 8), None);
    assert_eq!(align_up(usize::MAX, 2), None);
}

#[test]
fn powers_of_two_are_recognised() {
    assert!(is_power_of_two(1));
    assert!(is_power_of_two(64));
    assert!(is_power_of_two(1 << 63));
    assert!(!is_power_of_two(0));
    assert!(!is_power_of_two(6));
    assert!(!is_power_of_two(usize::MAX));
}
