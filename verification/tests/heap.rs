use emul_4leaf::heap::{GuestHeap, align_heap_size, push_free_block};

const HEAP_BASE: u32 = 0x2000_0000;
const HEAP_SIZE: u32 = 0x0100_0000;

#[test]
fn heap_block_is_reused_after_free() {
    let mut heap = GuestHeap::new(HEAP_BASE, HEAP_SIZE);
    let first = heap.alloc_heap_block(16).unwrap();
    let second = heap.alloc_heap_block(32).unwrap();
    assert_eq!(first, HEAP_BASE);
    assert_eq!(second, first + 16);
    assert!(heap.free_heap_block(first));
    let reused = heap.alloc_heap_block(8).unwrap();
    assert_eq!(reused, first);
}

#[test]
fn adjacent_free_blocks_are_merged() {
    let mut heap = GuestHeap::new(HEAP_BASE, HEAP_SIZE);
    let first = heap.alloc_heap_block(16).unwrap();
    let second = heap.alloc_heap_block(16).unwrap();
    assert!(heap.free_heap_block(first));
    assert!(heap.free_heap_block(second));
    let merged = heap.alloc_heap_block(24).unwrap();
    assert_eq!(merged, first);
}

#[test]
fn heap_allocation_range_detects_untracked_writes() {
    let mut heap = GuestHeap::new(HEAP_BASE, HEAP_SIZE);
    let first = heap.alloc_heap_block(16).unwrap();
    assert_eq!(heap.heap_allocation_for_range(first as u64 + 4, 4), Some((first, 16)));
    assert_eq!(heap.heap_allocation_for_range(first as u64 + 15, 2), None);
}

#[test]
fn sizes_are_rounded_to_four_bytes() {
    assert_eq!(align_heap_size(0), Some(4));
    assert_eq!(align_heap_size(1), Some(4));
    assert_eq!(align_heap_size(4), Some(4));
    assert_eq!(align_heap_size(5), Some(8));
    assert_eq!(align_heap_size(u32::MAX as usize), None);
    assert_eq!(align_heap_size(u32::MAX as usize - 3), Some(u32::MAX - 3));
}

#[test]
fn freeing_twice_or_below_the_heap_fails() {
    let mut heap = GuestHeap::new(HEAP_BASE, HEAP_SIZE);
    let a = heap.alloc_heap_block(10).unwrap();
    assert_eq!(heap.heap_block_size(a), Some(12));
    assert!(!heap.free_heap_block(HEAP_BASE - 4));
    assert!(!heap.free_heap_block(a + 4));
    assert!(heap.free_heap_block(a));
    assert_eq!(heap.heap_block_size(a), None);
    assert!(!heap.free_heap_block(a));
}

#[test]
fn the_smallest_fitting_free_block_is_split() {
    let mut heap = GuestHeap::new(HEAP_BASE, HEAP_SIZE);
    let a = heap.alloc_heap_block(64).unwrap();
    let _guard1 = heap.alloc_heap_block(4).unwrap();
    let b = heap.alloc_heap_block(16).unwrap();
    let _guard2 = heap.alloc_heap_block(4).unwrap();
    assert!(heap.free_heap_block(a));
    assert!(heap.free_heap_block(b));
    // 12 bytes fit both holes; the 16-byte one is the smaller
    let c = heap.alloc_heap_block(12).unwrap();
    assert_eq!(c, b);
    // the rest of that hole is 4 bytes long
    let d = heap.alloc_heap_block(4).unwrap();
    assert_eq!(d, b + 12);
}

#[test]
fn allocation_fails_when_the_heap_is_full() {
    let mut heap = GuestHeap::new(HEAP_BASE, 32);
    assert_eq!(heap.alloc_heap_block(32), Some(HEAP_BASE));
    assert_eq!(heap.alloc_heap_block(1), None);
    let mut top = GuestHeap::new(u32::MAX - 7, 100);
    assert_eq!(top.alloc_heap_block(8), None);
}

#[test]
fn free_blocks_are_kept_sorted_and_merged() {
    let mut list: Vec<(u32, u32)> = Vec::new();
    push_free_block(&mut list, 100, 10);
    push_free_block(&mut list, 50, 10);
    push_free_block(&mut list, 60, 40);
    assert_eq!(list, vec![(50, 60)]);
    push_free_block(&mut list, 200, 0);
    assert_eq!(list, vec![(50, 60)]);
    push_free_block(&mut list, 120, 5);
    assert_eq!(list, vec![(50, 60), (120, 5)]);
}

#[test]
fn overlapping_block_is_merged() {
    let mut fl = vec![(0x100u32, 0x20u32), (0x200, 0x10)];
    push_free_block(&mut fl, 0x110, 0x40);
    assert_eq!(fl, vec![(0x100, 0x50), (0x200, 0x10)]);
    push_free_block(&mut fl, 0x140, 0xD0);
    assert_eq!(fl, vec![(0x100, 0x110)]);
    push_free_block(&mut fl, 0x120, 0);
    assert_eq!(fl, vec![(0x100, 0x110)]);
}
