//! Bump allocator: monotonic allocation, whole-heap reclamation only
//! when the last outstanding block is freed, clean failure.

use rust_os_playground::allocator::bump::BumpAllocator;

const START: usize = 0x1000;
const SIZE: usize = 1024;

fn fresh_heap() -> BumpAllocator {
    let mut a = BumpAllocator::new();
    a.init(START, SIZE);
    a
}

#[test]
fn init_sets_the_window() {
    let a = fresh_heap();
    assert_eq!(a.heap_start_addr(), START);
    assert_eq!(a.heap_end_addr(), START + SIZE);
    assert_eq!(a.next_addr(), START);
    assert_eq!(a.allocation_count(), 0);
}

#[test]
fn allocation_advances_next_and_respects_alignment() {
    let mut a = fresh_heap();
    let p1 = a.allocate(100, 8);
    assert_eq!(p1, START);
    assert_eq!(a.next_addr(), START + 100);
    let p2 = a.allocate(50, 8);
    assert_eq!(p2, START + 104); // 0x1064 rounded up to the next multiple of 8
    assert_eq!(a.next_addr(), START + 154);
    assert_eq!(a.allocation_count(), 2);
}

#[test]
fn outstanding_allocations_do_not_overlap() {
    let mut a = fresh_heap();
    let p1 = a.allocate(100, 8);
    let p2 = a.allocate(200, 16);
    let p3 = a.allocate(10, 4);
    assert!(p1 + 100 <= p2);
    assert!(p2 + 200 <= p3);
}

#[test]
fn freed_space_unusable_until_every_block_is_freed() {
    let mut a = fresh_heap();
    let p1 = a.allocate(100, 8);
    let p2 = a.allocate(100, 8);
    let p3 = a.allocate(100, 8);
    let next_after_three = a.next_addr();

    // Freeing all blocks but one reclaims nothing: `next` stands still.
    a.deallocate(p1, 100);
    assert_eq!(a.next_addr(), next_after_three);
    assert_eq!(a.allocation_count(), 2);
    a.deallocate(p2, 100);
    assert_eq!(a.next_addr(), next_after_three);
    assert_eq!(a.allocation_count(), 1);

    // Freeing the last one resets `next` to the start of the heap.
    a.deallocate(p3, 100);
    assert_eq!(a.allocation_count(), 0);
    assert_eq!(a.next_addr(), START);

    // The whole window is reusable again.
    let p4 = a.allocate(100, 8);
    assert_eq!(p4, START);
}

#[test]
fn oversized_request_fails_cleanly() {
    let mut a = fresh_heap();
    let p1 = a.allocate(100, 8);
    assert!(p1 != 0);
    let next_before = a.next_addr();

    // More than the remaining capacity: the sentinel comes back and
    // nothing moves.
    let p2 = a.allocate(SIZE, 8);
    assert_eq!(p2, 0);
    assert_eq!(a.next_addr(), next_before);
    assert_eq!(a.allocation_count(), 1);

    // A smaller request still succeeds afterwards.
    let p3 = a.allocate(100, 8);
    assert!(p3 != 0);
}

#[test]
fn exact_fit_fills_the_heap() {
    let mut a = fresh_heap();
    let p = a.allocate(SIZE, 8);
    assert_eq!(p, START);
    assert_eq!(a.next_addr(), START + SIZE);
    assert_eq!(a.allocate(1, 1), 0);
}

#[test]
fn uninitialized_allocator_fails_cleanly() {
    let mut a = BumpAllocator::new();
    assert_eq!(a.allocate(8, 8), 0);
    assert_eq!(a.allocation_count(), 0);
}

#[test]
fn smallest_request_with_unit_alignment() {
    let mut a = fresh_heap();
    let p = a.allocate(1, 1);
    assert_eq!(p, START);
    let q = a.allocate(1, 1);
    assert_eq!(q, START + 1);
}
