//! Free-list allocator: first-fit search, eager splitting, reuse of
//! freed blocks, clean failure, and the no-leak steady state.

use rust_os_playground::allocator::linked_list::LinkedListAllocator;
use rust_os_playground::allocator::linked_list::ListNode;
use rust_os_playground::allocator::linked_list::NODE_SIZE;

const START: usize = 0x1000;

#[test]
fn size_align_pads_requests_to_node_footprint() {
    // A tiny request grows to one node's footprint.
    assert_eq!(LinkedListAllocator::size_align(1, 1), (NODE_SIZE, 8));
    assert_eq!(LinkedListAllocator::size_align(8, 8), (NODE_SIZE, 8));
    // A large enough request is padded to a multiple of its alignment.
    assert_eq!(LinkedListAllocator::size_align(100, 8), (104, 8));
    assert_eq!(LinkedListAllocator::size_align(100, 64), (128, 64));
    // An alignment above the node's is kept.
    assert_eq!(LinkedListAllocator::size_align(4096, 4096), (4096, 4096));
}

#[test]
fn alloc_from_region_first_fit_policy() {
    // Fits exactly.
    let exact = ListNode::new(START, 32);
    assert_eq!(LinkedListAllocator::alloc_from_region(&exact, 32, 8), Ok(START));
    // Fits with a tail big enough for a node.
    let roomy = ListNode::new(START, 64);
    assert_eq!(LinkedListAllocator::alloc_from_region(&roomy, 32, 8), Ok(START));
    // Too small.
    let small = ListNode::new(START, 16);
    assert_eq!(LinkedListAllocator::alloc_from_region(&small, 32, 8), Err(()));
    // The leftover tail would be smaller than a node: rejected.
    let awkward = ListNode::new(START, 40);
    assert_eq!(LinkedListAllocator::alloc_from_region(&awkward, 32, 8), Err(()));
}

#[test]
fn allocate_and_read_back_the_block_bounds() {
    let mut a = LinkedListAllocator::new();
    a.init(START, 1024);
    assert_eq!(a.free_region_count(), 1);

    let p = a.allocate(100, 8);
    assert_eq!(p, START);
    // The region was split eagerly: the tail is back on the list.
    assert_eq!(a.free_region_count(), 1);

    let q = a.allocate(100, 8);
    assert_eq!(q, START + 104); // 100 rounded up to the next multiple of 8
    assert!(p + 100 <= q);
}

#[test]
fn freed_block_is_reused_for_an_identical_request() {
    let mut a = LinkedListAllocator::new();
    a.init(START, 1024);

    let p = a.allocate(64, 8);
    assert!(p != 0);
    a.deallocate(p, 64, 8);

    // An identical request succeeds and returns the same address: the
    // freed block sits at the head of the list and fits exactly.
    let q = a.allocate(64, 8);
    assert_eq!(q, p);
}

#[test]
fn oversized_request_fails_cleanly_and_state_survives() {
    let mut a = LinkedListAllocator::new();
    a.init(START, 1024);

    let p = a.allocate(2048, 8);
    assert_eq!(p, 0);
    assert_eq!(a.free_region_count(), 1);

    // Subsequent smaller requests are unaffected.
    let q = a.allocate(100, 8);
    assert_eq!(q, START);
}

#[test]
fn high_alignment_requests_are_honored() {
    let mut a = LinkedListAllocator::new();
    a.init(START, 16384);
    let p = a.allocate(100, 4096);
    assert!(p != 0);
    assert_eq!(p % 4096, 0);
}

#[test]
fn repeated_cycles_never_fail_and_leak_no_nodes() {
    // A heap sized for exactly two adjusted blocks of 16 bytes.
    let mut a = LinkedListAllocator::new();
    a.init(START, 2 * NODE_SIZE);

    // One warm-up cycle brings the list to its steady state.
    let p = a.allocate(NODE_SIZE, 8);
    assert!(p != 0);
    a.deallocate(p, NODE_SIZE, 8);
    let steady = a.free_region_count();

    for _ in 0..10000 {
        let q = a.allocate(NODE_SIZE, 8);
        assert!(q != 0);
        a.deallocate(q, NODE_SIZE, 8);
        // The free list returns to its starting length after every
        // cycle: no node leaks, none is gained.
        assert_eq!(a.free_region_count(), steady);
    }
}

#[test]
fn lifo_insertion_and_first_fit_interact_as_documented() {
    let mut a = LinkedListAllocator::new();
    a.init(START, 1024);

    // Carve three blocks, then free the middle one and the first one:
    // freed blocks go to the head of the list, most recent first.
    let p1 = a.allocate(64, 8);
    let p2 = a.allocate(64, 8);
    let p3 = a.allocate(64, 8);
    assert!(p1 != 0 && p2 != 0 && p3 != 0);
    a.deallocate(p2, 64, 8);
    a.deallocate(p1, 64, 8);

    // First fit now finds p1's block first.
    let q = a.allocate(64, 8);
    assert_eq!(q, p1);
    let r = a.allocate(64, 8);
    assert_eq!(r, p2);
}

#[test]
fn add_free_region_grows_the_list_at_the_head() {
    let mut a = LinkedListAllocator::new();
    a.init(START, 64);
    assert_eq!(a.free_region_count(), 1);
    // A second, disjoint region joins the list (no merging happens).
    a.add_free_region(START + 4096, 64);
    assert_eq!(a.free_region_count(), 2);
    // First fit takes the most recently added region first.
    let p = a.allocate(64, 8);
    assert_eq!(p, START + 4096);
}

#[test]
fn uninitialized_allocator_has_nothing_to_give() {
    let mut a = LinkedListAllocator::new();
    assert_eq!(a.free_region_count(), 0);
    assert_eq!(a.allocate(8, 8), 0);
    assert_eq!(a.free_region_count(), 0);
}

#[test]
fn near_maximal_request_fails_cleanly() {
    let mut a = LinkedListAllocator::new();
    a.init(START, 1024);
    let p = a.allocate(usize::MAX - 1024, 8);
    assert_eq!(p, 0);
    assert_eq!(a.free_region_count(), 1);
    assert!(a.allocate(8, 1) != 0);
}

#[test]
fn coalescing_restores_one_region_from_many() {
    let mut a = LinkedListAllocator::new();
    a.init(START, 1024);

    let p1 = a.allocate(256, 8);
    let p2 = a.allocate(256, 8);
    let p3 = a.allocate(256, 8);
    assert_eq!((p1, p2, p3), (START, START + 256, START + 512));

    // No free region touches p1 yet: the freed block stands alone.
    a.deallocate_coalescing(p1, 256, 8);
    assert_eq!(a.free_region_count(), 2);
    // p3 is adjacent to the heap's tail region: the two merge.
    a.deallocate_coalescing(p3, 256, 8);
    assert_eq!(a.free_region_count(), 2);
    // p2 touches free regions on both sides: all three merge into one.
    a.deallocate_coalescing(p2, 256, 8);
    assert_eq!(a.free_region_count(), 1);

    // The whole heap is one region again, so a whole-heap request
    // succeeds.
    let whole = a.allocate(1024, 8);
    assert_eq!(whole, START);
}

#[test]
fn plain_deallocation_fragments_where_coalescing_would_not() {
    let mut a = LinkedListAllocator::new();
    a.init(START, 1024);

    let p1 = a.allocate(256, 8);
    let p2 = a.allocate(256, 8);
    let p3 = a.allocate(256, 8);
    a.deallocate(p1, 256, 8);
    a.deallocate(p3, 256, 8);
    a.deallocate(p2, 256, 8);

    // All memory is free, but cut into four unmergeable pieces: the
    // whole-heap request fails while a piece-sized one succeeds.
    assert_eq!(a.free_region_count(), 4);
    assert_eq!(a.allocate(1024, 8), 0);
    assert!(a.allocate(256, 8) != 0);
}
