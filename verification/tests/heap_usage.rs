//! End-to-end use of the free-list allocator over a simulated heap
//! window: values written into the managed blocks read back correctly
//! through single allocations, a growable sequence, and a
//! reference-counted handle built above the allocator.

use rust_os_playground::allocator::linked_list::LinkedListAllocator;
use rust_os_playground::allocator::HEAP_SIZE;

const START: usize = 0x10000;

fn write_u64(arena: &mut [u8], addr: usize, value: u64) {
    let off = addr - START;
    arena[off..off + 8].copy_from_slice(&value.to_le_bytes());
}

fn read_u64(arena: &[u8], addr: usize) -> u64 {
    let off = addr - START;
    let mut bytes = [0u8; 8];
    bytes.copy_from_slice(&arena[off..off + 8]);
    u64::from_le_bytes(bytes)
}

#[test]
fn single_value_reads_back() {
    let mut heap = LinkedListAllocator::new();
    heap.init(START, HEAP_SIZE);
    let mut arena = vec![0u8; HEAP_SIZE];

    let p = heap.allocate(8, 8);
    assert!(p != 0);
    write_u64(&mut arena, p, 41);
    assert_eq!(read_u64(&arena, p), 41);
}

#[test]
fn growable_sequence_of_five_hundred_values() {
    let mut heap = LinkedListAllocator::new();
    heap.init(START, HEAP_SIZE);
    let mut arena = vec![0u8; HEAP_SIZE];

    // A growable sequence over the allocator: a block of capacity * 8
    // bytes, doubled when full, the old block freed with its original
    // request.
    let mut cap: usize = 4;
    let mut len: usize = 0;
    let mut buf = heap.allocate(cap * 8, 8);
    assert!(buf != 0);

    for i in 0..500u64 {
        if len == cap {
            let bigger = heap.allocate(cap * 2 * 8, 8);
            assert!(bigger != 0);
            for k in 0..len {
                let v = read_u64(&arena, buf + k * 8);
                write_u64(&mut arena, bigger + k * 8, v);
            }
            heap.deallocate(buf, cap * 8, 8);
            buf = bigger;
            cap = cap * 2;
        }
        write_u64(&mut arena, buf + len * 8, i);
        len = len + 1;
    }

    assert_eq!(len, 500);
    for i in 0..500u64 {
        assert_eq!(read_u64(&arena, buf + (i as usize) * 8), i);
    }
}

#[test]
fn reference_counted_handle_above_the_allocator() {
    let mut heap = LinkedListAllocator::new();
    heap.init(START, HEAP_SIZE);
    let mut arena = vec![0u8; HEAP_SIZE];

    // A shared-ownership handle: one block holding a reference count
    // followed by a three-element sequence. Counting lives entirely
    // above the allocator and does not disturb it.
    let block = heap.allocate(32, 8);
    assert!(block != 0);
    write_u64(&mut arena, block, 1); // reference count
    write_u64(&mut arena, block + 8, 7);
    write_u64(&mut arena, block + 16, 8);
    write_u64(&mut arena, block + 24, 9);

    // Duplicate the handle: the count becomes 2.
    let count = read_u64(&arena, block);
    write_u64(&mut arena, block, count + 1);
    assert_eq!(read_u64(&arena, block), 2);

    // Release one copy: the count returns to 1; the contents stand.
    let count = read_u64(&arena, block);
    write_u64(&mut arena, block, count - 1);
    assert_eq!(read_u64(&arena, block), 1);
    assert_eq!(read_u64(&arena, block + 8), 7);
    assert_eq!(read_u64(&arena, block + 16), 8);
    assert_eq!(read_u64(&arena, block + 24), 9);

    // The last release frees the block as an ordinary deallocation.
    heap.deallocate(block, 32, 8);
    let again = heap.allocate(32, 8);
    assert_eq!(again, block);
}
