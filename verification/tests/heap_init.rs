//! The heap initializer's page plan: which pages get mapped, and in
//! which order, before the allocator receives the window.

use rust_os_playground::allocator::heap_pages;
use rust_os_playground::allocator::page_range;
use rust_os_playground::allocator::HEAP_SIZE;
use rust_os_playground::allocator::HEAP_START;
use rust_os_playground::allocator::PAGE_SIZE;

#[test]
fn heap_window_takes_twenty_five_pages() {
    let pages = heap_pages();
    assert_eq!(pages.len(), 25);
    assert_eq!(pages[0], HEAP_START);
    assert_eq!(pages[24], HEAP_START + 24 * PAGE_SIZE);
    for (k, p) in pages.iter().enumerate() {
        assert_eq!(*p, HEAP_START + (k as u64) * PAGE_SIZE);
        assert_eq!(p % PAGE_SIZE, 0);
    }
    assert_eq!(HEAP_SIZE as u64, 25 * PAGE_SIZE);
}

#[test]
fn page_range_covers_an_unaligned_window() {
    // A window not aligned to pages still gets every byte covered: the
    // first page contains the first byte, the last page the last byte.
    let pages = page_range(5000, 100);
    assert_eq!(pages, vec![4096]);

    let pages = page_range(4000, 200);
    assert_eq!(pages, vec![0, 4096]);

    let pages = page_range(4096, 4097);
    assert_eq!(pages, vec![4096, 8192]);
}

#[test]
fn page_range_of_a_single_byte() {
    let pages = page_range(12345, 1);
    assert_eq!(pages, vec![12288]);
}
