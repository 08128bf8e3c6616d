//! The scancode queue and the stream over it: first-in-first-out
//! order, bounded capacity, dropped input reported.

use rust_os_playground::task::keyboard::ScancodeQueue;
use rust_os_playground::task::keyboard::ScancodeStream;
use rust_os_playground::task::keyboard::SCANCODE_QUEUE_CAPACITY;

#[test]
fn queue_is_first_in_first_out() {
    let mut q = ScancodeQueue::new(10);
    assert_eq!(q.push(1), Ok(()));
    assert_eq!(q.push(2), Ok(()));
    assert_eq!(q.push(3), Ok(()));
    assert_eq!(q.len(), 3);
    assert_eq!(q.pop(), Some(1));
    assert_eq!(q.pop(), Some(2));
    assert_eq!(q.pop(), Some(3));
    assert_eq!(q.pop(), None);
}

#[test]
fn full_queue_hands_the_scancode_back() {
    let mut q = ScancodeQueue::new(2);
    assert_eq!(q.push(10), Ok(()));
    assert_eq!(q.push(20), Ok(()));
    assert_eq!(q.push(30), Err(30));
    assert_eq!(q.len(), 2);
    // Draining one slot makes room again.
    assert_eq!(q.pop(), Some(10));
    assert_eq!(q.push(30), Ok(()));
    assert_eq!(q.pop(), Some(20));
    assert_eq!(q.pop(), Some(30));
}

#[test]
fn stream_delivers_scancodes_in_arrival_order() {
    let mut s = ScancodeStream::new();
    assert_eq!(s.poll_next(), None);
    assert!(!s.add_scancode(0x1e));
    assert!(!s.add_scancode(0x9e));
    assert_eq!(s.poll_next(), Some(0x1e));
    assert_eq!(s.poll_next(), Some(0x9e));
    assert_eq!(s.poll_next(), None);
}

#[test]
fn stream_drops_input_only_when_full() {
    let mut s = ScancodeStream::new();
    for i in 0..SCANCODE_QUEUE_CAPACITY {
        assert!(!s.add_scancode(i as u8));
    }
    // The queue is full: the next scancode is dropped and reported.
    assert!(s.add_scancode(0xff));
    // Nothing was lost from the queued ones.
    for i in 0..SCANCODE_QUEUE_CAPACITY {
        assert_eq!(s.poll_next(), Some(i as u8));
    }
    assert_eq!(s.poll_next(), None);
}
