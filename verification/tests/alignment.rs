//! Alignment arithmetic: rounding up, its properties, and the run-time
//! power-of-two check.

use rust_os_playground::allocator::align_up;
use rust_os_playground::allocator::align_up_checked;
use rust_os_playground::allocator::power_of_two;

#[test]
fn align_up_already_aligned_is_unchanged() {
    assert_eq!(align_up(0x1000, 8), 0x1000);
    assert_eq!(align_up(0, 16), 0);
    assert_eq!(align_up(4096, 4096), 4096);
}

#[test]
fn align_up_rounds_to_next_multiple() {
    assert_eq!(align_up(0x1003, 8), 0x1008);
    assert_eq!(align_up(1, 1), 1);
    assert_eq!(align_up(1, 4096), 4096);
    assert_eq!(align_up(4097, 4096), 8192);
}

#[test]
fn align_up_result_is_at_least_input_and_multiple() {
    let cases: Vec<(usize, usize)> = vec![
        (0, 1),
        (1, 2),
        (7, 8),
        (8, 8),
        (9, 8),
        (100, 16),
        (0x1234, 64),
        (0xffff, 4096),
    ];
    for (a, k) in cases {
        let r = align_up(a, k);
        assert!(r >= a);
        assert_eq!(r % k, 0);
        assert!(r < a + k);
    }
}

#[test]
fn align_up_is_idempotent() {
    let cases: Vec<(usize, usize)> = vec![(3, 8), (17, 16), (4095, 4096), (0, 2), (12, 4)];
    for (a, k) in cases {
        let once = align_up(a, k);
        assert_eq!(align_up(once, k), once);
    }
}

#[test]
fn align_up_checked_reports_overflow() {
    assert_eq!(align_up_checked(usize::MAX - 3, 8), None);
    assert_eq!(align_up_checked(usize::MAX, 2), None);
    assert_eq!(align_up_checked(16, 8), Some(16));
    assert_eq!(align_up_checked(17, 8), Some(24));
}

#[test]
fn power_of_two_accepts_exactly_the_powers() {
    assert!(power_of_two(1));
    assert!(power_of_two(2));
    assert!(power_of_two(8));
    assert!(power_of_two(4096));
    assert!(power_of_two(1 << 40));
    assert!(!power_of_two(0));
    assert!(!power_of_two(3));
    assert!(!power_of_two(12));
    assert!(!power_of_two(usize::MAX));
}
