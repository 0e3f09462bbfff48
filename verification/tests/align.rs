use alloq::{align_down, align_up, checked_align_up, is_power_of_two};

#[test]
fn align_up_rounds_to_next_multiple() {
    assert_eq!(align_up(0, 8), 0);
    assert_eq!(align_up(1, 8), 8);
    assert_eq!(align_up(8, 8), 8);
    assert_eq!(align_up(9, 8), 16);
    assert_eq!(align_up(13, 1), 13);
    assert_eq!(align_up(0x1001, 0x1000), 0x2000);
}

#[test]
fn align_down_rounds_to_previous_multiple() {
    assert_eq!(align_down(0, 8), 0);
    assert_eq!(align_down(7, 8), 0);
    assert_eq!(align_down(8, 8), 8);
    assert_eq!(align_down(15, 8), 8);
    assert_eq!(align_down(13, 1), 13);
    assert_eq!(align_down(13, 0), 13);
}

#[test]
fn checked_align_up_refuses_what_does_not_fit() {
    assert_eq!(checked_align_up(9, 8), Some(16));
    assert_eq!(checked_align_up(9, 3), None);
    assert_eq!(checked_align_up(9, 0), None);
    assert_eq!(checked_align_up(usize::MAX, 1), Some(usize::MAX));
    assert_eq!(checked_align_up(usize::MAX, 2), None);
    assert_eq!(checked_align_up(usize::MAX - 7, 8), Some(usize::MAX - 7));
    assert_eq!(checked_align_up(usize::MAX - 6, 8), None);
}

#[test]
fn power_of_two_has_one_bit() {
    assert!(is_power_of_two(1));
    assert!(is_power_of_two(2));
    assert!(is_power_of_two(1 << 40));
    assert!(!is_power_of_two(0));
    assert!(!is_power_of_two(3));
    assert!(!is_power_of_two(usize::MAX));
}
