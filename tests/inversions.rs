use algorithms_and_data_structures::inversions::{calculate_inversions, Order};

#[test]
fn should_return_inversions_for_empty_slice() {
    assert_eq!(calculate_inversions::<u8>(&[], Order::Increasing), 0);
    assert_eq!(calculate_inversions::<u8>(&[], Order::Decreasing), 0);
}

#[test]
fn should_return_inversions_for_1_element_slice() {
    assert_eq!(calculate_inversions(&[12], Order::Increasing), 0);
    assert_eq!(calculate_inversions(&['q'], Order::Decreasing), 0);
}

#[test]
fn should_return_inversions_for_2_element_slice() {
    assert_eq!(calculate_inversions(&[12, 12], Order::Increasing), 0);
    assert_eq!(calculate_inversions(&[1, 12], Order::Increasing), 0);
    assert_eq!(calculate_inversions(&[1, 12], Order::Decreasing), 1);
    assert_eq!(calculate_inversions(&[10, -12], Order::Increasing), 1);
    assert_eq!(calculate_inversions(&[1, -112], Order::Decreasing), 0);
}

#[test]
fn should_return_inversions_for_3_element_slice() {
    assert_eq!(calculate_inversions(&[1, 2, 3], Order::Increasing), 0);
    assert_eq!(calculate_inversions(&[3, 2, 1], Order::Increasing), 3);
    assert_eq!(calculate_inversions(&[1, 3, 2], Order::Increasing), 1);
    assert_eq!(calculate_inversions(&[2, 1, 3], Order::Increasing), 1);
    assert_eq!(calculate_inversions(&[1, 2, 3], Order::Decreasing), 3);
    assert_eq!(calculate_inversions(&[3, 2, 1], Order::Decreasing), 0);
}

#[test]
fn inversions_should_handle_duplicate_elements() {
    assert_eq!(calculate_inversions(&[5, 5, 5, 5], Order::Increasing), 0);
    assert_eq!(calculate_inversions(&[5, 5, 5, 5], Order::Decreasing), 0);
    assert_eq!(calculate_inversions(&[1, 3, 3, 2], Order::Increasing), 2);
    assert_eq!(calculate_inversions(&[4, 2, 2, 1], Order::Decreasing), 0);
    assert_eq!(calculate_inversions(&[1, 2, 2, 4], Order::Decreasing), 5);
}

#[test]
fn inversions_should_handle_negative_numbers() {
    assert_eq!(calculate_inversions(&[-3, -1, -2], Order::Increasing), 1);
    assert_eq!(calculate_inversions(&[-1, -5, -3], Order::Increasing), 2);
    assert_eq!(calculate_inversions(&[-5, -3, -1], Order::Decreasing), 3);
    assert_eq!(calculate_inversions(&[5, -2, 10, -8], Order::Increasing), 4);
}

#[test]
fn should_handle_larger_arrays() {
    assert_eq!(calculate_inversions(&[5, 4, 3, 2, 1], Order::Increasing), 10);
    assert_eq!(calculate_inversions(&[1, 2, 3, 4, 5], Order::Decreasing), 10);
    assert_eq!(calculate_inversions(&[1, 3, 2, 4, 6, 5], Order::Increasing), 2);
    assert_eq!(calculate_inversions(&[6, 5, 4, 3, 2, 1, 0], Order::Increasing), 21);
}

#[test]
fn should_handle_mixed_ordering() {
    assert_eq!(calculate_inversions(&[2, 1, 4, 3, 6, 5], Order::Increasing), 3);
    assert_eq!(calculate_inversions(&[10, 5, 15, 3, 20, 1], Order::Increasing), 9);
    assert_eq!(calculate_inversions(&[1, 10, 2, 9, 3, 8], Order::Decreasing), 9);
}

#[test]
fn should_handle_single_inversion_patterns() {
    assert_eq!(calculate_inversions(&[1, 2, 3, 0], Order::Increasing), 3);
    assert_eq!(calculate_inversions(&[0, 3, 2, 1], Order::Decreasing), 3);
    assert_eq!(calculate_inversions(&[5, 1, 2, 3, 4], Order::Increasing), 4);
}

#[test]
fn inversions_leave_the_input_untouched() {
    let arr = [3, 1, 2];
    assert_eq!(calculate_inversions(&arr, Order::Increasing), 2);
    assert_eq!(arr, [3, 1, 2]);
    assert!(Order::Increasing.has_inversion(&3, &1));
    assert!(!Order::Decreasing.has_inversion(&3, &1));
}
