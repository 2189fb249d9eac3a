use algorithms_and_data_structures::sort::{
    insertion_sort, merge_sort, quicksort, quicksort_efficient_random_partition,
    quicksort_ineficient, quicksort_ineficient_random_partition, Order,
};

type Sorter = fn(&mut [i32], usize, usize, Order);

fn sorters() -> Vec<(&'static str, Sorter)> {
    vec![
        ("insertion_sort", insertion_sort::<i32>),
        ("merge_sort", merge_sort::<i32>),
        ("quicksort", quicksort::<i32>),
        ("quicksort_ineficient", quicksort_ineficient::<i32>),
        ("quicksort_ineficient_random_partition", quicksort_ineficient_random_partition::<i32>),
        ("quicksort_efficient_random_partition", quicksort_efficient_random_partition::<i32>),
    ]
}

fn check_sorts(arr: &[i32]) {
    let mut expected = arr.to_vec();
    expected.sort();
    for (name, sort) in sorters() {
        let mut asc = arr.to_vec();
        let len = asc.len();
        sort(&mut asc, 0, len, Order::Increasing);
        assert_eq!(asc, expected, "{} increasing", name);
        let mut dsc = arr.to_vec();
        sort(&mut dsc, 0, len, Order::Decreasing);
        let mut rev = expected.clone();
        rev.reverse();
        assert_eq!(dsc, rev, "{} decreasing", name);
    }
}

#[test]
fn sorts_small_arrays() {
    check_sorts(&[]);
    check_sorts(&[123]);
    check_sorts(&[1, 2]);
    check_sorts(&[1, 1]);
    check_sorts(&[1, 2, -23]);
    check_sorts(&[3, 1, 2]);
    check_sorts(&[2, 3, 1]);
}

#[test]
fn sorts_duplicates_negatives_and_extremes() {
    check_sorts(&[7, 3, 7, 1, 3, 7, 1]);
    check_sorts(&[5, 5, 5, 5, 5]);
    check_sorts(&[-10, 5, -3, 0, 8, -1]);
    check_sorts(&[i32::MAX, i32::MIN, 0, 1, -1]);
    check_sorts(&[1, 1, 1, 1, 1, 2, 1, 1, 1, 1]);
}

#[test]
fn sorts_arrays_longer_than_the_insertion_cut_off() {
    let arr: Vec<i32> = (0..500).map(|x| (x * 7919 + 13) % 211 - 100).collect();
    check_sorts(&arr);
    let desc: Vec<i32> = (0..300).rev().collect();
    check_sorts(&desc);
}

#[test]
fn sorts_only_the_given_range() {
    let mut arr = [9, 8, 7, 6, 5, 4];
    quicksort(&mut arr, 1, 4, Order::Increasing);
    assert_eq!(arr, [9, 6, 7, 8, 5, 4]);
    let mut arr = ['z', 'a', 'y', 'b'];
    insertion_sort(&mut arr, 0, 3, Order::Decreasing);
    assert_eq!(arr, ['z', 'y', 'a', 'b']);
    let mut arr = [5, 1, 4, 2, 3, 0];
    merge_sort(&mut arr, 1, 5, Order::Increasing);
    assert_eq!(arr, [5, 1, 2, 3, 4, 0]);
}

#[test]
fn order_comparisons() {
    assert!(Order::Increasing.is_not_sorted(&2, &1));
    assert!(!Order::Increasing.is_not_sorted(&1, &1));
    assert!(Order::Decreasing.is_not_sorted(&1, &2));
    assert!(Order::Increasing.left_cmp(&1, &2));
    assert!(Order::Decreasing.left_cmp(&2, &1));
    assert!(Order::Increasing.right_cmp(&2, &1));
}

#[test]
fn empty_or_reversed_ranges_are_left_alone() {
    for (name, sort) in sorters() {
        let mut arr = [3, 2, 1];
        sort(&mut arr, 2, 1, Order::Increasing);
        assert_eq!(arr, [3, 2, 1], "{}", name);
        sort(&mut arr, 3, 3, Order::Increasing);
        assert_eq!(arr, [3, 2, 1], "{}", name);
    }
}
