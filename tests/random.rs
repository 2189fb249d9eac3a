use algorithms_and_data_structures::random::permute;
use std::collections::HashMap;
use std::hash::Hash;

fn get_element_count_hash_map<T>(arr: &[T]) -> HashMap<T, usize>
where
    T: Copy + Eq + Hash,
{
    let mut answer = HashMap::new();
    for el in arr {
        match answer.get_mut(el) {
            Some(v) => *v += 1,
            None => {
                answer.insert(*el, 1_usize);
            }
        }
    }
    answer
}

fn check_permutation<T: Copy + Eq + Hash + std::fmt::Debug, const N: usize>(
    mut arr: [T; N],
    expected_count: &[(T, usize)],
) {
    permute(&mut arr);
    assert_eq!(
        get_element_count_hash_map(&arr),
        expected_count.iter().cloned().collect::<HashMap<T, usize>>()
    );
}

#[test]
fn should_permute_an_empty_array() {
    let mut arr: [usize; 0] = [];
    permute(&mut arr);
    assert_eq!(arr, []);
}

#[test]
fn should_permute_an_1_element_array() {
    let mut arr = [10];
    permute(&mut arr);
    assert_eq!(arr, [10]);
}

#[test]
fn should_permute_a_2_element_array() {
    check_permutation([10, 12_u32], &[(10, 1), (12, 1)]);
}

#[test]
fn should_permute_a_3_element_array() {
    check_permutation(["", "hey", "there"], &[("", 1), ("hey", 1), ("there", 1)]);
    check_permutation([1, 2, 3], &[(1, 1), (2, 1), (3, 1)]);
    check_permutation([1, 2, 2], &[(1, 1), (2, 2)]);
    check_permutation([2, 2, 2], &[(2, 3)]);
}

#[test]
fn should_permute_a_7_element_array() {
    check_permutation(
        [1, 2, 2, 3, 4, 5, 5],
        &[(1, 1), (2, 2), (3, 1), (4, 1), (5, 2)],
    );
}

#[test]
fn should_permute_a_large_array_changing_at_least_one_element() {
    let arr = [
        23, 2, 23, 1, 2, 31, 23, 12, 3, 12, 31, 23, 12312, 312, 3, 1, 24, 5546,
    ];
    let mut permuted_array = arr.clone();
    while arr == permuted_array {
        permute(&mut permuted_array);
    }
    assert_eq!(
        get_element_count_hash_map(&permuted_array),
        get_element_count_hash_map(&arr)
    );
}

#[test]
fn permute_moves_items_around() {
    // with 40 distinct items, some call must move the first item
    let arr: Vec<u32> = (0..40).collect();
    let mut moved = false;
    for _ in 0..50 {
        let mut p = arr.clone();
        permute(&mut p);
        let mut sorted = p.clone();
        sorted.sort();
        assert_eq!(sorted, arr);
        if p[0] != 0 {
            moved = true;
        }
    }
    assert!(moved);
}
