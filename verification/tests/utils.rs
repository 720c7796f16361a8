use std::collections::HashMap;
use std::collections::VecDeque;

use algokit::utils::bin_sch;
use algokit::utils::cmp_and_replace_value_in_hashmap;
use algokit::utils::max_value;
use algokit::utils::merge_sort;
use algokit::utils::merge_sort_unstable;
use algokit::utils::min_value;
use algokit::utils::replace_max;
use algokit::utils::replace_min;
use algokit::utils::sum_digits;

#[test]
fn test_min_value_macro() {
    assert_eq!(min_value(3, &vec![5, 2, 8]), 2);
    assert_eq!(min_value(10, &vec![5, 20, 8]), 5);
}

#[test]
fn test_max_value_macro() {
    assert_eq!(max_value(3, &vec![5, 2, 8]), 8);
    assert_eq!(max_value(10, &vec![5, 20, 8]), 20);
}

#[test]
fn test_replace_min_macro() {
    let mut value = 10;
    replace_min(&mut value, &vec![5, 8, 12]);
    assert_eq!(value, 5);
}

#[test]
fn test_replace_max_macro() {
    let mut value = 10;
    replace_max(&mut value, &vec![5, 8, 12]);
    assert_eq!(value, 12);
}

#[test]
fn test_cmp_and_replace_value_in_hashmap_function() {
    let mut map = HashMap::new();
    map.insert(1, 10);
    cmp_and_replace_value_in_hashmap(&mut map, &1, 5, |a, b| a < b);
    assert_eq!(map.get(&1), Some(&5));
}

// A losing candidate leaves the stored value alone, and a missing key is
// always filled in.
#[test]
fn cmp_and_replace_keeps_better_value() {
    let mut map = HashMap::new();
    map.insert(1u64, 10i64);
    cmp_and_replace_value_in_hashmap(&mut map, &1, 20, |a, b| a < b);
    assert_eq!(map.get(&1), Some(&10));
    cmp_and_replace_value_in_hashmap(&mut map, &2, 7, |a, b| a < b);
    assert_eq!(map.get(&2), Some(&7));
}

#[test]
fn test_bin_sch_function() {
    let v = vec![1, 3, 5, 7, 9];
    let result = bin_sch(0, v.len() - 1, |mid| v[mid] <= 5);
    assert!(matches!(result, 2));
}

// The boundary cases of the binary search: everything accepted, nothing
// accepted, and a reversed bracket, which probes nothing.
#[test]
fn bin_sch_boundaries() {
    let v = vec![2, 4, 6, 8];
    assert_eq!(bin_sch(0, v.len() - 1, |mid| v[mid] <= 100), 3);
    assert_eq!(bin_sch(0, v.len() - 1, |mid| v[mid] <= 1), -1);
    assert_eq!(bin_sch(5, 2, |_mid| true), 4);
}

#[test]
fn test_merge_sort_function() {
    let v: VecDeque<i32> = vec![3, 1, 4, 1, 5, 9, 2, 6, 5, 3, 5].into();
    let sorted = merge_sort(&v, |a, b| a <= b);
    assert_eq!(sorted, Some(vec![1, 1, 2, 3, 3, 4, 5, 5, 5, 6, 9].into()));

    let v: VecDeque<i32> = vec![3, 1, 4, 1, 5, 9, 2, 6, 5, 3, 5, 7].into();
    let sorted = merge_sort(&v, |a, b| a <= b);
    assert_eq!(
        sorted,
        Some(vec![1, 1, 2, 3, 3, 4, 5, 5, 5, 6, 7, 9].into())
    );

    let v: VecDeque<i32> = VecDeque::new();
    let sorted = merge_sort(&v, |a, b| a <= b);
    assert_eq!(sorted, None);

    let v_with_index: VecDeque<(i32, usize)> = vec![
        (3, 0),
        (1, 1),
        (4, 2),
        (1, 3),
        (5, 4),
        (2, 6),
        (6, 7),
        (5, 8),
        (3, 9),
        (5, 10),
    ]
    .into();
    let sorted_with_index = merge_sort(&v_with_index, |&(a, _), &(b, _)| a <= b);
    assert_eq!(
        sorted_with_index,
        Some(
            vec![
                (1, 1),
                (1, 3),
                (2, 6),
                (3, 0),
                (3, 9),
                (4, 2),
                (5, 4),
                (5, 8),
                (5, 10),
                (6, 7),
            ]
            .into()
        )
    );
    let sorted_with_index = merge_sort_unstable(&v_with_index, |&(a, _), &(b, _)| a <= b);
    assert_ne!(
        sorted_with_index,
        Some(
            vec![
                (1, 1),
                (1, 3),
                (2, 6),
                (3, 0),
                (3, 9),
                (4, 2),
                (5, 4),
                (5, 8),
                (5, 10),
                (6, 7),
            ]
            .into()
        )
    );

    let v_with_index: VecDeque<(i32, usize)> = vec![
        (3, 0),
        (1, 1),
        (4, 2),
        (1, 3),
        (5, 4),
        (9, 5),
        (2, 6),
        (6, 7),
        (5, 8),
        (3, 9),
        (5, 10),
    ]
    .into();
    let sorted_with_index = merge_sort(&v_with_index, |&(a, _), &(b, _)| a <= b);
    assert_eq!(
        sorted_with_index,
        Some(
            vec![
                (1, 1),
                (1, 3),
                (2, 6),
                (3, 0),
                (3, 9),
                (4, 2),
                (5, 4),
                (5, 8),
                (5, 10),
                (6, 7),
                (9, 5)
            ]
            .into()
        )
    );
    let sorted_with_index = merge_sort_unstable(&v_with_index, |&(a, _), &(b, _)| a <= b);
    assert_ne!(
        sorted_with_index,
        Some(
            vec![
                (1, 1),
                (1, 3),
                (2, 6),
                (3, 0),
                (3, 9),
                (4, 2),
                (5, 4),
                (5, 8),
                (5, 10),
                (6, 7),
                (9, 5)
            ]
            .into()
        )
    );
}

#[test]
fn test_merge_sort_unstable_function() {
    let v: VecDeque<i32> = vec![3, 1, 4, 1, 5, 9, 2, 6, 5, 3, 5].into();
    let sorted = merge_sort_unstable(&v, |a, b| a <= b);
    assert_eq!(sorted, Some(vec![1, 1, 2, 3, 3, 4, 5, 5, 5, 6, 9].into()));

    let v: VecDeque<i32> = vec![3, 1, 4, 1, 5, 9, 2, 6, 5, 3, 5, 7].into();
    let sorted = merge_sort_unstable(&v, |a, b| a <= b);
    assert_eq!(
        sorted,
        Some(vec![1, 1, 2, 3, 3, 4, 5, 5, 5, 6, 7, 9].into())
    );

    let v: VecDeque<i32> = VecDeque::new();
    let sorted = merge_sort_unstable(&v, |a, b| a <= b);
    assert_eq!(sorted, None);
}

#[test]
fn test_sum_digits() {
    let res = sum_digits(5);
    assert_eq!(5, res);

    let res = sum_digits(10);
    assert_eq!(1, res);

    let res = sum_digits(18);
    assert_eq!(9, res);

    let res = sum_digits(457);
    assert_eq!(16, res);
}
