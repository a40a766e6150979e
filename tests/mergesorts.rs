use classic_algs::mergesorts::utils::merge;
use classic_algs::mergesorts::{bottomup_mergesort, mergesort};

#[test]
fn bottomup_mergesort_simple_test() {
    let mut things = vec![4,2,5,7,8];
    bottomup_mergesort::merge_sort(&mut things);
    assert_eq!(things, [2,4,5,7,8]);
}

#[test]
fn bottomup_mergesort_simple_test_two() {
    let mut things = vec![9,8,9,5,1,3,2,10];
    bottomup_mergesort::merge_sort(&mut things);
    assert_eq!(things, [1,2,3,5,8,9,9,10]);
}

#[test]
fn bottomup_mergesort_another_test() {
    let mut things = vec![12, 16 ,8, 15, 10, 6, 3, 9, 5];
    bottomup_mergesort::merge_sort(&mut things);
    assert_eq!(things, [3, 5, 6, 8, 9, 10, 12, 15, 16]);
}

#[test]
fn bottomup_mergesort_on_string() {
    let mut things = vec!["z", "b", "a", "g", "n"];
    bottomup_mergesort::merge_sort(&mut things);
    assert_eq!(things, ["a", "b", "g", "n", "z"]);
}

#[test]
fn mergesort_simple_test() {
    let mut things = vec![4,2,5,7,8];
    mergesort::merge_sort(&mut things);
    assert_eq!(things, [2,4,5,7,8]);
}

#[test]
fn mergesort_simple_test_two() {
    let mut things = vec![9,8,9,5,1,3,2,10];
    mergesort::merge_sort(&mut things);
    assert_eq!(things, [1,2,3,5,8,9,9,10]);
}

#[test]
fn mergesort_another_test() {
    let mut things = vec![12, 16 ,8, 15, 10, 6, 3, 9, 5];
    mergesort::merge_sort(&mut things);
    assert_eq!(things, [3, 5, 6, 8, 9, 10, 12, 15, 16]);
}

#[test]
fn mergesort_on_string() {
    let mut things = vec!["z", "b", "a", "g", "n"];
    mergesort::merge_sort(&mut things);
    assert_eq!(things, ["a", "b", "g", "n", "z"]);
}

#[test]
fn two_elem() {
    let mut things = vec![2,1];
    let mut aux = things.to_vec();
    let len = things.len();
    merge(&mut things, &mut aux, 0, 0, len-1);
    assert_eq!(things, [1,2]); 
}

#[test]
fn four_elem() {
    let mut things = vec![1,2,0,4];
    let mut aux = things.to_vec();
    let len = things.len();
    merge(&mut things, &mut aux, 0, 1, len-1);
    assert_eq!(things, [0,1,2,4]);
}

#[test]
fn eight_elem() {
    let mut things = vec![0,2,4,5,1,3,6,7];
    let mut aux = things.to_vec();
    let len = things.len();
    merge(&mut things, &mut aux, 0, 3, len-1);
    assert_eq!(things, [0,1,2,3,4,5,6,7]);
}

#[test]
fn merge_sorts_larger_inputs() {
    let input = vec![17, 4, 4, 12, 0, 9, 3, 15, 1, 8, 8, 6, 13, 2, 11, 5, 10];
    let mut expected = input.clone();
    expected.sort();
    let mut a = input.clone();
    bottomup_mergesort::merge_sort(&mut a);
    assert_eq!(a, expected);
    let mut b = input.clone();
    mergesort::merge_sort(&mut b);
    assert_eq!(b, expected);
}

#[test]
fn merge_sorts_single_and_empty() {
    let mut one = vec![3];
    mergesort::merge_sort(&mut one);
    assert_eq!(one, [3]);
    let mut empty: Vec<u8> = Vec::new();
    bottomup_mergesort::merge_sort(&mut empty);
    assert!(empty.is_empty());
}

#[test]
fn merge_touches_only_its_range() {
    let mut things = vec![9, 5, 7, 2, 6, 0];
    let mut aux = things.clone();
    merge(&mut things, &mut aux, 1, 2, 4);
    assert_eq!(things, [9, 2, 5, 6, 7, 0]);
}
