use classic_algs::elementary_sort::{insertion_sort, min_index, selection_sort, shell_sort};

#[test]
fn insertion_sort_already_sorted() {
    let mut data = [1, 2, 3, 4];
    insertion_sort(&mut data);
    assert_eq!(&[1, 2, 3, 4], &data);
}

#[test]
fn insertion_sort_simple_slice() {
    let mut data = [4, 3, 2, 1];
    insertion_sort(&mut data);
    assert_eq!(&[1, 2, 3, 4], &data);
}

#[test]
fn insertion_sort_char_slice() {
    let mut data = ["a", "c", "b", "f"];
    insertion_sort(&mut data);
    assert_eq!(&["a", "b", "c", "f"], &data);
}

#[test]
fn selection_sort_already_sorted() {
    let mut data = [1, 2, 3, 4];
    selection_sort(&mut data);
    assert_eq!(&[1, 2, 3, 4], &data);
}

#[test]
fn test_min() {
    let mut data = [5, 2, 4, 9, 1, 6];
    let min_i = min_index(&mut data);
    assert_eq!(min_i, 4);
}

#[test]
fn test_min2() {
    let mut data = [4, 5, 2, 1, 1, 6, 9, 4, 2, 0];
    let min_i = min_index(&mut data);
    assert_eq!(min_i, 9);
}

#[test]
fn selection_sort_simple_slice() {
    let mut data = [4, 3, 2, 1];
    selection_sort(&mut data);
    assert_eq!(&[1, 2, 3, 4], &data);
}

#[test]
fn selection_sort_char_slice() {
    let mut data = ["a", "c", "b", "f"];
    selection_sort(&mut data);
    assert_eq!(&["a", "b", "c", "f"], &data);
}

#[test]
fn shellsort_already_sorted() {
    let mut data = [1, 2, 3, 4];
    shell_sort(&mut data);
    assert_eq!(&[1, 2, 3, 4], &data);
}

#[test]
fn shellsort_simple_slice() {
    let mut data = [4, 3, 2, 1];
    shell_sort(&mut data);
    assert_eq!(&[1, 2, 3, 4], &data);
}

#[test]
fn shellsort_char_slice() {
    let mut data = ["a", "c", "b", "f"];
    shell_sort(&mut data);
    assert_eq!(&["a", "b", "c", "f"], &data);
}

#[test]
fn knuth_shuffling_keeps_elements() {
    let mut data = [7, 3, 3, 9, 1, 4, 4, 4, 0, 12];
    classic_algs::elementary_sort::knuth_shuffling(&mut data);
    let mut sorted = data;
    insertion_sort(&mut sorted);
    assert_eq!(sorted, [0, 1, 3, 3, 4, 4, 4, 7, 9, 12]);
}

#[test]
fn min_index_edge_cases() {
    let empty: [u8; 0] = [];
    assert_eq!(min_index(&empty), 0);
    assert_eq!(min_index(&[3, 1, 1, 2]), 1);
    assert_eq!(min_index(&[8]), 0);
}

#[test]
fn sorts_with_duplicates_and_reverse_runs() {
    let input = [20, 3, 19, 3, 18, 0, 17, 5, 5, 16, 1, 15, 2, 14, 9, 13, 9, 12, 11, 10];
    let mut expected = input.to_vec();
    expected.sort();
    let mut a = input;
    insertion_sort(&mut a);
    assert_eq!(a.to_vec(), expected);
    let mut b = input;
    selection_sort(&mut b);
    assert_eq!(b.to_vec(), expected);
    let mut c = input;
    shell_sort(&mut c);
    assert_eq!(c.to_vec(), expected);
}

#[test]
fn sorts_on_empty_and_single() {
    let mut empty: [i32; 0] = [];
    insertion_sort(&mut empty);
    shell_sort(&mut empty);
    let mut one = [5];
    selection_sort(&mut one);
    assert_eq!(one, [5]);
}
