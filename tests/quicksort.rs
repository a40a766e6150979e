use classic_algs::quicksort::partition::standard_partition;
use classic_algs::quicksort::quicksort::{djistra_quicksort, quicksort};
use classic_algs::quicksort::select::select;

#[test]
fn standard_simple_test() {
    let mut data = [0,1,2,3,4,5];
    let hi = data.len() - 1;
    let j = standard_partition(&mut data, 0, hi);
    assert_eq!(0, j)
}

#[test]
fn standard_reverse_simple_test() {
    let mut data = [5, 4, 3, 2, 1];
    let hi = data.len() - 1;
    let j = standard_partition(&mut data, 0, hi);
    assert_eq!(4, j);
    assert_eq!(&data, &[1, 4, 3, 2, 5]);
}

#[test]
fn already_sorted_standard() {
    let mut data = [0,1,2,3,4,5,6,7,8,9,10];
    let ordered = data.clone();
    quicksort(&mut data);
    assert_eq!(data, ordered);
}

#[test]
fn already_sorted_djistra() {
    let mut data = [0,1,2,3,4,5,6,7,8,9,10];
    let ordered = data.clone();
    djistra_quicksort(&mut data);
    assert_eq!(data, ordered);
}

#[test]
fn reverse_order_standard() {
    let mut data = [10,9,8,7,6,5,4,3,2,1,0];
    quicksort(&mut data);
    assert_eq!(data, [0,1,2,3,4,5,6,7,8,9,10]);
}

#[test]
fn reverse_order_djistra() {
    let mut data = [10,9,8,7,6,5,4,3,2,1,0];
    quicksort(&mut data);
    assert_eq!(data, [0,1,2,3,4,5,6,7,8,9,10]);
}

#[test]
fn simple_test_standard() {
    let mut things = vec![4,2,5,7,8];
    quicksort(&mut things);
    assert_eq!(things, [2,4,5,7,8]);
}

#[test]
fn simple_test_djistra() {
    let mut things = vec![4,2,5,7,8];
    quicksort(&mut things);
    assert_eq!(things, [2,4,5,7,8]);
}

#[test]
fn simple_test_two_standard() {
    let mut things = vec![9,8,9,5,1,3,2,10];
    quicksort(&mut things);
    assert_eq!(things, [1,2,3,5,8,9,9,10]);
}

#[test]
fn simple_test_two_djistra() {
    let mut things = vec![9,8,9,5,1,3,2,10];
    quicksort(&mut things);
    assert_eq!(things, [1,2,3,5,8,9,9,10]);
}

#[test]
fn another_test_standard() {
    let mut things = vec![12, 16 ,8, 15, 10, 6, 3, 9, 5];
    quicksort(&mut things);
    assert_eq!(things, [3, 5, 6, 8, 9, 10, 12, 15, 16]);
}

#[test]
fn another_test_djistra() {
    let mut things = vec![12, 16 ,8, 15, 10, 6, 3, 9, 5];
    quicksort(&mut things);
    assert_eq!(things, [3, 5, 6, 8, 9, 10, 12, 15, 16]);
}

#[test]
fn duplicates_standard() {
    let mut things = vec![12, 12 ,8, 15, 10, 8, 3, 9, 5];
    quicksort(&mut things);
    assert_eq!(things, [3, 5, 8, 8, 9, 10, 12, 12, 15]);
}

#[test]
fn duplicates_djistra() {
    let mut things = vec![12, 12 ,8, 15, 10, 8, 3, 9, 5];
    quicksort(&mut things);
    assert_eq!(things, [3, 5, 8, 8, 9, 10, 12, 12, 15]);
}

#[test]
fn on_string_standard() {
    let mut things = vec!["z", "b", "a", "g", "n"];
    quicksort(&mut things);
    assert_eq!(things, ["a", "b", "g", "n", "z"]);
}

#[test]
fn on_string_djistra() {
    let mut things = vec!["z", "b", "a", "g", "n"];
    quicksort(&mut things);
    assert_eq!(things, ["a", "b", "g", "n", "z"]);
}

#[test]
fn illegal_k() {
    let mut data = [6,5,3,7,1,10];
    let res = select(&mut data, 15);
    assert_eq!(res.is_err(), true);
}

#[test]
fn simple_test0() {
    let mut data = [6,5,3,7,1,10];
    let res = select(&mut data, 0);
    assert_eq!(res.unwrap(), 1);
}

#[test]
fn simple_test1() {
    let mut data = [6,5,3,7,1,10];
    let res = select(&mut data, 1);
    assert_eq!(res.unwrap(), 3);
}

#[test]
fn simple_test2() {
    let mut data = [6,5,3,7,1,10];
    let res = select(&mut data, 2);
    assert_eq!(res.unwrap(), 5);
}

#[test]
fn test0() {
    let mut data = [6,5,30,7,15,10,1,2,9,9,10];
    let res = select(&mut data, 10);
    assert_eq!(res.unwrap(), 30);
}

#[test]
fn test1() {
    let mut data = [6,5,30,7,15,10,1,2,9,9,10];
    let res = select(&mut data, 9);
    assert_eq!(res.unwrap(), 15);
}

#[test]
fn test2() {
    let mut data = [6,5,30,7,15,10,1,2,9,9,10];
    let res = select(&mut data, 0);
    assert_eq!(res.unwrap(), 1);
}

#[test]
fn test_char0() {
    let mut data = ["a", "c", "z", "h", "g", "f", "f", "n", "m"];
    let res = select(&mut data, 4);
    assert_eq!(res.unwrap(), "g");
}

#[test]
fn test_char1() {
    let mut data = ["a", "c", "z", "h", "g", "f", "f", "n", "m"];
    let res = select(&mut data, 3);
    assert_eq!(res.unwrap(), "f");
}

#[test]
fn three_way_step_sorts_duplicates() {
    let mut data = [4, 1, 4, 4, 0, 9, 4, 2, 9, 1];
    let hi = data.len() - 1;
    classic_algs::quicksort::djistra::recursive_step(&mut data, 0, hi);
    assert_eq!(data, [0, 1, 1, 2, 4, 4, 4, 4, 9, 9]);
}

#[test]
fn partition_with_pivot_duplicates_terminates() {
    let mut data = [5, 5, 5, 5];
    let j = standard_partition(&mut data, 0, 3);
    assert!(j <= 3);
    assert_eq!(data, [5, 5, 5, 5]);
    let mut sorted = [3, 3, 1, 3, 3, 2, 3];
    djistra_quicksort(&mut sorted);
    assert_eq!(sorted, [1, 2, 3, 3, 3, 3, 3]);
}

#[test]
fn partition_of_part_of_a_slice() {
    let mut data = [9, 3, 1, 4, 2, 0];
    let j = standard_partition(&mut data, 1, 4);
    assert_eq!(j, 3);
    assert_eq!(data, [9, 2, 1, 3, 4, 0]);
}

#[test]
fn select_every_rank() {
    let base = [6, 5, 30, 7, 15, 10, 1, 2, 9, 9, 10];
    let mut sorted = base;
    sorted.sort();
    for k in 0..base.len() {
        let mut data = base;
        assert_eq!(select(&mut data, k), Ok(sorted[k]));
    }
    let mut data = base;
    assert_eq!(select(&mut data, base.len()), Err("Invalid Argument"));
}
