use classic_algs::heapsort::Heap;

#[test]
fn heap_creation() {
    let heap = Heap::<i32>::new();

    let mut things: Vec<i32> = vec![0, 1, 2];
    let mut heap = Heap::from_vec(things);

    assert_eq!(heap.del_max(), Some(2));
    assert_eq!(heap.del_max(), Some(1));
    assert_eq!(heap.del_max(), Some(0));
    assert_eq!(heap.del_max(), None);
}

#[test]
fn easy_build_heap_test() {

    let mut things = vec![4, 1, 3, 2, 16, 9, 10, 14, 8, 7];
    let mut heap = Heap::from_vec(things);
    //assert_eq!(things, [16, 14, 10, 8, 7, 9, 3, 2, 4, 1]);
    assert_eq!(heap.del_max(), Some(16));
    assert_eq!(heap.del_max(), Some(14));
    assert_eq!(heap.del_max(), Some(10));
    assert_eq!(heap.del_max(), Some(9));
    assert_eq!(heap.del_max(), Some(8));
    assert_eq!(heap.del_max(), Some(7));
    assert_eq!(heap.del_max(), Some(4));
    assert_eq!(heap.del_max(), Some(3));
    assert_eq!(heap.del_max(), Some(2));
    assert_eq!(heap.del_max(), Some(1));
    assert_eq!(heap.del_max(), None);
}

#[test]
fn create_empty_heap() {
    let mut heap = Heap::<i32>::new();
    assert_eq!(heap.is_empty(), true);
    assert_eq!(heap.max(), None);
    assert_eq!(heap.size(), 0);
    assert_eq!(heap.del_max(), None);
}

#[test]
fn max_test() {
    let things = vec![4, 2, 3, 16, 9, 10, 14, 1, 7];
    let mut heap = Heap::from_vec(things);
    assert_eq!(heap.max(), Some(&16));
    assert_eq!(heap.del_max(), Some(16));
}

#[test]
fn test_insert() {
    let mut heap = Heap::new();
    heap.add(5);
    heap.add(6);
    heap.add(7);
    heap.add(3);
    heap.add(10);
    heap.add(9);
    assert_eq!(heap.del_max(), Some(10));
    assert_eq!(heap.del_max(), Some(9));
    assert_eq!(heap.del_max(), Some(7));
    assert_eq!(heap.del_max(), Some(6));
    assert_eq!(heap.del_max(), Some(5));
}

#[test]
fn test_sort() {
    let mut things = [1, 5, 0, 2, 4, 3, 6, 8, 8, 1];
    Heap::sort(&mut things);
    assert_eq!(things, [0, 1, 1, 2, 3, 4, 5, 6, 8, 8])
}

#[test]
fn heap_sort_edge_cases() {
    let mut empty: [i32; 0] = [];
    Heap::sort(&mut empty);
    let mut dup = [3, 3, 1, 3, 2, 2];
    Heap::sort(&mut dup);
    assert_eq!(dup, [1, 2, 2, 3, 3, 3]);
}

#[test]
fn heap_size_tracks_adds_and_removals() {
    let mut heap = Heap::from_vec(vec![2, 9, 9, 4]);
    assert_eq!(heap.size(), 4);
    assert_eq!(heap.max(), Some(&9));
    heap.add(11);
    assert_eq!(heap.size(), 5);
    assert_eq!(heap.next(), Some(11));
    assert_eq!(heap.next(), Some(9));
    assert_eq!(heap.next(), Some(9));
    assert_eq!(heap.size(), 2);
    assert_eq!(heap.is_empty(), false);
}
