use classic_algs::bst::Bst;

#[test]
fn empty_bst() {
    let empty_bst = Bst::<usize, usize>::new();
    assert_eq!(empty_bst.size(), 0);
    assert_eq!(empty_bst.root.is_none(), true);
}

#[test]
fn one_bst() {
    let mut bst = Bst::<usize, String>::new();
    bst.put(1, "Hello".to_string());

    let contains = bst.contains(1);
    assert_eq!(contains, true);

    let string_ref = bst.get(1);
    assert_eq!(string_ref, Some(&"Hello".to_string()));

    assert_eq!(bst.root.unwrap().size, 1);
}

#[test]
fn two_bst() {
    let mut bst = Bst::<usize, u8>::new();
    bst.put(2, 2);

    let contains = bst.contains(1);
    assert_eq!(contains, false);

    let val = bst.get(1);
    assert_eq!(val, None);
    bst.put(1, 1);
    bst.put(3, 3);

    assert_eq!(bst.size(), 3);
}

#[test]
fn flat_bst() {
    let mut bst = Bst::<usize, u8>::new();
    bst.put(0, 1);
    assert_eq!(bst.get(0).unwrap(), &1);

    bst.put(1, 2);
    assert_eq!(bst.get(1).unwrap(), &2);

    bst.put(2, 3);
    assert_eq!(bst.get(2).unwrap(), &3);

    bst.put(3, 4);
    assert_eq!(bst.get(3).unwrap(), &4);

    bst.put(4, 5);
    assert_eq!(bst.get(4).unwrap(), &5);

    let first_node = bst.root.unwrap().left.is_none();
    assert_eq!(first_node, true);
}

#[test]
fn delete_max() {
    let mut bst = Bst::<usize, u8>::new();
    bst.put(0, 1);
    bst.put(1, 2);
    bst.put(2, 3);
    bst.put(3, 4);
    bst.put(4, 5);

    assert_eq!(&bst.size(), &5);

    assert_eq!(&bst.contains(4), &true);
    assert_eq!(bst.max(), Some((&4, &5)));
    bst.delete_max();
    let mut contains = bst.contains(4);
    assert_eq!(contains, false);
    assert_eq!(&bst.size(), &4);

    assert_eq!(&bst.contains(3), &true);
    assert_eq!(bst.max(), Some((&3, &4)));
    bst.delete_max();
    contains = bst.contains(3);
    assert_eq!(contains, false);
    assert_eq!(&bst.size(), &3);

    assert_eq!(&bst.contains(2), &true);
    assert_eq!(bst.max(), Some((&2, &3)));

    bst.delete_max();
    contains = bst.contains(2);
    assert_eq!(contains, false);
    assert_eq!(&bst.size(), &2);

    assert_eq!(&bst.contains(1), &true);
    assert_eq!(bst.max(), Some((&1, &2)));

    bst.delete_max();
    contains = bst.contains(1);
    assert_eq!(contains, false);
    assert_eq!(&bst.size(), &1);

    assert_eq!(&bst.contains(0), &true);
    assert_eq!(bst.max(), Some((&0, &1)));
    bst.delete_max();
    contains = bst.contains(0);
    assert_eq!(contains, false);
    assert_eq!(&bst.size(), &0);

    assert_eq!(bst.max(), None);

}

#[test]
fn delete_min() {
    let mut bst = Bst::<usize, u8>::new();
    bst.put(0, 1);
    bst.put(1, 2);
    bst.put(2, 3);
    bst.put(3, 4);
    bst.put(4, 5);

    assert_eq!(&bst.size(), &5);

    assert_eq!(&bst.contains(0), &true);
    assert_eq!(bst.min(), Some((&0, &1)));
    bst.delete_min();
    let mut contains = bst.contains(0);
    assert_eq!(contains, false);
    assert_eq!(&bst.size(), &4);


    assert_eq!(&bst.contains(1), &true);
    assert_eq!(bst.min(), Some((&1, &2)));
    bst.delete_min();
    contains = bst.contains(1);
    assert_eq!(contains, false);
    assert_eq!(&bst.size(), &3);

    assert_eq!(&bst.contains(2), &true);
    assert_eq!(bst.min(), Some((&2, &3)));
    bst.delete_min();
    contains = bst.contains(2);
    assert_eq!(contains, false);
    assert_eq!(&bst.size(), &2);

    assert_eq!(&bst.contains(3), &true);
    assert_eq!(bst.min(), Some((&3, &4)));
    bst.delete_min();
    contains = bst.contains(3);
    assert_eq!(contains, false);
    assert_eq!(&bst.size(), &1);

    assert_eq!(&bst.contains(4), &true);
    assert_eq!(bst.min(), Some((&4, &5)));
    bst.delete_min();
    contains = bst.contains(4);
    assert_eq!(contains, false);
    assert_eq!(&bst.size(), &0);

    assert_eq!(bst.min(), None);

}

#[test]
fn delete() {
    let mut bst = Bst::<usize, usize>::new();
    bst.put(5, 1);
    bst.put(2, 2);
    bst.put(1, 3);
    bst.put(3, 4);
    bst.put(6, 5);

    assert_eq!(&bst.size(), &5);

    assert_eq!(&bst.contains(1), &true);
    bst.delete(1);
    let mut contains = bst.contains(1);
    assert_eq!(contains, false);
    assert_eq!(&bst.size(), &4);


    assert_eq!(&bst.contains(2), &true);
    bst.delete(2);
    contains = bst.contains(2);
    assert_eq!(contains, false);
    assert_eq!(&bst.size(), &3);

    assert_eq!(&bst.contains(3), &true);
    bst.delete(3);
    contains = bst.contains(3);
    assert_eq!(contains, false);
    assert_eq!(&bst.size(), &2);

    assert_eq!(&bst.contains(6), &true);
    bst.delete(6);
    contains = bst.contains(6);
    assert_eq!(contains, false);
    assert_eq!(&bst.size(), &1);

    assert_eq!(&bst.contains(5), &true);
    bst.delete(5);
    contains = bst.contains(5);
    assert_eq!(contains, false);
    assert_eq!(&bst.size(), &0);

}

#[test]
fn asc_iterator(){
    let mut bst = Bst::<usize, usize>::new();
    bst.put(5, 1);
    bst.put(2, 2);
    bst.put(1, 3);
    bst.put(3, 4);
    bst.put(6, 5);

    let mut iter = bst.asc_iter();
    assert_eq!(&iter.next(), &Some((1, 3)));
    assert_eq!(&iter.next(), &Some((2, 2)));
    assert_eq!(&iter.next(), &Some((3, 4)));
    assert_eq!(&iter.next(), &Some((5, 1)));
    assert_eq!(&iter.next(), &Some((6, 5)));
    assert_eq!(&iter.next(), &None);

}

#[test]
fn desc_iterator(){
    let mut bst = Bst::<usize, usize>::new();
    bst.put(5, 1);
    bst.put(2, 2);
    bst.put(1, 3);
    bst.put(3, 4);
    bst.put(6, 5);

    let mut iter = bst.desc_iter();
    assert_eq!(&iter.next(), &Some((6, 5)));
    assert_eq!(&iter.next(), &Some((5, 1)));
    assert_eq!(&iter.next(), &Some((3, 4)));
    assert_eq!(&iter.next(), &Some((2, 2)));
    assert_eq!(&iter.next(), &Some((1, 3)));
    assert_eq!(&iter.next(), &None);
}

#[test]
fn test_floor(){
    let mut bst = Bst::<usize, usize>::new();
    bst.put(5, 1);
    bst.put(2, 2);
    bst.put(1, 3);
    bst.put(3, 4);
    bst.put(10, 5);

    assert_eq!(bst.floor(2), Some(2));
    assert_eq!(bst.floor(4), Some(3));
    assert_eq!(bst.floor(8), Some(5));

}

#[test]
fn test_ceil(){
    let mut bst = Bst::<usize, usize>::new();
    bst.put(5, 1);
    bst.put(2, 2);
    bst.put(1, 3);
    bst.put(3, 4);
    bst.put(10, 5);

    assert_eq!(bst.ceil(3), Some(3));
    assert_eq!(bst.ceil(6), Some(10));
    assert_eq!(bst.ceil(4), Some(5));

}

#[test]
fn scenario_five_keys() {
    let mut bst = Bst::<usize, String>::new();
    bst.put(5, "a".to_string());
    bst.put(2, "b".to_string());
    bst.put(8, "c".to_string());
    bst.put(1, "d".to_string());
    bst.put(3, "e".to_string());
    assert_eq!(bst.size(), 5);
    assert_eq!(bst.floor(4), Some(3));
    assert_eq!(bst.ceil(4), Some(5));
    assert_eq!(bst.min(), Some((&1, &"d".to_string())));
    assert_eq!(bst.max(), Some((&8, &"c".to_string())));

    let mut drained = Vec::new();
    {
        let mut iter = bst.asc_iter();
        while let Some(entry) = iter.next() {
            drained.push(entry);
        }
    }
    let expected: Vec<(usize, String)> = vec![
        (1, "d".to_string()),
        (2, "b".to_string()),
        (3, "e".to_string()),
        (5, "a".to_string()),
        (8, "c".to_string()),
    ];
    assert_eq!(drained, expected);
    assert_eq!(bst.size(), 0);
    assert!(bst.is_empty());
}

#[test]
fn scenario_delete_root_with_two_children() {
    let mut bst = Bst::<usize, String>::new();
    bst.put(5, "a".to_string());
    bst.put(2, "b".to_string());
    bst.put(8, "c".to_string());
    bst.put(1, "d".to_string());
    bst.put(3, "e".to_string());
    bst.delete(5);
    assert_eq!(bst.contains(5), false);
    assert_eq!(bst.size(), 4);
    assert_eq!(bst.root.as_ref().unwrap().key, 8);
    assert_eq!(bst.get(2), Some(&"b".to_string()));
    assert_eq!(bst.get(8), Some(&"c".to_string()));
}

#[test]
fn duplicate_inserts_keep_size() {
    let mut bst = Bst::<usize, usize>::new();
    bst.put(4, 1);
    bst.put(4, 2);
    bst.put(7, 3);
    bst.put(4, 9);
    assert_eq!(bst.size(), 2);
    assert_eq!(bst.get(4), Some(&9));
}

#[test]
fn delete_absent_key_is_noop() {
    let mut bst = Bst::<usize, usize>::new();
    bst.delete(3);
    assert_eq!(bst.size(), 0);
    bst.put(1, 1);
    bst.put(2, 2);
    bst.delete(3);
    assert_eq!(bst.size(), 2);
    bst.delete_min();
    bst.delete_max();
    bst.delete_max();
    assert!(bst.is_empty());
}

#[test]
fn floor_and_ceil_out_of_range() {
    let mut bst = Bst::<usize, usize>::new();
    assert_eq!(bst.floor(3), None);
    assert_eq!(bst.ceil(3), None);
    bst.put(5, 1);
    bst.put(9, 2);
    assert_eq!(bst.floor(4), None);
    assert_eq!(bst.ceil(10), None);
    assert_eq!(bst.floor(100), Some(9));
    assert_eq!(bst.ceil(0), Some(5));
    assert_eq!(bst.floor(9), Some(9));
    assert_eq!(bst.ceil(5), Some(5));
}

#[test]
fn min_and_max_bound_every_key() {
    let mut bst = Bst::<usize, usize>::new();
    for k in [13usize, 4, 21, 1, 8, 17, 30] {
        bst.put(k, k * 2);
    }
    let (min_k, _) = bst.min().unwrap();
    let (max_k, _) = bst.max().unwrap();
    for k in [13usize, 4, 21, 1, 8, 17, 30] {
        assert!(*min_k <= k);
        assert!(*max_k >= k);
    }
    assert_eq!(bst.min(), Some((&1, &2)));
    assert_eq!(bst.max(), Some((&30, &60)));
}

#[test]
fn descending_drain_empties_tree() {
    let mut bst = Bst::<usize, usize>::new();
    for k in [3usize, 1, 2] {
        bst.put(k, k);
    }
    let mut keys = Vec::new();
    {
        let mut iter = bst.desc_iter();
        while let Some((k, _)) = iter.next() {
            keys.push(k);
        }
    }
    assert_eq!(keys, vec![3, 2, 1]);
    assert_eq!(bst.size(), 0);
}

#[test]
fn node_new_has_no_children() {
    let node = classic_algs::bst::Node::<usize, usize>::new(3, 4, 1);
    assert_eq!(node.key, 3);
    assert_eq!(node.value, 4);
    assert_eq!(node.size, 1);
    assert!(node.left.is_none());
    assert!(node.right.is_none());
}
