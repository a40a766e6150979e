use classic_algs::union_find::{quickfind, quickunion, weighting};

#[test]
fn quickfind_simple_init() {

    let ut = quickfind::UT::new(3);
    assert_eq!(ut.id, [0,1,2])

}

#[test]
fn quickfind_connected_shoud_fail() {
    let ut = quickfind::UT::new(10);

    assert_eq!(false, ut.connected(0, 1));
    assert_eq!(false, ut.connected(0, 2));
    assert_eq!(false, ut.connected(3, 2));
}

#[test]
fn quickunion_simple_init() {

    let ut = quickunion::UT::new(3);
    assert_eq!(ut.id, [0,1,2])

}

#[test]
fn quickunion_connected_shoud_fail() {
    let ut = quickunion::UT::new(10);

    assert_eq!(false, ut.connected(0, 1));
    assert_eq!(false, ut.connected(0, 2));
    assert_eq!(false, ut.connected(3, 2));
}

#[test]
fn weighting_simple_init() {

    let ut = weighting::UT::new(3);
    assert_eq!(ut.id, [0,1,2])

}

#[test]
fn weighting_connected_shoud_fail() {
    let mut ut = weighting::UT::new(10);

    assert_eq!(false, ut.connected(0, 1));
    assert_eq!(false, ut.connected(0, 2));
    assert_eq!(false, ut.connected(3, 2));
}

#[test]
fn quickfind_union_connects_components() {
    let mut ut = quickfind::UT::new(6);
    ut.union(0, 1);
    ut.union(2, 3);
    assert!(ut.connected(0, 1));
    assert!(ut.connected(2, 3));
    assert!(!ut.connected(0, 3));
    ut.union(1, 3);
    assert!(ut.connected(0, 2));
    assert!(!ut.connected(4, 5));
}

#[test]
fn quickunion_union_connects_components() {
    let mut ut = quickunion::UT::new(6);
    ut.union(0, 1);
    ut.union(2, 3);
    assert!(ut.connected(0, 1));
    assert!(!ut.connected(0, 3));
    ut.union(1, 3);
    assert!(ut.connected(0, 2));
    assert_eq!(ut.root(0), ut.root(2));
    assert!(!ut.connected(4, 5));
}

#[test]
fn weighting_union_connects_components() {
    let mut ut = weighting::UT::new(6);
    ut.union(0, 1);
    ut.union(2, 3);
    ut.union(2, 4);
    assert!(ut.connected(0, 1));
    assert!(!ut.connected(0, 3));
    ut.union(1, 3);
    assert!(ut.connected(0, 4));
    assert!(!ut.connected(4, 5));
    let r = ut.root(0);
    assert_eq!(ut.weights[r], 5);
}
