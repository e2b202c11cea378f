use disjoint_sets::split::AUnionFind;

#[test]
fn async_len() {
    assert_eq!(5, AUnionFind::new(5).len());
}

#[test]
fn async_union() {
    let mut uf = AUnionFind::new(8);
    assert!(!uf.equiv(0, 1));
    uf.union(0, 1);
    assert!(uf.equiv(0, 1));
}

#[test]
fn async_unions() {
    let mut uf = AUnionFind::new(8);
    assert!(uf.union(0, 1));
    assert!(uf.union(1, 2));

    assert!(uf.union(4, 3));
    assert!(uf.union(3, 2));
    assert!(!uf.union(0, 3));

    assert!(uf.equiv(0, 1));
    assert!(uf.equiv(0, 2));
    assert!(uf.equiv(0, 3));
    assert!(uf.equiv(0, 4));
    assert!(!uf.equiv(0, 5));

    assert!(uf.union(5, 3));
    assert!(uf.equiv(0, 5));

    assert!(uf.union(6, 7));
    assert!(uf.equiv(6, 7));
    assert!(!uf.equiv(5, 7));

    assert!(uf.union(0, 7));
    assert!(uf.equiv(5, 7));
}

#[test]
fn async_changed() {
    let mut uf = AUnionFind::new(8);
    assert!(uf.union(2, 3));
    assert!(uf.union(0, 1));
    assert!(uf.union(1, 3));
    assert!(!uf.union(0, 2))
}

// This assumes that for equal-ranked roots, the first argument
// to union is pointed to the second.
#[test]
fn async_to_vec() {
    let mut uf = AUnionFind::new(6);
    assert_eq!(uf.to_vec(), vec![0, 1, 2, 3, 4, 5]);
    uf.union(0, 1);
    assert_eq!(uf.to_vec(), vec![1, 1, 2, 3, 4, 5]);
    uf.union(2, 3);
    assert_eq!(uf.to_vec(), vec![1, 1, 3, 3, 4, 5]);
    uf.union(1, 3);
    assert_eq!(uf.to_vec(), vec![3, 3, 3, 3, 4, 5]);
}

#[test]
fn async_is_empty() {
    assert!(AUnionFind::new(0).is_empty());
    assert!(!AUnionFind::new(1).is_empty());
}

#[test]
fn async_find_returns_representative() {
    let mut uf = AUnionFind::new(4);
    assert_eq!(uf.find(3), 3);
    uf.union(0, 1);
    assert_eq!(uf.find(0), 1);
    assert_eq!(uf.find(1), 1);
}

#[test]
fn async_entries_round_trip() {
    let mut uf0 = AUnionFind::new(8);
    uf0.union(0, 1);
    uf0.union(2, 3);
    uf0.union(1, 2);
    let mut uf1 = AUnionFind::from_entries(&uf0.to_entries()).unwrap();
    for i in 0..8 {
        for j in 0..8 {
            assert_eq!(uf0.equiv(i, j), uf1.equiv(i, j));
        }
    }
    // a cyclic form is rejected; any rank value is fine
    assert!(AUnionFind::from_entries(&vec![(1, 0), (0, 7)]).is_none());
    assert!(AUnionFind::from_entries(&vec![(1, 0), (1, usize::MAX)]).is_some());
}
