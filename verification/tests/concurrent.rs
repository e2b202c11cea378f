use disjoint_sets::AUnionFind;
use disjoint_sets::CapacityError;

#[test]
fn concurrent_len() {
    assert_eq!(5, AUnionFind::new(5).unwrap().len());
}

#[test]
fn concurrent_union() {
    let mut uf = AUnionFind::new(8).unwrap();
    assert!(!uf.equiv(0, 1));
    uf.union(0, 1);
    assert!(uf.equiv(0, 1));
}

#[test]
fn concurrent_unions() {
    let mut uf = AUnionFind::new(8).unwrap();
    assert!(uf.union(0, 1));
    assert!(uf.union(1, 2));

    assert!(uf.union(4, 3));
    assert!(uf.union(3, 2));
    assert!(!uf.union(0, 3));

    assert!(uf.equiv(0, 1));
    assert!(uf.equiv(0, 2));
    assert!(uf.equiv(0, 3));
    assert!(uf.equiv(0, 4));
    assert!(!uf.equiv(0, 5));

    assert!(uf.union(5, 3));
    assert!(uf.equiv(0, 5));

    assert!(uf.union(6, 7));
    assert!(uf.equiv(6, 7));
    assert!(!uf.equiv(5, 7));

    assert!(uf.union(0, 7));
    assert!(uf.equiv(5, 7));
}

#[test]
fn concurrent_changed() {
    let mut uf = AUnionFind::new(8).unwrap();
    assert!(uf.union(2, 3));
    assert!(uf.union(0, 1));
    assert!(uf.union(1, 3));
    assert!(!uf.union(0, 2))
}

// This assumes that for equal-ranked roots, the first argument
// to union is pointed to the second.
#[test]
fn concurrent_to_vec() {
    let mut uf = AUnionFind::new(6).unwrap();
    assert_eq!(uf.to_vec(), vec![0, 1, 2, 3, 4, 5]);
    uf.union(0, 1);
    assert_eq!(uf.to_vec(), vec![1, 1, 2, 3, 4, 5]);
    uf.union(2, 3);
    assert_eq!(uf.to_vec(), vec![1, 1, 3, 3, 4, 5]);
    uf.union(1, 3);
    assert_eq!(uf.to_vec(), vec![3, 3, 3, 3, 4, 5]);
}

#[test]
fn concurrent_is_empty() {
    assert!(AUnionFind::new(0).unwrap().is_empty());
    assert!(!AUnionFind::new(2).unwrap().is_empty());
}

#[test]
fn concurrent_find_returns_representative() {
    let mut uf = AUnionFind::new(4).unwrap();
    assert_eq!(uf.find(3), 3);
    uf.union(0, 1);
    assert_eq!(uf.find(0), 1);
    assert_eq!(uf.find(1), 1);
}

#[test]
fn concurrent_capacity_boundary() {
    // The id field is 58 bits wide, so one element too many must be turned
    // away with a capacity error, and small sizes must succeed.
    assert_eq!(AUnionFind::max_size(), 1usize << 58);
    assert!(AUnionFind::new(AUnionFind::max_size() + 1).is_err());
    assert!(matches!(
        AUnionFind::new(AUnionFind::max_size() + 1),
        Err(CapacityError)
    ));
    assert!(AUnionFind::new(1000).is_ok());
    assert!(AUnionFind::new(0).is_ok());
}

#[test]
fn concurrent_entries_round_trip() {
    let mut uf0 = AUnionFind::new(8).unwrap();
    uf0.union(0, 1);
    uf0.union(2, 3);
    assert!(uf0.equiv(0, 1));
    assert!(!uf0.equiv(1, 2));
    assert!(uf0.equiv(2, 3));
    uf0.force();
    let pairs = uf0.to_entries();
    let mut uf1 = AUnionFind::from_entries(&pairs).unwrap();
    assert!(uf1.equiv(0, 1));
    assert!(!uf1.equiv(1, 2));
    assert!(uf1.equiv(2, 3));
    assert_eq!(uf0.to_vec(), uf1.to_vec());

    // a compressed two-element set is accepted
    assert!(AUnionFind::from_entries(&vec![(1, 0), (1, 1), (1, 0)]).is_some());
    // a parent chain deeper than one is accepted too
    assert!(AUnionFind::from_entries(&vec![(1, 0), (2, 0), (2, 1)]).is_some());
    // an id out of range is rejected
    assert!(AUnionFind::from_entries(&vec![(3, 0)]).is_none());
    // a cyclic form is rejected
    assert!(AUnionFind::from_entries(&vec![(1, 0), (0, 0)]).is_none());
    // a rank that overflows its field is rejected
    assert!(AUnionFind::from_entries(&vec![(0, 64)]).is_none());
}

#[test]
fn concurrent_entries_accept_unforced_states() {
    let mut uf0 = AUnionFind::new(6).unwrap();
    uf0.union(0, 1);
    uf0.union(2, 3);
    uf0.union(1, 2);
    let mut uf1 = AUnionFind::from_entries(&uf0.to_entries()).unwrap();
    for i in 0..6 {
        for j in 0..6 {
            assert_eq!(uf0.equiv(i, j), uf1.equiv(i, j));
        }
    }
}
