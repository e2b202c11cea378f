use disjoint_sets::ElementType;
use disjoint_sets::UnionFind;

#[test]
fn array_len() {
    assert_eq!(5, UnionFind::<u32>::new(5).len());
}

#[test]
fn array_union() {
    let mut uf = UnionFind::<u32>::new(8);
    assert!(!uf.equiv(0, 1));
    uf.union(0, 1);
    assert!(uf.equiv(0, 1));
}

#[test]
fn array_unions() {
    let mut uf = UnionFind::<usize>::new(8);
    assert!(uf.union(0, 1));
    assert!(uf.union(1, 2));
    assert!(uf.union(4, 3));
    assert!(uf.union(3, 2));
    assert!(!uf.union(0, 3));

    assert!(uf.equiv(0, 1));
    assert!(uf.equiv(0, 2));
    assert!(uf.equiv(0, 3));
    assert!(uf.equiv(0, 4));
    assert!(!uf.equiv(0, 5));

    uf.union(5, 3);
    assert!(uf.equiv(0, 5));

    uf.union(6, 7);
    assert!(uf.equiv(6, 7));
    assert!(!uf.equiv(5, 7));

    uf.union(0, 7);
    assert!(uf.equiv(5, 7));
}

#[test]
fn array_is_empty() {
    assert!(UnionFind::<usize>::new(0).is_empty());
    assert!(!UnionFind::<usize>::new(3).is_empty());
}

#[test]
fn array_to_vec_worked_example() {
    let mut uf = UnionFind::<usize>::new(6);
    assert_eq!(uf.to_vec(), vec![0, 1, 2, 3, 4, 5]);
    uf.union(0, 1);
    assert_eq!(uf.to_vec(), vec![1, 1, 2, 3, 4, 5]);
    uf.union(2, 3);
    assert_eq!(uf.to_vec(), vec![1, 1, 3, 3, 4, 5]);
    uf.union(1, 3);
    assert_eq!(uf.to_vec(), vec![3, 3, 3, 3, 4, 5]);
}

#[test]
fn array_find_returns_representative() {
    let mut uf = UnionFind::<usize>::new(4);
    assert_eq!(uf.find(2), 2);
    uf.union(0, 1);
    assert_eq!(uf.find(0), 1);
    assert_eq!(uf.find(1), 1);
}

#[test]
fn array_alloc_grows_singletons() {
    let mut uf = UnionFind::<u16>::new(0);
    assert!(uf.is_empty());
    let a = uf.alloc_element();
    let b = uf.alloc_element();
    assert_eq!(a, 0);
    assert_eq!(b, 1);
    assert_eq!(uf.len(), 2);
    assert!(!uf.equiv(a, b));
    assert!(uf.union(a, b));
    assert!(uf.equiv(a, b));
}

#[test]
fn element_type_conversions() {
    assert_eq!(<u8 as ElementType>::from_usize(255), Some(255u8));
    assert_eq!(<u8 as ElementType>::from_usize(256), None);
    assert_eq!(<u16 as ElementType>::from_usize(65535), Some(65535u16));
    assert_eq!(<u16 as ElementType>::from_usize(65536), None);
    assert_eq!(<u32 as ElementType>::from_usize(7), Some(7u32));
    assert_eq!(ElementType::to_usize(7u32), 7usize);
    assert_eq!(<usize as ElementType>::from_usize(usize::MAX), Some(usize::MAX));
}

#[test]
fn array_entries_round_trip() {
    let mut uf0: UnionFind<u16> = UnionFind::new(6);
    uf0.union(0, 1);
    uf0.union(2, 3);
    let mut uf1: UnionFind<u16> = UnionFind::from_entries(&uf0.to_entries()).unwrap();
    for i in 0..6u16 {
        for j in 0..6u16 {
            assert_eq!(uf0.equiv(i, j), uf1.equiv(i, j));
        }
    }
    // a form too large for the element type is rejected
    let too_big: Vec<(usize, usize)> = (0..300).map(|i| (i, 0)).collect();
    assert!(UnionFind::<u8>::from_entries(&too_big).is_none());
    assert!(UnionFind::<u16>::from_entries(&too_big).is_some());
    // a rank too wide for its cell is rejected
    assert!(UnionFind::<u16>::from_entries(&vec![(0, 256)]).is_none());
    // a cyclic form is rejected
    assert!(UnionFind::<u16>::from_entries(&vec![(1, 0), (0, 0)]).is_none());
}
