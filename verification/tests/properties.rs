//! Behavioural properties across the variants: the same-set relation is an
//! equivalence, merges are permanent and order-independent, and forcing is
//! idempotent.

use disjoint_sets::split;
use disjoint_sets::AUnionFind;
use disjoint_sets::UnionFind;

#[test]
fn equiv_is_an_equivalence_relation() {
    let mut uf = AUnionFind::new(8).unwrap();
    uf.union(0, 1);
    uf.union(1, 2);
    uf.union(5, 6);
    for a in 0..8 {
        assert!(uf.equiv(a, a));
        for b in 0..8 {
            assert_eq!(uf.equiv(a, b), uf.equiv(b, a));
            for c in 0..8 {
                if uf.equiv(a, b) && uf.equiv(b, c) {
                    assert!(uf.equiv(a, c));
                }
            }
        }
    }
}

#[test]
fn union_is_permanent() {
    let mut uf = AUnionFind::new(8).unwrap();
    uf.union(0, 1);
    assert!(uf.equiv(0, 1));
    uf.union(2, 3);
    uf.union(1, 3);
    uf.union(6, 7);
    uf.union(5, 0);
    // every operation since has kept 0 and 1 together
    assert!(uf.equiv(0, 1));
    assert!(uf.equiv(2, 3));
    assert!(uf.equiv(1, 3));
}

#[test]
fn first_union_succeeds_later_unions_report_false() {
    let mut uf = AUnionFind::new(8).unwrap();
    assert!(uf.union(0, 1));
    assert!(!uf.union(0, 1));
    assert!(!uf.union(1, 0));
    assert!(uf.union(2, 3));
    assert!(uf.union(1, 2));
    assert!(!uf.union(0, 3));
}

fn partition_matrix(uf: &mut AUnionFind, n: usize) -> Vec<bool> {
    let mut m = Vec::new();
    for i in 0..n {
        for j in 0..n {
            m.push(uf.equiv(i, j));
        }
    }
    m
}

#[test]
fn union_order_does_not_change_the_partition() {
    let n: usize = 16;
    let ops = [
        (0usize, 1usize),
        (2, 3),
        (1, 3),
        (4, 5),
        (6, 7),
        (5, 7),
        (8, 9),
        (0, 9),
        (10, 11),
        (12, 12),
        (13, 14),
        (14, 15),
        (3, 3),
        (15, 13),
    ];
    let mut in_order = AUnionFind::new(n).unwrap();
    for &(a, b) in ops.iter() {
        in_order.union(a, b);
    }
    let mut reversed = AUnionFind::new(n).unwrap();
    for &(a, b) in ops.iter().rev() {
        reversed.union(b, a);
    }
    let mut interleaved = AUnionFind::new(n).unwrap();
    for k in 0..ops.len() {
        let (a, b) = if k % 2 == 0 {
            ops[k / 2]
        } else {
            ops[ops.len() - 1 - k / 2]
        };
        interleaved.union(a, b);
    }
    let reference = partition_matrix(&mut in_order, n);
    assert_eq!(reference, partition_matrix(&mut reversed, n));
    assert_eq!(reference, partition_matrix(&mut interleaved, n));
}

#[test]
fn force_and_to_vec_are_idempotent() {
    let mut uf = AUnionFind::new(8).unwrap();
    uf.union(0, 1);
    uf.union(2, 3);
    uf.union(1, 3);
    uf.union(6, 7);
    uf.force();
    let v1 = uf.to_vec();
    uf.force();
    uf.force();
    let v2 = uf.to_vec();
    assert_eq!(v1, v2);
    // after forcing, every element points directly at its representative
    for i in 0..8 {
        let root = v1[i];
        assert_eq!(v1[root], root);
        assert_eq!(uf.find(i), root);
    }
}

#[test]
fn variants_agree_on_the_partition() {
    let n: usize = 12;
    let ops = [(0usize, 1usize), (2, 3), (1, 3), (4, 5), (8, 9), (9, 0), (10, 11)];
    let mut packed = AUnionFind::new(n).unwrap();
    let mut two_cell = split::AUnionFind::new(n);
    let mut vector: UnionFind<usize> = UnionFind::new(n);
    for &(a, b) in ops.iter() {
        let merged_packed = packed.union(a, b);
        let merged_two_cell = two_cell.union(a, b);
        let merged_vector = vector.union(a, b);
        assert_eq!(merged_packed, merged_two_cell);
        assert_eq!(merged_two_cell, merged_vector);
    }
    assert_eq!(packed.to_vec(), two_cell.to_vec());
    assert_eq!(packed.to_vec(), vector.to_vec());
    for i in 0..n {
        for j in 0..n {
            assert_eq!(packed.equiv(i, j), two_cell.equiv(i, j));
            assert_eq!(packed.equiv(i, j), vector.equiv(i, j));
        }
    }
}

#[test]
fn split_force_idempotent() {
    let mut uf = split::AUnionFind::new(8);
    uf.union(0, 1);
    uf.union(1, 2);
    uf.union(5, 6);
    uf.force();
    let v1 = uf.to_vec();
    uf.force();
    assert_eq!(v1, uf.to_vec());
    for i in 0..8 {
        assert_eq!(v1[v1[i]], v1[i]);
    }
}

#[test]
fn array_force_idempotent() {
    let mut uf: UnionFind<usize> = UnionFind::new(8);
    uf.union(0, 1);
    uf.union(1, 2);
    uf.union(5, 6);
    uf.force();
    let v1 = uf.to_vec();
    uf.force();
    assert_eq!(v1, uf.to_vec());
    for i in 0..8 {
        assert_eq!(v1[v1[i]], v1[i]);
    }
}
