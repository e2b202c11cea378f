//! Vector-based union-find over a generic small-integer element type.
//!
//! The single-threaded sibling of [`crate::concurrent`]: the same algorithm —
//! union by rank, path halving in `find` — over plain cells, with no
//! concurrency concerns.  Elements are values of any [`ElementType`], which
//! stand for the indices `0 .. len()`; unlike the fixed-size variants, this
//! structure can grow one singleton at a time through
//! [`UnionFind::alloc`].

use core::marker::PhantomData;
use vstd::prelude::*;
use vstd::seq_lib::assert_seqs_equal;

use crate::base;
use crate::traits::ElementType;

verus! {

/// Vector-based union-find representing a set of disjoint sets.
///
/// The partition it represents is described by [`UnionFind::root_of`]: the
/// representative reached by following parents from an element.  All
/// operations preserve or merge the sets of that partition; none ever splits
/// a set.
pub struct UnionFind<Element: ElementType = usize> {
    elements: Vec<usize>,
    ranks: Vec<u8>,
    /// Termination witness: a measure that strictly increases along every
    /// parent link, so every parent walk reaches a root.
    level: Ghost<Seq<nat>>,
    /// Upper bound of all levels.
    level_cap: Ghost<nat>,
    marker: PhantomData<Element>,
}

impl<Element: ElementType> UnionFind<Element> {
    /// The number of elements.
    pub closed spec fn spec_len(self) -> int {
        self.elements@.len() as int
    }

    /// The parents, as a sequence.
    closed spec fn ids(self) -> Seq<int> {
        Seq::new(self.elements@.len() as nat, |i: int| self.elements@[i] as int)
    }

    /// The stored ranks, as a sequence.
    closed spec fn rks(self) -> Seq<int> {
        Seq::new(self.ranks@.len() as nat, |i: int| self.ranks@[i] as int)
    }

    /// Well-formedness: parents stay in range, every parent walk terminates
    /// (witnessed by the ghost levels), each element has a rank, and all
    /// indices are representable in `Element`.
    pub closed spec fn wf(self) -> bool {
        &&& base::links_ok(self.ids(), self.level@, self.level_cap@)
        &&& self.ranks@.len() == self.elements@.len()
        &&& self.spec_len() <= Element::count_spec()
    }

    /// The stored parent of element `i`.
    pub closed spec fn parent_of(self, i: int) -> int {
        self.ids()[i]
    }

    /// The stored rank of element `i`; meaningful only when `i` is a root.
    pub closed spec fn rank_at(self, i: int) -> int {
        self.rks()[i]
    }

    /// The representative of `i`'s set: the root reached from `i` along
    /// parents.
    pub closed spec fn root_of(self, i: int) -> int {
        base::root_in(self.ids(), self.level@, self.level_cap@, i)
    }

    /// Whether `a` and `b` are in the same set.
    pub open spec fn same_set(self, a: int, b: int) -> bool {
        self.root_of(a) == self.root_of(b)
    }

    /// The rank of the root of `i`'s set.
    pub open spec fn class_rank(self, i: int) -> int {
        self.rank_at(self.root_of(i))
    }

    /// The whole partition, as the sequence assigning each element its
    /// representative.
    pub open spec fn roots_seq(self) -> Seq<int> {
        Seq::new(self.spec_len() as nat, |i: int| self.root_of(i))
    }
}

/// The two states present the same partition, with the same representatives
/// and the same root ranks: only the shape of the trees may differ.
pub open spec fn unchanged_sets<Element: ElementType>(
    pre: UnionFind<Element>,
    post: UnionFind<Element>,
) -> bool {
    &&& post.spec_len() == pre.spec_len()
    &&& (forall|i: int| 0 <= i < pre.spec_len() ==> post.root_of(i) == pre.root_of(i))
    &&& (forall|i: int| 0 <= i < pre.spec_len() ==> post.class_rank(i) == pre.class_rank(i))
}

impl<Element: ElementType> UnionFind<Element> {
    /// Creates a new union-find of `size` elements, each its own singleton
    /// set.
    ///
    /// `size` must be representable in `Element`; a `size` that overflows
    /// the element type is a caller error.
    pub fn new(size: usize) -> (r: UnionFind<Element>)
        requires
            size <= Element::count_spec(),
        ensures
            r.wf(),
            r.spec_len() == size,
            forall|i: int| 0 <= i < size ==> #[trigger] r.parent_of(i) == i,
            forall|i: int| 0 <= i < size ==> #[trigger] r.root_of(i) == i,
            forall|i: int| 0 <= i < size ==> #[trigger] r.rank_at(i) == 0,
    {
        let mut elements: Vec<usize> = Vec::new();
        let mut ranks: Vec<u8> = Vec::new();
        let mut i: usize = 0;
        while i < size
            invariant
                i <= size,
                elements@.len() == i,
                ranks@.len() == i,
                forall|j: int| 0 <= j < i ==> #[trigger] elements@[j] == j,
                forall|j: int| 0 <= j < i ==> #[trigger] ranks@[j] == 0,
            decreases size - i,
        {
            elements.push(i);
            ranks.push(0);
            i = i + 1;
        }
        let uf = UnionFind {
            elements,
            ranks,
            level: Ghost(Seq::new(size as nat, |j: int| 0nat)),
            level_cap: Ghost(0nat),
            marker: PhantomData,
        };
        proof {
            assert forall|j: int| 0 <= j < size implies #[trigger] uf.ids()[j] == j by {
                assert(uf.elements@[j] == j);
            }
            assert(base::links_ok(uf.ids(), uf.level@, uf.level_cap@));
            assert forall|j: int| 0 <= j < size implies #[trigger] uf.root_of(j) == j by {
                assert(uf.ids()[j] == j);
            }
            assert forall|j: int| 0 <= j < size implies #[trigger] uf.rank_at(j) == 0 by {
                assert(uf.ranks@[j] == 0);
            }
        }
        uf
    }

    /// The number of elements in all the sets.
    pub fn len(&self) -> (r: usize)
        ensures
            r == self.spec_len(),
    {
        self.elements.len()
    }

    /// Is the union-find devoid of elements?
    ///
    /// It is possible to create an empty `UnionFind` and then add elements
    /// with [`UnionFind::alloc_element`].
    pub fn is_empty(&self) -> (r: bool)
        ensures
            r == (self.spec_len() == 0),
    {
        self.elements.is_empty()
    }

    /// Creates a new element in a singleton set and returns it.
    ///
    /// Allocating an element that would overflow the element type is a
    /// caller error.
    pub fn alloc_element(&mut self) -> (r: Element)
        requires
            old(self).wf(),
            old(self).spec_len() < Element::count_spec(),
        ensures
            final(self).wf(),
            final(self).spec_len() == old(self).spec_len() + 1,
            r.idx_spec() == old(self).spec_len(),
            final(self).parent_of(old(self).spec_len()) == old(self).spec_len(),
            final(self).root_of(old(self).spec_len()) == old(self).spec_len(),
            final(self).rank_at(old(self).spec_len()) == 0,
            forall|i: int|
                0 <= i < old(self).spec_len() ==> #[trigger] final(self).parent_of(i) == old(
                    self,
                ).parent_of(i),
            forall|i: int|
                0 <= i < old(self).spec_len() ==> #[trigger] final(self).root_of(i) == old(
                    self,
                ).root_of(i),
            forall|i: int|
                0 <= i < old(self).spec_len() ==> #[trigger] final(self).rank_at(i) == old(
                    self,
                ).rank_at(i),
    {
        let n = self.elements.len();
        let result = match Element::from_usize(n) {
            Some(e) => e,
            None => {
                proof {
                    assert(false);
                }
                vstd::pervasive::unreached::<Element>()
            },
        };
        self.elements.push(n);
        self.ranks.push(0);
        proof {
            let p1 = old(self).ids();
            let lv = old(self).level@;
            let cap = old(self).level_cap@;
            self.level@ = lv.push(0nat);
            let p2 = self.ids();
            let lv2 = self.level@;
            let cap2 = self.level_cap@;
            assert forall|i: int| 0 <= i < p1.len() implies p2[i] == p1[i] by {
                assert(self.elements@[i] == old(self).elements@[i]);
            }
            assert(p2[n as int] == n as int);
            assert forall|i: int| 0 <= i < p2.len() implies 0 <= #[trigger] p2[i] < p2.len() by {
                if i < n {
                    assert(p2[i] == p1[i]);
                    assert(0 <= p1[i] < p1.len());
                }
            }
            assert forall|i: int| 0 <= i < p2.len() implies #[trigger] lv2[i] <= cap2 by {
                if i < n {
                    assert(lv2[i] == lv[i]);
                }
            }
            assert forall|i: int| 0 <= i < p2.len() && #[trigger] p2[i] != i implies lv2[i]
                < lv2[p2[i]] by {
                if i < n {
                    assert(p2[i] == p1[i]);
                    assert(lv2[i] == lv[i]);
                    assert(lv[i] < lv[p1[i]]);
                    assert(lv2[p1[i]] == lv[p1[i]]);
                }
            }
            assert(base::links_ok(p2, lv2, cap2));
            assert forall|i: int| 0 <= i < old(self).spec_len() implies #[trigger] self.root_of(i)
                == old(self).root_of(i) by {
                base::lemma_root_extend(p1, lv, cap, p2, lv2, cap2, i);
            }
            assert(self.root_of(n as int) == n as int);
            assert forall|i: int| 0 <= i < old(self).spec_len() implies #[trigger] self.rank_at(i)
                == old(self).rank_at(i) by {
                assert(self.ranks@[i] == old(self).ranks@[i]);
            }
            assert(self.rank_at(n as int) == 0);
        }
        result
    }

    /// Reads one element's stored rank.
    fn rank(&self, element: usize) -> (r: u8)
        requires
            self.wf(),
            element < self.spec_len(),
        ensures
            r == self.rank_at(element as int),
    {
        self.ranks[element]
    }

    /// Reads one element's stored parent.
    fn parent(&self, element: usize) -> (r: usize)
        requires
            element < self.spec_len(),
        ensures
            r == self.parent_of(element as int),
    {
        self.elements[element]
    }

    /// Stores a new parent for one element.  The rank cells are untouched.
    fn set_parent(&mut self, element: usize, parent: usize)
        requires
            element < old(self).spec_len(),
            parent < old(self).spec_len(),
        ensures
            final(self).spec_len() == old(self).spec_len(),
            final(self).level@ == old(self).level@,
            final(self).level_cap@ == old(self).level_cap@,
            final(self).ranks@ == old(self).ranks@,
            final(self).rks() == old(self).rks(),
            final(self).ids() == old(self).ids().update(element as int, parent as int),
    {
        self.elements[element] = parent;
        proof {
            assert_seqs_equal!(
                self.ids() == old(self).ids().update(element as int, parent as int)
            );
            assert(self.rks() =~= old(self).rks());
        }
    }

    /// Bumps one element's rank cell, saturating at the top of its range.
    fn increment_rank(&mut self, element: usize)
        requires
            old(self).wf(),
            element < old(self).spec_len(),
        ensures
            final(self).wf(),
            final(self).spec_len() == old(self).spec_len(),
            final(self).level@ == old(self).level@,
            final(self).level_cap@ == old(self).level_cap@,
            final(self).ids() == old(self).ids(),
            forall|i: int|
                0 <= i < old(self).spec_len() ==> #[trigger] final(self).root_of(i) == old(
                    self,
                ).root_of(i),
            final(self).rank_at(element as int) == (if old(self).rank_at(element as int)
                < u8::MAX {
                old(self).rank_at(element as int) + 1
            } else {
                old(self).rank_at(element as int)
            }),
            forall|i: int|
                0 <= i < old(self).spec_len() && i != element ==> #[trigger] final(self).rank_at(i)
                    == old(self).rank_at(i),
    {
        let r = self.ranks[element];
        self.ranks[element] = r.saturating_add(1);
        proof {
            assert_seqs_equal!(self.ids() == old(self).ids());
            assert forall|i: int| 0 <= i < old(self).spec_len() implies #[trigger] self.root_of(i)
                == old(self).root_of(i) by {
                assert(self.level@ == old(self).level@);
            }
            assert(self.rks()[element as int] == self.ranks@[element as int]);
            assert forall|i: int|
                0 <= i < old(self).spec_len() && i != element implies #[trigger] self.rank_at(i)
                == old(self).rank_at(i) by {
                assert(self.ranks@[i] == old(self).ranks@[i]);
            }
        }
    }

    /// Links the root `loser` under the distinct root `winner`, and raises
    /// the ghost level of the winner above the loser's, which keeps every
    /// parent walk terminating.
    fn link_roots(&mut self, loser: usize, winner: usize)
        requires
            old(self).wf(),
            loser < old(self).spec_len(),
            winner < old(self).spec_len(),
            loser != winner,
            old(self).parent_of(loser as int) == loser,
            old(self).parent_of(winner as int) == winner,
        ensures
            final(self).wf(),
            final(self).spec_len() == old(self).spec_len(),
            forall|i: int|
                0 <= i < old(self).spec_len() ==> #[trigger] final(self).root_of(i) == (if old(
                    self,
                ).root_of(i) == loser {
                    winner as int
                } else {
                    old(self).root_of(i)
                }),
            forall|i: int|
                0 <= i < old(self).spec_len() ==> #[trigger] final(self).rank_at(i) == old(
                    self,
                ).rank_at(i),
            forall|i: int|
                0 <= i < old(self).spec_len() && i != loser ==> #[trigger] final(self).parent_of(i)
                    == old(self).parent_of(i),
            final(self).parent_of(loser as int) == winner,
    {
        self.set_parent(loser, winner);
        proof {
            let p1 = old(self).ids();
            let lv = old(self).level@;
            let cap = old(self).level_cap@;
            let li: int = loser as int;
            let wi: int = winner as int;
            let bump: nat = if lv[li] + 1 > lv[wi] {
                (lv[li] + 1) as nat
            } else {
                lv[wi]
            };
            self.level@ = lv.update(wi, bump);
            self.level_cap@ = if bump > cap {
                bump
            } else {
                cap
            };
            let p2 = self.ids();
            let lv2 = self.level@;
            let cap2 = self.level_cap@;
            assert(p2 == p1.update(li, wi as int));
            assert forall|i: int| 0 <= i < p2.len() implies 0 <= #[trigger] p2[i] < p2.len() by {
                if i != li {
                    assert(p2[i] == p1[i]);
                    assert(0 <= p1[i] < p1.len());
                }
            }
            assert forall|i: int| 0 <= i < p2.len() implies #[trigger] lv2[i] <= cap2 by {
                if i != wi {
                    assert(lv2[i] == lv[i]);
                    assert(lv[i] <= cap);
                }
            }
            assert forall|i: int| 0 <= i < p2.len() && #[trigger] p2[i] != i implies lv2[i]
                < lv2[p2[i]] by {
                if i == li {
                    assert(p2[i] == wi);
                    assert(lv2[li] == lv[li]);
                    assert(lv2[wi] == bump);
                } else if i == wi {
                    assert(p2[wi] == p1[wi]);
                    assert(p1[wi] == wi);
                } else {
                    assert(p2[i] == p1[i]);
                    assert(lv[i] < lv[p1[i]]);
                    assert(lv2[i] == lv[i]);
                    if p1[i] == wi {
                        assert(lv2[wi] == bump);
                        assert(bump >= lv[wi]);
                    } else {
                        assert(lv2[p1[i]] == lv[p1[i]]);
                    }
                }
            }
            assert(base::links_ok(p2, lv2, cap2));
            assert forall|j: int| 0 <= j < p2.len() implies #[trigger] self.root_of(j) == (if old(
                self,
            ).root_of(j) == li {
                wi
            } else {
                old(self).root_of(j)
            }) by {
                base::lemma_root_link(p1, lv, cap, p2, lv2, cap2, li, wi, j);
            }
        }
    }

    /// The walk that `find` performs, with the detailed contract the other
    /// operations build on: each visited element is redirected to its
    /// grandparent on the way up (path halving).  The partition is
    /// untouched, and no rank cell changes.
    fn find_root(&mut self, element: usize) -> (r: usize)
        requires
            old(self).wf(),
            element < old(self).spec_len(),
        ensures
            final(self).wf(),
            unchanged_sets(*old(self), *final(self)),
            final(self).level@ == old(self).level@,
            final(self).level_cap@ == old(self).level_cap@,
            final(self).rks() == old(self).rks(),
            r == old(self).root_of(element as int),
            r < old(self).spec_len(),
            final(self).parent_of(r as int) == r,
            forall|i: int|
                0 <= i < old(self).spec_len() && old(self).parent_of(i) == old(self).root_of(i)
                    ==> final(self).parent_of(i) == old(self).parent_of(i),
            forall|i: int|
                0 <= i < old(self).spec_len() && old(self).level@[i] < old(self).level@[element as int]
                    ==> final(self).parent_of(i) == old(self).parent_of(i),
            (forall|j: int|
                0 <= j < old(self).spec_len() ==> old(self).parent_of(j) == old(self).root_of(j))
                ==> final(self).ids() == old(self).ids(),
    {
        let ghost o = *self;
        let ghost e0: int = element as int;
        let mut element: usize = element;
        let mut parent: usize = self.parent(element);
        while element != parent
            invariant
                o.wf(),
                self.wf(),
                o.spec_len() == self.spec_len(),
                self.level@ == o.level@,
                self.level_cap@ == o.level_cap@,
                self.rks() == o.rks(),
                element < self.spec_len(),
                0 <= e0 < o.spec_len(),
                parent == self.parent_of(element as int),
                parent < self.spec_len(),
                o.level@[e0] <= self.level@[element as int],
                (forall|j: int|
                    0 <= j < o.spec_len() ==> o.parent_of(j) == o.root_of(j)) ==> self.ids()
                    == o.ids(),
                self.root_of(element as int) == o.root_of(e0),
                forall|i: int|
                    0 <= i < o.spec_len() ==> #[trigger] self.root_of(i) == o.root_of(i),
                forall|i: int|
                    0 <= i < o.spec_len() && o.parent_of(i) == o.root_of(i)
                        ==> #[trigger] self.parent_of(i) == o.parent_of(i),
                forall|i: int|
                    0 <= i < o.spec_len() && o.level@[i] < o.level@[e0]
                        ==> #[trigger] self.parent_of(i) == o.parent_of(i),
            decreases self.level_cap@ - self.level@[element as int],
        {
            let grandparent = self.parent(parent);
            let ghost s = *self;
            proof {
                assert(s.ids()[element as int] == parent as int);
                assert(s.level@[element as int] < s.level@[parent as int]);
                if s.parent_of(parent as int) == parent as int {
                    assert(grandparent == parent);
                } else {
                    assert(s.ids()[parent as int] == grandparent as int);
                    assert(s.level@[parent as int] < s.level@[grandparent as int]);
                }
                assert(s.level@[element as int] < s.level@[grandparent as int]);
            }
            self.set_parent(element, grandparent);
            proof {
                let p1 = s.ids();
                let lv = s.level@;
                let cap = s.level_cap@;
                let p2 = self.ids();
                let k: int = element as int;
                let b: int = grandparent as int;
                assert(p2 == p1.update(k, b));
                assert(b != k);
                assert forall|i: int| 0 <= i < p2.len() implies 0 <= #[trigger] p2[i] < p2.len() by {
                    if i != k {
                        assert(p2[i] == p1[i]);
                        assert(0 <= p1[i] < p1.len());
                    }
                }
                assert forall|i: int|
                    0 <= i < p2.len() && #[trigger] p2[i] != i implies lv[i] < lv[p2[i]] by {
                    if i != k {
                        assert(p2[i] == p1[i]);
                        assert(lv[i] < lv[p1[i]]);
                    }
                }
                assert(base::links_ok(p2, lv, cap));
                assert(self.wf());
                assert(base::root_in(p1, lv, cap, k) == base::root_in(p1, lv, cap, parent as int));
                assert(base::root_in(p1, lv, cap, parent as int) == base::root_in(p1, lv, cap, b));
                assert forall|j: int| 0 <= j < p2.len() implies #[trigger] self.root_of(j)
                    == s.root_of(j) by {
                    base::lemma_root_redirect(p1, lv, cap, p2, lv, cap, k, b, j);
                }
                assert forall|i: int|
                    0 <= i < o.spec_len() && o.parent_of(i) == o.root_of(i)
                    implies #[trigger] self.parent_of(i) == o.parent_of(i) by {
                    if i == k {
                        base::lemma_root_basics(o.ids(), o.level@, o.level_cap@, i);
                        let rt = o.root_of(i);
                        assert(s.parent_of(i) == o.parent_of(i));
                        assert(parent as int == rt);
                        assert(o.parent_of(rt) == rt);
                        assert(s.parent_of(rt) == rt);
                        assert(grandparent == parent);
                        assert(self.parent_of(i) == b);
                    } else {
                        assert(self.parent_of(i) == s.parent_of(i));
                    }
                }
                assert forall|i: int|
                    0 <= i < o.spec_len() && o.level@[i] < o.level@[e0]
                    implies #[trigger] self.parent_of(i) == o.parent_of(i) by {
                    if i != k {
                        assert(self.parent_of(i) == s.parent_of(i));
                    }
                }
                assert(self.parent_of(parent as int) == s.parent_of(parent as int));
                if (forall|j: int|
                    0 <= j < o.spec_len() ==> o.parent_of(j) == o.root_of(j)) {
                    assert(s.ids() == o.ids());
                    assert(s.parent_of(element as int) == o.parent_of(element as int));
                    base::lemma_root_basics(o.ids(), o.level@, o.level_cap@, element as int);
                    assert(o.parent_of(parent as int) == parent as int);
                    assert(s.parent_of(parent as int) == parent as int);
                    assert(grandparent == parent);
                    assert(self.ids() =~= o.ids());
                }
            }
            element = parent;
            parent = grandparent;
        }
        proof {
            assert(self.parent_of(element as int) == element as int);
            assert(self.root_of(element as int) == element as int);
            assert forall|i: int|
                0 <= i < o.spec_len() implies #[trigger] self.class_rank(i) == o.class_rank(i) by {
                base::lemma_root_basics(o.ids(), o.level@, o.level_cap@, i);
                let rt = o.root_of(i);
                assert(self.rank_at(rt) == o.rank_at(rt));
                assert(self.root_of(i) == rt);
            }
        }
        element
    }

    /// Converts an in-range index back to an element value.
    fn element_of(&self, index: usize) -> (r: Element)
        requires
            self.wf(),
            index < self.spec_len(),
        ensures
            r.idx_spec() == index,
    {
        match Element::from_usize(index) {
            Some(e) => e,
            None => {
                proof {
                    assert(false);
                }
                vstd::pervasive::unreached::<Element>()
            },
        }
    }

    /// Finds the representative element for the given element's set.
    ///
    /// On the way up, each visited element is redirected to its grandparent
    /// (path halving).  The partition is untouched, and no rank cell
    /// changes.
    pub fn find(&mut self, element: Element) -> (r: Element)
        requires
            old(self).wf(),
            element.idx_spec() < old(self).spec_len(),
        ensures
            final(self).wf(),
            unchanged_sets(*old(self), *final(self)),
            r.idx_spec() == old(self).root_of(element.idx_spec()),
            r.idx_spec() < old(self).spec_len(),
            final(self).parent_of(r.idx_spec()) == r.idx_spec(),
            final(self).root_of(r.idx_spec()) == r.idx_spec(),
            final(self).same_set(element.idx_spec(), r.idx_spec()),
            forall|i: int|
                0 <= i < old(self).spec_len() ==> #[trigger] final(self).rank_at(i) == old(
                    self,
                ).rank_at(i),
            forall|i: int|
                0 <= i < old(self).spec_len() && old(self).parent_of(i) == old(self).root_of(i)
                    ==> final(self).parent_of(i) == old(self).parent_of(i),
    {
        let e = element.to_usize();
        let root = self.find_root(e);
        proof {
            assert forall|i: int| 0 <= i < old(self).spec_len() implies #[trigger] self.rank_at(i)
                == old(self).rank_at(i) by {
                assert(self.rks()[i] == old(self).rks()[i]);
            }
            base::lemma_root_basics(self.ids(), self.level@, self.level_cap@, root as int);
        }
        self.element_of(root)
    }

    /// Joins the sets of the two given elements.
    ///
    /// Returns whether anything changed: `true` exactly when the two sets
    /// were different, so that this call is the one that merged them.
    ///
    /// The merged set's representative is decided by rank: the lower-ranked
    /// root is linked under the higher-ranked one, and on a tie the first
    /// argument's root is linked under the second argument's root, whose
    /// rank then grows by one.
    pub fn union(&mut self, a: Element, b: Element) -> (r: bool)
        requires
            old(self).wf(),
            a.idx_spec() < old(self).spec_len(),
            b.idx_spec() < old(self).spec_len(),
        ensures
            final(self).wf(),
            final(self).spec_len() == old(self).spec_len(),
            r == !old(self).same_set(a.idx_spec(), b.idx_spec()),
            forall|i: int, j: int|
                #![trigger final(self).root_of(i), final(self).root_of(j)]
                0 <= i < old(self).spec_len() && 0 <= j < old(self).spec_len() && old(
                    self,
                ).same_set(i, j) ==> final(self).same_set(i, j),
            ({
                let n = old(self).spec_len();
                let ra = old(self).root_of(a.idx_spec());
                let rb = old(self).root_of(b.idx_spec());
                if ra == rb {
                    &&& (forall|i: int|
                        0 <= i < n ==> #[trigger] final(self).root_of(i) == old(self).root_of(i))
                    &&& (forall|i: int|
                        0 <= i < n ==> #[trigger] final(self).class_rank(i) == old(
                            self,
                        ).class_rank(i))
                } else if old(self).class_rank(a.idx_spec()) > old(self).class_rank(b.idx_spec()) {
                    &&& (forall|i: int|
                        0 <= i < n ==> #[trigger] final(self).root_of(i) == (if old(self).root_of(i)
                            == rb {
                            ra
                        } else {
                            old(self).root_of(i)
                        }))
                    &&& (forall|i: int|
                        0 <= i < n ==> #[trigger] final(self).class_rank(i) == (if old(
                            self,
                        ).root_of(i) == rb {
                            old(self).class_rank(a.idx_spec())
                        } else {
                            old(self).class_rank(i)
                        }))
                } else if old(self).class_rank(b.idx_spec()) > old(self).class_rank(a.idx_spec()) {
                    &&& (forall|i: int|
                        0 <= i < n ==> #[trigger] final(self).root_of(i) == (if old(self).root_of(i)
                            == ra {
                            rb
                        } else {
                            old(self).root_of(i)
                        }))
                    &&& (forall|i: int|
                        0 <= i < n ==> #[trigger] final(self).class_rank(i) == (if old(
                            self,
                        ).root_of(i) == ra {
                            old(self).class_rank(b.idx_spec())
                        } else {
                            old(self).class_rank(i)
                        }))
                } else {
                    let nr = if old(self).class_rank(b.idx_spec()) < u8::MAX {
                        old(self).class_rank(b.idx_spec()) + 1
                    } else {
                        old(self).class_rank(b.idx_spec())
                    };
                    &&& (forall|i: int|
                        0 <= i < n ==> #[trigger] final(self).root_of(i) == (if old(self).root_of(i)
                            == ra {
                            rb
                        } else {
                            old(self).root_of(i)
                        }))
                    &&& (forall|i: int|
                        0 <= i < n ==> #[trigger] final(self).class_rank(i) == (if old(
                            self,
                        ).root_of(i) == ra || old(self).root_of(i) == rb {
                            nr
                        } else {
                            old(self).class_rank(i)
                        }))
                }
            }),
            final(self).roots_seq() == (if old(self).class_rank(a.idx_spec()) > old(
                self,
            ).class_rank(b.idx_spec()) {
                base::merged(old(self).roots_seq(), b.idx_spec(), a.idx_spec())
            } else {
                base::merged(old(self).roots_seq(), a.idx_spec(), b.idx_spec())
            }),
    {
        let ghost o = *self;
        let ghost a0: int = a.idx_spec();
        let ghost b0: int = b.idx_spec();
        let a_root = self.find_root(a.to_usize());
        let ghost s1 = *self;
        let b_root = self.find_root(b.to_usize());
        let ghost s2 = *self;
        proof {
            base::lemma_root_basics(o.ids(), o.level@, o.level_cap@, a0);
            base::lemma_root_basics(o.ids(), o.level@, o.level_cap@, b0);
            assert(a_root == o.root_of(a0));
            assert(s1.root_of(b0) == o.root_of(b0));
            assert(b_root == o.root_of(b0));
            assert(s1.parent_of(a_root as int) == a_root);
            base::lemma_root_basics(s1.ids(), s1.level@, s1.level_cap@, a_root as int);
            assert(s1.root_of(a_root as int) == a_root);
            assert(s2.parent_of(a_root as int) == a_root);
            assert forall|i: int| 0 <= i < o.spec_len() implies #[trigger] s2.root_of(i)
                == o.root_of(i) by {
                assert(s1.root_of(i) == o.root_of(i));
            }
            assert forall|i: int| 0 <= i < o.spec_len() implies #[trigger] s2.rank_at(i)
                == o.rank_at(i) by {
                assert(s1.rks()[i] == o.rks()[i]);
                assert(s2.rks()[i] == s1.rks()[i]);
            }
        }
        if a_root == b_root {
            proof {
                assert forall|i: int| 0 <= i < o.spec_len() implies #[trigger] self.root_of(i)
                    == o.root_of(i) by {}
                assert forall|i: int| 0 <= i < o.spec_len() implies #[trigger] self.class_rank(i)
                    == o.class_rank(i) by {
                    base::lemma_root_basics(o.ids(), o.level@, o.level_cap@, i);
                }
                assert_seqs_equal!(
                    self.roots_seq() == base::merged(o.roots_seq(), a0, b0),
                    i => {
                        assert(o.roots_seq()[a0] == o.root_of(a0));
                        assert(o.roots_seq()[b0] == o.root_of(b0));
                        assert(o.roots_seq()[i] == o.root_of(i));
                        assert(self.roots_seq()[i] == self.root_of(i));
                    }
                );
            }
            return false;
        }
        let rank_a = self.rank(a_root);
        let rank_b = self.rank(b_root);
        proof {
            assert(rank_a == o.class_rank(a0));
            assert(rank_b == o.class_rank(b0));
        }
        if rank_a > rank_b {
            self.link_roots(b_root, a_root);
            proof {
                let ra = o.root_of(a0);
                let rb = o.root_of(b0);
                assert forall|i: int| 0 <= i < o.spec_len() implies #[trigger] self.root_of(i)
                    == (if o.root_of(i) == rb {
                    ra
                } else {
                    o.root_of(i)
                }) by {
                    assert(s2.root_of(i) == o.root_of(i));
                }
                assert forall|i: int| 0 <= i < o.spec_len() implies #[trigger] self.class_rank(i)
                    == (if o.root_of(i) == rb {
                    o.class_rank(a0)
                } else {
                    o.class_rank(i)
                }) by {
                    base::lemma_root_basics(o.ids(), o.level@, o.level_cap@, i);
                    let rt = o.root_of(i);
                    assert(s2.root_of(i) == rt);
                    if rt == rb {
                        assert(self.root_of(i) == ra);
                        assert(self.rank_at(ra) == s2.rank_at(ra));
                    } else {
                        assert(self.root_of(i) == rt);
                        assert(self.rank_at(rt) == s2.rank_at(rt));
                    }
                }
                assert_seqs_equal!(
                    self.roots_seq() == base::merged(o.roots_seq(), b0, a0),
                    i => {
                        assert(o.roots_seq()[a0] == o.root_of(a0));
                        assert(o.roots_seq()[b0] == o.root_of(b0));
                        assert(o.roots_seq()[i] == o.root_of(i));
                        assert(self.roots_seq()[i] == self.root_of(i));
                    }
                );
            }
        } else if rank_b > rank_a {
            self.link_roots(a_root, b_root);
            proof {
                let ra = o.root_of(a0);
                let rb = o.root_of(b0);
                assert forall|i: int| 0 <= i < o.spec_len() implies #[trigger] self.root_of(i)
                    == (if o.root_of(i) == ra {
                    rb
                } else {
                    o.root_of(i)
                }) by {
                    assert(s2.root_of(i) == o.root_of(i));
                }
                assert forall|i: int| 0 <= i < o.spec_len() implies #[trigger] self.class_rank(i)
                    == (if o.root_of(i) == ra {
                    o.class_rank(b0)
                } else {
                    o.class_rank(i)
                }) by {
                    base::lemma_root_basics(o.ids(), o.level@, o.level_cap@, i);
                    let rt = o.root_of(i);
                    assert(s2.root_of(i) == rt);
                    if rt == ra {
                        assert(self.root_of(i) == rb);
                        assert(self.rank_at(rb) == s2.rank_at(rb));
                    } else {
                        assert(self.root_of(i) == rt);
                        assert(self.rank_at(rt) == s2.rank_at(rt));
                    }
                }
                assert_seqs_equal!(
                    self.roots_seq() == base::merged(o.roots_seq(), a0, b0),
                    i => {
                        assert(o.roots_seq()[a0] == o.root_of(a0));
                        assert(o.roots_seq()[b0] == o.root_of(b0));
                        assert(o.roots_seq()[i] == o.root_of(i));
                        assert(self.roots_seq()[i] == self.root_of(i));
                    }
                );
            }
        } else {
            self.link_roots(a_root, b_root);
            let ghost s3 = *self;
            proof {
                assert(s3.rank_at(b_root as int) == rank_b);
            }
            self.increment_rank(b_root);
            proof {
                let ra = o.root_of(a0);
                let rb = o.root_of(b0);
                let nr: int = if rank_b < u8::MAX {
                    rank_b + 1
                } else {
                    rank_b as int
                };
                assert forall|i: int| 0 <= i < o.spec_len() implies #[trigger] self.root_of(i)
                    == (if o.root_of(i) == ra {
                    rb
                } else {
                    o.root_of(i)
                }) by {
                    assert(s2.root_of(i) == o.root_of(i));
                    assert(s3.root_of(i) == (if s2.root_of(i) == ra {
                        rb
                    } else {
                        s2.root_of(i)
                    }));
                    assert(self.root_of(i) == s3.root_of(i));
                }
                assert forall|i: int| 0 <= i < o.spec_len() implies #[trigger] self.class_rank(i)
                    == (if o.root_of(i) == ra || o.root_of(i) == rb {
                    nr
                } else {
                    o.class_rank(i)
                }) by {
                    base::lemma_root_basics(o.ids(), o.level@, o.level_cap@, i);
                    let rt = o.root_of(i);
                    assert(s2.root_of(i) == rt);
                    if rt == ra || rt == rb {
                        assert(self.root_of(i) == rb);
                        assert(self.rank_at(rb as int) == nr);
                    } else {
                        assert(self.root_of(i) == rt);
                        assert(self.rank_at(rt) == s3.rank_at(rt));
                        assert(s3.rank_at(rt) == s2.rank_at(rt));
                    }
                }
                assert_seqs_equal!(
                    self.roots_seq() == base::merged(o.roots_seq(), a0, b0),
                    i => {
                        assert(o.roots_seq()[a0] == o.root_of(a0));
                        assert(o.roots_seq()[b0] == o.root_of(b0));
                        assert(o.roots_seq()[i] == o.root_of(i));
                        assert(self.roots_seq()[i] == self.root_of(i));
                    }
                );
            }
        }
        true
    }

    /// Determines whether two elements are in the same set.
    pub fn equiv(&mut self, a: Element, b: Element) -> (r: bool)
        requires
            old(self).wf(),
            a.idx_spec() < old(self).spec_len(),
            b.idx_spec() < old(self).spec_len(),
        ensures
            final(self).wf(),
            unchanged_sets(*old(self), *final(self)),
            r == old(self).same_set(a.idx_spec(), b.idx_spec()),
    {
        let ghost o = *self;
        let a_root = self.find_root(a.to_usize());
        let ghost s1 = *self;
        let b_root = self.find_root(b.to_usize());
        proof {
            assert(s1.root_of(b.idx_spec()) == o.root_of(b.idx_spec()));
            assert(b_root == o.root_of(b.idx_spec()));
            assert forall|i: int| 0 <= i < o.spec_len() implies #[trigger] self.root_of(i)
                == o.root_of(i) by {
                assert(s1.root_of(i) == o.root_of(i));
            }
            assert forall|i: int| 0 <= i < o.spec_len() implies #[trigger] self.class_rank(i)
                == o.class_rank(i) by {
                assert(s1.class_rank(i) == o.class_rank(i));
            }
        }
        a_root == b_root
    }

    /// Forces all laziness, so that each element points directly at its
    /// set's representative.  Purely an optimization pass: no set changes.
    #[verifier::loop_isolation(false)]
    pub fn force(&mut self)
        requires
            old(self).wf(),
        ensures
            final(self).wf(),
            unchanged_sets(*old(self), *final(self)),
            forall|i: int|
                0 <= i < old(self).spec_len()
                    ==> #[trigger] final(self).parent_of(i) == final(self).root_of(i),
            forall|i: int|
                0 <= i < old(self).spec_len() ==> #[trigger] final(self).rank_at(i) == old(
                    self,
                ).rank_at(i),
            (forall|i: int|
                0 <= i < old(self).spec_len() ==> old(self).parent_of(i) == old(self).root_of(i))
                ==> (forall|i: int|
                0 <= i < old(self).spec_len() ==> #[trigger] final(self).parent_of(i) == old(
                    self,
                ).parent_of(i)),
    {
        let ghost o = *self;
        let n = self.len();
        let mut i: usize = 0;
        while i < n
            invariant
                self.wf(),
                self.spec_len() == o.spec_len(),
                i <= n,
                unchanged_sets(o, *self),
                self.rks() == o.rks(),
                forall|j: int| 0 <= j < i ==> #[trigger] self.parent_of(j) == self.root_of(j),
                (forall|j: int|
                    0 <= j < o.spec_len() ==> o.parent_of(j) == o.root_of(j)) ==> self.ids()
                    == o.ids(),
            decreases n - i,
        {
            let ghost si = *self;
            let root = self.find_root(i);
            let ghost sb = *self;
            proof {
                assert(root == si.root_of(i as int));
                assert(sb.root_of(i as int) == root);
                assert(sb.parent_of(root as int) == root);
            }
            self.set_parent(i, root);
            proof {
                let p1 = sb.ids();
                let lv = sb.level@;
                let cap = sb.level_cap@;
                let p2 = self.ids();
                let k: int = i as int;
                let rt: int = root as int;
                assert(p2 == p1.update(k, rt));
                if rt == k {
                    assert(p2 =~= p1);
                    assert(self.wf());
                    assert forall|j: int| 0 <= j < p2.len() implies #[trigger] self.root_of(j)
                        == sb.root_of(j) by {
                        assert(self.ids() == sb.ids());
                    }
                } else {
                    base::lemma_root_basics(sb.ids(), sb.level@, sb.level_cap@, k);
                    assert(lv[k] < lv[rt]);
                    assert forall|x: int| 0 <= x < p2.len() implies 0 <= #[trigger] p2[x]
                        < p2.len() by {
                        if x != k {
                            assert(p2[x] == p1[x]);
                            assert(0 <= p1[x] < p1.len());
                        }
                    }
                    assert forall|x: int|
                        0 <= x < p2.len() && #[trigger] p2[x] != x implies lv[x] < lv[p2[x]] by {
                        if x != k {
                            assert(p2[x] == p1[x]);
                            assert(lv[x] < lv[p1[x]]);
                        }
                    }
                    assert(base::links_ok(p2, lv, cap));
                    assert(self.wf());
                    assert(sb.root_of(rt) == rt);
                    assert(sb.root_of(rt) == sb.root_of(k));
                    assert forall|j: int| 0 <= j < p2.len() implies #[trigger] self.root_of(j)
                        == sb.root_of(j) by {
                        base::lemma_root_redirect(p1, lv, cap, p2, lv, cap, k, rt, j);
                    }
                }
                assert(self.parent_of(k) == rt);
                assert(self.root_of(k) == sb.root_of(k));
                assert forall|j: int| 0 <= j < si.spec_len() implies #[trigger] self.class_rank(j)
                    == si.class_rank(j) by {
                    base::lemma_root_basics(si.ids(), si.level@, si.level_cap@, j);
                    let rj = si.root_of(j);
                    assert(self.rank_at(rj) == sb.rank_at(rj)) by {
                        assert(self.rks() == sb.rks());
                    }
                    assert(sb.rank_at(rj) == si.rank_at(rj)) by {
                        assert(sb.rks() == si.rks());
                    }
                    assert(sb.root_of(j) == si.root_of(j));
                    assert(self.root_of(j) == rj);
                }
                assert forall|j: int| 0 <= j < i + 1 implies #[trigger] self.parent_of(j)
                    == self.root_of(j) by {
                    if j < i {
                        assert(si.parent_of(j) == si.root_of(j));
                        assert(sb.parent_of(j) == si.parent_of(j));
                        assert(j != k);
                        assert(self.parent_of(j) == sb.parent_of(j));
                        assert(self.root_of(j) == sb.root_of(j));
                        assert(sb.root_of(j) == si.root_of(j));
                    }
                }
                assert(self.rks() == o.rks()) by {
                    assert(self.rks() == sb.rks());
                    assert(sb.rks() == si.rks());
                    assert(si.rks() == o.rks());
                }
                if (forall|j: int|
                    0 <= j < o.spec_len() ==> o.parent_of(j) == o.root_of(j)) {
                    assert(si.ids() == o.ids());
                    assert forall|j: int|
                        0 <= j < si.spec_len() implies #[trigger] si.parent_of(j) == si.root_of(
                        j,
                    ) by {
                        assert(si.ids()[j] == o.ids()[j]);
                        assert(si.root_of(j) == o.root_of(j));
                        assert(o.parent_of(j) == o.root_of(j));
                    }
                    assert(sb.ids() == si.ids());
                    assert(root as int == o.parent_of(i as int));
                    assert(self.ids() =~= o.ids());
                }
            }
            i = i + 1;
        }
        proof {
            assert forall|i: int| 0 <= i < o.spec_len() implies #[trigger] self.rank_at(i)
                == o.rank_at(i) by {
                assert(self.rks()[i] == o.rks()[i]);
            }
            if (forall|i: int|
                0 <= i < o.spec_len() ==> o.parent_of(i) == o.root_of(i)) {
                assert forall|i: int|
                    0 <= i < o.spec_len() implies #[trigger] self.parent_of(i) == o.parent_of(
                    i,
                ) by {
                    assert(self.ids()[i] == o.ids()[i]);
                }
            }
        }
    }

    /// Returns a vector of set representatives, one per element, after
    /// forcing the structure so that every element points straight at its
    /// root.
    #[verifier::loop_isolation(false)]
    pub fn to_vec(&mut self) -> (r: Vec<Element>)
        requires
            old(self).wf(),
        ensures
            final(self).wf(),
            unchanged_sets(*old(self), *final(self)),
            forall|i: int|
                0 <= i < old(self).spec_len()
                    ==> #[trigger] final(self).parent_of(i) == final(self).root_of(i),
            r@.len() == old(self).spec_len(),
            forall|i: int|
                0 <= i < old(self).spec_len() ==> (#[trigger] r@[i]).idx_spec() == old(
                    self,
                ).root_of(i),
            forall|i: int|
                0 <= i < old(self).spec_len() ==> 0 <= (#[trigger] r@[i]).idx_spec() < old(
                    self,
                ).spec_len() && old(self).root_of(r@[i].idx_spec()) == r@[i].idx_spec(),
            forall|i: int|
                0 <= i < old(self).spec_len() ==> #[trigger] final(self).rank_at(i) == old(
                    self,
                ).rank_at(i),
            (forall|i: int|
                0 <= i < old(self).spec_len() ==> old(self).parent_of(i) == old(self).root_of(i))
                ==> (forall|i: int|
                0 <= i < old(self).spec_len() ==> #[trigger] final(self).parent_of(i) == old(
                    self,
                ).parent_of(i)),
    {
        self.force();
        let n = self.len();
        let mut result: Vec<Element> = Vec::new();
        let mut i: usize = 0;
        while i < n
            invariant
                i <= n,
                result@.len() == i,
                forall|j: int| 0 <= j < i ==> (#[trigger] result@[j]).idx_spec() == self.root_of(j),
            decreases n - i,
        {
            let p = self.parent(i);
            proof {
                assert(p == self.parent_of(i as int));
                assert(self.parent_of(i as int) == self.root_of(i as int));
                assert(0 <= self.ids()[i as int] < self.spec_len());
            }
            let e = self.element_of(p);
            result.push(e);
            i = i + 1;
        }
        proof {
            assert forall|j: int|
                0 <= j < old(self).spec_len() implies 0 <= (#[trigger] result@[j]).idx_spec() < old(
                self,
            ).spec_len() && old(self).root_of(result@[j].idx_spec()) == result@[j].idx_spec() by {
                base::lemma_root_basics(old(self).ids(), old(self).level@, old(self).level_cap@, j);
                base::lemma_root_basics(
                    old(self).ids(),
                    old(self).level@,
                    old(self).level_cap@,
                    old(self).root_of(j),
                );
            }
        }
        result
    }

    /// Reads out the serialized form: each element's (id, rank) pair, in
    /// index order, with the rank widened to a full word.
    pub fn to_entries(&self) -> (r: Vec<(usize, usize)>)
        requires
            self.wf(),
        ensures
            r@.len() == self.spec_len(),
            forall|i: int|
                0 <= i < self.spec_len() ==> (#[trigger] r@[i]).0 == self.parent_of(i)
                    && r@[i].1 == self.rank_at(i),
    {
        let n = self.len();
        let mut result: Vec<(usize, usize)> = Vec::new();
        let mut i: usize = 0;
        while i < n
            invariant
                self.wf(),
                n == self.spec_len(),
                i <= n,
                result@.len() == i,
                forall|j: int|
                    0 <= j < i ==> (#[trigger] result@[j]).0 == self.parent_of(j)
                        && result@[j].1 == self.rank_at(j),
            decreases n - i,
        {
            let id = self.parent(i);
            let rank = self.rank(i);
            result.push((id, rank as usize));
            i = i + 1;
        }
        result
    }

    /// Rebuilds a structure from its serialized form: each element's
    /// (id, rank) pair, in index order.  Accepted exactly when the form is a
    /// forest whose size is representable in `Element`, every id in range,
    /// every rank fitting its cell, and every parent walk reaching a
    /// self-rooted entry (so a cyclic form is rejected, where `find` could
    /// never return).  `to_entries` always produces an accepted form.
    pub fn from_entries(pairs: &Vec<(usize, usize)>) -> (r: Option<UnionFind<Element>>)
        ensures
            r is Some <==> (pairs@.len() <= Element::count_spec() && (forall|i: int|
                0 <= i < pairs@.len() ==> ((#[trigger] pairs@[i]).0 < pairs@.len()
                    && pairs@[i].1 <= u8::MAX && base::depth_in(
                    base::entry_parents(pairs@),
                    i,
                    pairs@.len() as nat,
                ) is Some))),
            r matches Some(uf) ==> {
                &&& uf.wf()
                &&& uf.spec_len() == pairs@.len()
                &&& (forall|i: int|
                    0 <= i < pairs@.len() ==> #[trigger] uf.parent_of(i) == pairs@[i].0)
                &&& (forall|i: int|
                    0 <= i < pairs@.len() ==> #[trigger] uf.rank_at(i) == pairs@[i].1)
            },
    {
        let ghost pp = base::entry_parents(pairs@);
        let n = pairs.len();
        proof {
            Element::lemma_count_nonneg();
        }
        if n > 0 && Element::from_usize(n - 1).is_none() {
            return None;
        }
        let mut i: usize = 0;
        while i < n
            invariant
                i <= n,
                n == pairs@.len(),
                n <= Element::count_spec(),
                pp == base::entry_parents(pairs@),
                forall|j: int|
                    0 <= j < i ==> ((#[trigger] pairs@[j]).0 < n && pairs@[j].1 <= u8::MAX
                        && base::depth_in(pp, j, n as nat) is Some),
            decreases n - i,
        {
            let p = pairs[i];
            if p.0 >= n || p.1 > u8::MAX as usize {
                return None;
            }
            if !base::reaches_root(pairs, i) {
                return None;
            }
            i = i + 1;
        }
        let mut elements: Vec<usize> = Vec::new();
        let mut ranks: Vec<u8> = Vec::new();
        let mut j: usize = 0;
        while j < n
            invariant
                j <= n,
                n == pairs@.len(),
                n <= Element::count_spec(),
                pp == base::entry_parents(pairs@),
                elements@.len() == j,
                ranks@.len() == j,
                forall|k: int|
                    0 <= k < n ==> ((#[trigger] pairs@[k]).0 < n && pairs@[k].1 <= u8::MAX
                        && base::depth_in(pp, k, n as nat) is Some),
                forall|k: int|
                    0 <= k < j ==> (#[trigger] elements@[k] == pairs@[k].0 && ranks@[k]
                        == pairs@[k].1),
            decreases n - j,
        {
            let p = pairs[j];
            elements.push(p.0);
            ranks.push(p.1 as u8);
            j = j + 1;
        }
        let uf = UnionFind {
            elements,
            ranks,
            level: Ghost(
                Seq::new(
                    n as nat,
                    |k: int| (n - base::depth_in(
                        base::entry_parents(pairs@),
                        k,
                        n as nat,
                    )->0) as nat,
                ),
            ),
            level_cap: Ghost(n as nat),
            marker: PhantomData,
        };
        proof {
            assert forall|k: int| 0 <= k < n implies #[trigger] uf.ids()[k] == pairs@[k].0 by {
                assert(uf.elements@[k] == pairs@[k].0);
            }
            assert(uf.ids() =~= pp);
            assert forall|k: int| 0 <= k < n implies #[trigger] uf.level@[k] <= uf.level_cap@ by {
                base::lemma_depth_bound(pp, k, n as nat);
            }
            assert forall|k: int|
                0 <= k < n && #[trigger] uf.ids()[k] != k implies uf.level@[k]
                < uf.level@[uf.ids()[k]] by {
                base::lemma_depth_bound(pp, k, n as nat);
                base::lemma_depth_step(pp, k, n as nat);
                base::lemma_depth_bound(pp, pp[k], n as nat);
            }
            assert(base::links_ok(uf.ids(), uf.level@, uf.level_cap@));
            assert forall|k: int| 0 <= k < n implies #[trigger] uf.rank_at(k) == pairs@[k].1 by {
                assert(uf.ranks@[k] == pairs@[k].1);
            }
        }
        Some(uf)
    }

    /// A representative is a member of the set it represents: every
    /// element's root lies in range, is its own parent, and is its own
    /// representative, so `find`'s result shares a set with its argument.
    pub proof fn lemma_representative(self, i: int)
        requires
            self.wf(),
            0 <= i < self.spec_len(),
        ensures
            0 <= self.root_of(i) < self.spec_len(),
            self.parent_of(self.root_of(i)) == self.root_of(i),
            self.root_of(self.root_of(i)) == self.root_of(i),
            self.same_set(i, self.root_of(i)),
    {
        base::lemma_root_basics(self.ids(), self.level@, self.level_cap@, i);
        base::lemma_root_basics(self.ids(), self.level@, self.level_cap@, self.root_of(i));
    }

    /// Being in the same set is an equivalence relation on the elements:
    /// reflexive, symmetric and transitive.  Through `equiv`'s contract the
    /// same holds of the answers `equiv` returns.
    pub proof fn lemma_same_set_equivalence(self, a: int, b: int, c: int)
        requires
            self.wf(),
            0 <= a < self.spec_len(),
            0 <= b < self.spec_len(),
            0 <= c < self.spec_len(),
        ensures
            self.same_set(a, a),
            self.same_set(a, b) == self.same_set(b, a),
            self.same_set(a, b) && self.same_set(b, c) ==> self.same_set(a, c),
    {
    }

    /// The partition sequence and `same_set` agree: two elements share a set
    /// exactly when the sequence assigns them the same representative.  This
    /// connects `union`'s sequence-level contract with the pairwise laws in
    /// [`crate::base`].
    pub proof fn lemma_roots_seq_same_set(self, a: int, b: int)
        requires
            0 <= a < self.spec_len(),
            0 <= b < self.spec_len(),
        ensures
            base::same_class(self.roots_seq(), a, b) == self.same_set(a, b),
    {
        assert(self.roots_seq()[a] == self.root_of(a));
        assert(self.roots_seq()[b] == self.root_of(b));
    }

    /// Union monotonicity: an operation whose effect on the partition is the
    /// merge of two sets (in either link direction, as `union` ensures)
    /// never separates elements that already shared a set.
    pub proof fn lemma_union_monotone(
        pre: UnionFind<Element>,
        post: UnionFind<Element>,
        x: int,
        y: int,
        i: int,
        j: int,
    )
        requires
            0 <= x < pre.spec_len(),
            0 <= y < pre.spec_len(),
            0 <= i < pre.spec_len(),
            0 <= j < pre.spec_len(),
            post.spec_len() == pre.spec_len(),
            post.roots_seq() == base::merged(pre.roots_seq(), x, y) || post.roots_seq()
                == base::merged(pre.roots_seq(), y, x),
            pre.same_set(i, j),
        ensures
            post.same_set(i, j),
    {
        pre.lemma_roots_seq_same_set(i, j);
        post.lemma_roots_seq_same_set(i, j);
        base::lemma_merged_monotone(pre.roots_seq(), x, y, i, j);
        base::lemma_merged_monotone(pre.roots_seq(), y, x, i, j);
    }
}

impl<Element: ElementType> Default for UnionFind<Element> {
    /// The empty union-find, which every element type has room for.
    fn default() -> (r: UnionFind<Element>)
        ensures
            r.wf(),
            r.spec_len() == 0,
    {
        proof {
            Element::lemma_count_nonneg();
        }
        UnionFind::new(0)
    }
}

impl<Element: ElementType> Clone for UnionFind<Element> {
    /// An independent copy presenting the same elements, parents and ranks
    /// (and so the same partition).
    fn clone(&self) -> (r: Self)
        ensures
            r.spec_len() == self.spec_len(),
            forall|i: int|
                0 <= i < self.spec_len() ==> #[trigger] r.parent_of(i) == self.parent_of(i),
            forall|i: int|
                0 <= i < self.spec_len() ==> #[trigger] r.rank_at(i) == self.rank_at(i),
            self.wf() ==> r.wf() && (forall|i: int|
                0 <= i < self.spec_len() ==> #[trigger] r.root_of(i) == self.root_of(i)),
    {
        let n = self.elements.len();
        let mut elements: Vec<usize> = Vec::new();
        let mut ranks: Vec<u8> = Vec::new();
        let mut i: usize = 0;
        while i < n
            invariant
                i <= n,
                n == self.elements@.len(),
                elements@.len() == i,
                forall|j: int| 0 <= j < i ==> #[trigger] elements@[j] == self.elements@[j],
            decreases n - i,
        {
            elements.push(self.elements[i]);
            i = i + 1;
        }
        let m = self.ranks.len();
        let mut k: usize = 0;
        while k < m
            invariant
                k <= m,
                m == self.ranks@.len(),
                ranks@.len() == k,
                forall|j: int| 0 <= j < k ==> #[trigger] ranks@[j] == self.ranks@[j],
            decreases m - k,
        {
            ranks.push(self.ranks[k]);
            k = k + 1;
        }
        let r = UnionFind {
            elements,
            ranks,
            level: Ghost(self.level@),
            level_cap: Ghost(self.level_cap@),
            marker: PhantomData,
        };
        proof {
            assert(r.elements@ =~= self.elements@);
            assert(r.ranks@ =~= self.ranks@);
            assert(r.ids() =~= self.ids());
            assert(r.rks() =~= self.rks());
        }
        r
    }
}

} // verus!