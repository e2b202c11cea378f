//! Union-find whose entries keep the parent id and the rank in two separate
//! cells.
//!
//! This is the sibling design of [`crate::concurrent`]: the same algorithm —
//! union by rank, path halving, every parent change a compare-and-swap — but
//! an element's id and rank live in two independent cells, so the two fields
//! cannot be read or written as one unit.  The packed representation is the
//! preferred design for exactly that reason; this one is kept as the simpler
//! variant.  Since only the parent id ever decides the partition, and the
//! rank is read only at roots to pick a link direction, the partition
//! contracts here are as exact as the packed structure's.
//!
//! There is no capacity bound: the id cell is a full word.

use vstd::prelude::*;
use vstd::seq_lib::assert_seqs_equal;

use crate::base;

verus! {

/// One element's state: its parent id and its rank, in two separate cells.
/// The rank is meaningful only while the element is a root.
#[derive(Clone, Copy)]
struct Entry {
    id: usize,
    rank: usize,
}

impl Entry {
    fn new(id: usize, rank: usize) -> (r: Self)
        ensures
            r.id == id,
            r.rank == rank,
    {
        Entry { id, rank }
    }
}

/// Union-find over the fixed universe `0 .. len()`, with each element's
/// parent id and rank stored in separate cells.
///
/// The partition it represents is described by [`AUnionFind::root_of`]: the
/// representative reached by following parent ids from an element.  All
/// operations preserve or merge the sets of that partition; none ever splits
/// a set.
pub struct AUnionFind {
    entries: Vec<Entry>,
    /// Termination witness: a measure that strictly increases along every
    /// parent link, so every parent walk reaches a root.
    level: Ghost<Seq<nat>>,
    /// Upper bound of all levels.
    level_cap: Ghost<nat>,
}

impl AUnionFind {
    /// The number of elements.
    pub closed spec fn spec_len(self) -> int {
        self.entries@.len() as int
    }

    /// The parent ids, as a sequence.
    closed spec fn ids(self) -> Seq<int> {
        Seq::new(self.entries@.len() as nat, |i: int| self.entries@[i].id as int)
    }

    /// The stored ranks, as a sequence.
    closed spec fn rks(self) -> Seq<int> {
        Seq::new(self.entries@.len() as nat, |i: int| self.entries@[i].rank as int)
    }

    /// Well-formedness: parent ids stay in range and every parent walk
    /// terminates (witnessed by the ghost levels).
    pub closed spec fn wf(self) -> bool {
        base::links_ok(self.ids(), self.level@, self.level_cap@)
    }

    /// The stored parent id of element `i`.
    pub closed spec fn parent_of(self, i: int) -> int {
        self.ids()[i]
    }

    /// The stored rank of element `i`; meaningful only when `i` is a root.
    pub closed spec fn rank_at(self, i: int) -> int {
        self.rks()[i]
    }

    /// The representative of `i`'s set: the root reached from `i` along
    /// parent ids.
    pub closed spec fn root_of(self, i: int) -> int {
        base::root_in(self.ids(), self.level@, self.level_cap@, i)
    }

    /// Whether `a` and `b` are in the same set.
    pub open spec fn same_set(self, a: int, b: int) -> bool {
        self.root_of(a) == self.root_of(b)
    }

    /// The rank of the root of `i`'s set.
    pub open spec fn class_rank(self, i: int) -> int {
        self.rank_at(self.root_of(i))
    }

    /// The whole partition, as the sequence assigning each element its
    /// representative.
    pub open spec fn roots_seq(self) -> Seq<int> {
        Seq::new(self.spec_len() as nat, |i: int| self.root_of(i))
    }
}

/// The two states present the same partition, with the same representatives
/// and the same root ranks: only the shape of the trees may differ.
pub open spec fn unchanged_sets(pre: AUnionFind, post: AUnionFind) -> bool {
    &&& post.spec_len() == pre.spec_len()
    &&& (forall|i: int| 0 <= i < pre.spec_len() ==> post.root_of(i) == pre.root_of(i))
    &&& (forall|i: int| 0 <= i < pre.spec_len() ==> post.class_rank(i) == pre.class_rank(i))
}

impl AUnionFind {
    /// Creates a new union-find of `size` elements, each its own singleton
    /// set.
    pub fn new(size: usize) -> (r: AUnionFind)
        ensures
            r.wf(),
            r.spec_len() == size,
            forall|i: int| 0 <= i < size ==> #[trigger] r.parent_of(i) == i,
            forall|i: int| 0 <= i < size ==> #[trigger] r.root_of(i) == i,
            forall|i: int| 0 <= i < size ==> #[trigger] r.rank_at(i) == 0,
    {
        let mut entries: Vec<Entry> = Vec::new();
        let mut i: usize = 0;
        while i < size
            invariant
                i <= size,
                entries@.len() == i,
                forall|j: int|
                    0 <= j < i ==> (#[trigger] entries@[j]).id == j && entries@[j].rank == 0,
            decreases size - i,
        {
            entries.push(Entry::new(i, 0));
            i = i + 1;
        }
        let uf = AUnionFind {
            entries,
            level: Ghost(Seq::new(size as nat, |j: int| 0nat)),
            level_cap: Ghost(0nat),
        };
        proof {
            assert forall|j: int| 0 <= j < size implies #[trigger] uf.ids()[j] == j by {
                assert(uf.entries@[j].id == j);
            }
            assert(base::links_ok(uf.ids(), uf.level@, uf.level_cap@));
            assert forall|j: int| 0 <= j < size implies #[trigger] uf.root_of(j) == j by {
                assert(uf.ids()[j] == j);
            }
            assert forall|j: int| 0 <= j < size implies #[trigger] uf.rank_at(j) == 0 by {
                assert(uf.entries@[j].rank == 0);
            }
        }
        uf
    }

    /// The number of elements in all the sets.
    pub fn len(&self) -> (r: usize)
        ensures
            r == self.spec_len(),
    {
        self.entries.len()
    }

    /// Is the union-find devoid of elements?
    ///
    /// It is possible to create an empty `AUnionFind`, but it is not
    /// possible to add elements afterwards.
    pub fn is_empty(&self) -> (r: bool)
        ensures
            r == (self.spec_len() == 0),
    {
        self.entries.len() == 0
    }

    /// Reads one element's stored rank.
    fn rank(&self, element: usize) -> (r: usize)
        requires
            element < self.spec_len(),
        ensures
            r == self.rank_at(element as int),
    {
        self.entries[element].rank
    }

    /// Reads one element's stored parent id.
    fn parent(&self, element: usize) -> (r: usize)
        requires
            element < self.spec_len(),
        ensures
            r == self.parent_of(element as int),
    {
        self.entries[element].id
    }

    /// Attempts the single mutation step on one element's parent cell:
    /// replace it with `new_parent` if and only if it still holds exactly
    /// `old_parent`.  The rank cell is untouched.
    fn change_parent(&mut self, element: usize, old_parent: usize, new_parent: usize) -> (r: bool)
        requires
            element < old(self).spec_len(),
            new_parent < old(self).spec_len(),
        ensures
            final(self).spec_len() == old(self).spec_len(),
            final(self).level@ == old(self).level@,
            final(self).level_cap@ == old(self).level_cap@,
            final(self).rks() == old(self).rks(),
            r == (old(self).parent_of(element as int) == old_parent),
            r ==> final(self).ids() == old(self).ids().update(element as int, new_parent as int),
            !r ==> final(self).ids() == old(self).ids() && final(self).entries@ == old(
                self,
            ).entries@,
    {
        proof {
            assert(old(self).parent_of(element as int) == old(self).entries@[element as int].id);
        }
        let mut cell = self.entries[element];
        if cell.id == old_parent {
            cell.id = new_parent;
            self.entries[element] = cell;
            proof {
                assert_seqs_equal!(
                    self.ids() == old(self).ids().update(element as int, new_parent as int)
                );
                assert_seqs_equal!(self.rks() == old(self).rks());
            }
            true
        } else {
            proof {
                assert_seqs_equal!(self.rks() == old(self).rks());
            }
            false
        }
    }

    /// Bumps one element's rank cell, leaving it alone at the top of its
    /// range.  The rank of a non-root is inert, so no caller depends on a
    /// missed increment.
    fn increment_rank(&mut self, element: usize)
        requires
            element < old(self).spec_len(),
        ensures
            final(self).spec_len() == old(self).spec_len(),
            final(self).level@ == old(self).level@,
            final(self).level_cap@ == old(self).level_cap@,
            final(self).ids() == old(self).ids(),
            forall|i: int|
                0 <= i < old(self).spec_len() ==> #[trigger] final(self).root_of(i) == old(
                    self,
                ).root_of(i),
            final(self).rank_at(element as int) == (if old(self).rank_at(element as int)
                < usize::MAX {
                old(self).rank_at(element as int) + 1
            } else {
                old(self).rank_at(element as int)
            }),
            forall|i: int|
                0 <= i < old(self).spec_len() && i != element ==> #[trigger] final(self).rank_at(i)
                    == old(self).rank_at(i),
    {
        let mut cell = self.entries[element];
        if cell.rank < usize::MAX {
            cell.rank = cell.rank + 1;
            self.entries[element] = cell;
        }
        proof {
            assert_seqs_equal!(self.ids() == old(self).ids());
            assert forall|i: int| 0 <= i < old(self).spec_len() implies #[trigger] self.root_of(i)
                == old(self).root_of(i) by {
                assert(self.level@ == old(self).level@);
            }
            assert(self.rks()[element as int] == self.entries@[element as int].rank);
            assert forall|i: int|
                0 <= i < old(self).spec_len() && i != element implies #[trigger] self.rank_at(i)
                == old(self).rank_at(i) by {
                assert(self.entries@[i] == old(self).entries@[i]);
            }
        }
    }

    /// Links the root `loser` under the distinct root `winner` by one
    /// compare-and-swap of the loser's parent cell.  Also raises the ghost
    /// level of the winner above the loser's, which keeps every parent walk
    /// terminating.
    fn link_roots(&mut self, loser: usize, winner: usize) -> (r: bool)
        requires
            old(self).wf(),
            loser < old(self).spec_len(),
            winner < old(self).spec_len(),
            loser != winner,
            old(self).parent_of(loser as int) == loser,
            old(self).parent_of(winner as int) == winner,
        ensures
            r,
            final(self).wf(),
            final(self).spec_len() == old(self).spec_len(),
            forall|i: int|
                0 <= i < old(self).spec_len() ==> #[trigger] final(self).root_of(i) == (if old(
                    self,
                ).root_of(i) == loser {
                    winner as int
                } else {
                    old(self).root_of(i)
                }),
            forall|i: int|
                0 <= i < old(self).spec_len() ==> #[trigger] final(self).rank_at(i) == old(
                    self,
                ).rank_at(i),
            forall|i: int|
                0 <= i < old(self).spec_len() && i != loser ==> #[trigger] final(self).parent_of(i)
                    == old(self).parent_of(i),
            final(self).parent_of(loser as int) == winner,
    {
        let r = self.change_parent(loser, loser, winner);
        proof {
            let p1 = old(self).ids();
            let lv = old(self).level@;
            let cap = old(self).level_cap@;
            let li: int = loser as int;
            let wi: int = winner as int;
            let bump: nat = if lv[li] + 1 > lv[wi] {
                (lv[li] + 1) as nat
            } else {
                lv[wi]
            };
            self.level@ = lv.update(wi, bump);
            self.level_cap@ = if bump > cap {
                bump
            } else {
                cap
            };
            let p2 = self.ids();
            let lv2 = self.level@;
            let cap2 = self.level_cap@;
            assert(p2 == p1.update(li, wi as int));
            assert forall|i: int| 0 <= i < p2.len() implies 0 <= #[trigger] p2[i] < p2.len() by {
                if i != li {
                    assert(p2[i] == p1[i]);
                    assert(0 <= p1[i] < p1.len());
                }
            }
            assert forall|i: int| 0 <= i < p2.len() implies #[trigger] lv2[i] <= cap2 by {
                if i != wi {
                    assert(lv2[i] == lv[i]);
                    assert(lv[i] <= cap);
                }
            }
            assert forall|i: int| 0 <= i < p2.len() && #[trigger] p2[i] != i implies lv2[i]
                < lv2[p2[i]] by {
                if i == li {
                    assert(p2[i] == wi);
                    assert(lv2[li] == lv[li]);
                    assert(lv2[wi] == bump);
                } else if i == wi {
                    assert(p2[wi] == p1[wi]);
                    assert(p1[wi] == wi);
                } else {
                    assert(p2[i] == p1[i]);
                    assert(lv[i] < lv[p1[i]]);
                    assert(lv2[i] == lv[i]);
                    if p1[i] == wi {
                        assert(lv2[wi] == bump);
                        assert(bump >= lv[wi]);
                    } else {
                        assert(lv2[p1[i]] == lv[p1[i]]);
                    }
                }
            }
            assert(base::links_ok(p2, lv2, cap2));
            assert forall|j: int| 0 <= j < p2.len() implies #[trigger] self.root_of(j) == (if old(
                self,
            ).root_of(j) == li {
                wi
            } else {
                old(self).root_of(j)
            }) by {
                base::lemma_root_link(p1, lv, cap, p2, lv2, cap2, li, wi, j);
            }
        }
        r
    }

    /// The walk that `find` performs, with the detailed contract the other
    /// operations build on: each visited element is redirected to its
    /// grandparent by a best-effort compare-and-swap of its parent cell
    /// (path halving).  The partition is untouched, and no rank cell
    /// changes.
    fn find_root(&mut self, element: usize) -> (r: usize)
        requires
            old(self).wf(),
            element < old(self).spec_len(),
        ensures
            final(self).wf(),
            unchanged_sets(*old(self), *final(self)),
            final(self).level@ == old(self).level@,
            final(self).level_cap@ == old(self).level_cap@,
            final(self).rks() == old(self).rks(),
            old(self).parent_of(element as int) == element ==> final(self).entries@ == old(
                self,
            ).entries@,
            r == old(self).root_of(element as int),
            r < old(self).spec_len(),
            final(self).parent_of(r as int) == r,
            forall|i: int|
                0 <= i < old(self).spec_len() && old(self).parent_of(i) == old(self).root_of(i)
                    ==> final(self).parent_of(i) == old(self).parent_of(i),
            forall|i: int|
                0 <= i < old(self).spec_len() && old(self).level@[i] < old(self).level@[element as int]
                    ==> final(self).parent_of(i) == old(self).parent_of(i),
    {
        let ghost o = *self;
        let ghost e0: int = element as int;
        let mut element: usize = element;
        let mut parent: usize = self.parent(element);
        while element != parent
            invariant
                o.wf(),
                self.wf(),
                o.spec_len() == self.spec_len(),
                self.level@ == o.level@,
                self.level_cap@ == o.level_cap@,
                self.rks() == o.rks(),
                element < self.spec_len(),
                0 <= e0 < o.spec_len(),
                parent == self.parent_of(element as int),
                parent < self.spec_len(),
                o.level@[e0] <= self.level@[element as int],
                o.parent_of(e0) == e0 ==> element == e0 && self.entries@ == o.entries@,
                self.root_of(element as int) == o.root_of(e0),
                forall|i: int|
                    0 <= i < o.spec_len() ==> #[trigger] self.root_of(i) == o.root_of(i),
                forall|i: int|
                    0 <= i < o.spec_len() && o.parent_of(i) == o.root_of(i)
                        ==> #[trigger] self.parent_of(i) == o.parent_of(i),
                forall|i: int|
                    0 <= i < o.spec_len() && o.level@[i] < o.level@[e0]
                        ==> #[trigger] self.parent_of(i) == o.parent_of(i),
            decreases self.level_cap@ - self.level@[element as int],
        {
            let grandparent = self.parent(parent);
            let ghost s = *self;
            proof {
                if o.parent_of(e0) == e0 {
                    assert(self.entries@[e0] == o.entries@[e0]);
                    assert(self.ids()[e0] == self.entries@[e0].id as int);
                    assert(o.ids()[e0] == o.entries@[e0].id as int);
                    assert(false);
                }
                assert(s.ids()[element as int] == parent as int);
                assert(s.level@[element as int] < s.level@[parent as int]);
                if s.parent_of(parent as int) == parent as int {
                    assert(grandparent == parent);
                } else {
                    assert(s.ids()[parent as int] == grandparent as int);
                    assert(s.level@[parent as int] < s.level@[grandparent as int]);
                }
                assert(s.level@[element as int] < s.level@[grandparent as int]);
            }
            let swapped = self.change_parent(element, parent, grandparent);
            proof {
                assert(swapped);
                let p1 = s.ids();
                let lv = s.level@;
                let cap = s.level_cap@;
                let p2 = self.ids();
                let k: int = element as int;
                let b: int = grandparent as int;
                assert(p2 == p1.update(k, b));
                assert(b != k);
                assert forall|i: int| 0 <= i < p2.len() implies 0 <= #[trigger] p2[i] < p2.len() by {
                    if i != k {
                        assert(p2[i] == p1[i]);
                        assert(0 <= p1[i] < p1.len());
                    }
                }
                assert forall|i: int|
                    0 <= i < p2.len() && #[trigger] p2[i] != i implies lv[i] < lv[p2[i]] by {
                    if i != k {
                        assert(p2[i] == p1[i]);
                        assert(lv[i] < lv[p1[i]]);
                    }
                }
                assert(base::links_ok(p2, lv, cap));
                assert(self.wf());
                assert(base::root_in(p1, lv, cap, k) == base::root_in(p1, lv, cap, parent as int));
                assert(base::root_in(p1, lv, cap, parent as int) == base::root_in(p1, lv, cap, b));
                assert forall|j: int| 0 <= j < p2.len() implies #[trigger] self.root_of(j)
                    == s.root_of(j) by {
                    base::lemma_root_redirect(p1, lv, cap, p2, lv, cap, k, b, j);
                }
                // an element already pointing at its root keeps that parent
                assert forall|i: int|
                    0 <= i < o.spec_len() && o.parent_of(i) == o.root_of(i)
                    implies #[trigger] self.parent_of(i) == o.parent_of(i) by {
                    if i == k {
                        base::lemma_root_basics(o.ids(), o.level@, o.level_cap@, i);
                        let rt = o.root_of(i);
                        assert(s.parent_of(i) == o.parent_of(i));
                        assert(parent as int == rt);
                        assert(o.parent_of(rt) == rt);
                        assert(s.parent_of(rt) == rt);
                        assert(grandparent == parent);
                        assert(self.parent_of(i) == b);
                    } else {
                        assert(self.parent_of(i) == s.parent_of(i));
                    }
                }
                assert forall|i: int|
                    0 <= i < o.spec_len() && o.level@[i] < o.level@[e0]
                    implies #[trigger] self.parent_of(i) == o.parent_of(i) by {
                    if i != k {
                        assert(self.parent_of(i) == s.parent_of(i));
                    }
                }
                assert(self.parent_of(parent as int) == s.parent_of(parent as int));
            }
            element = parent;
            parent = grandparent;
        }
        proof {
            assert(self.parent_of(element as int) == element as int);
            assert(self.root_of(element as int) == element as int);
            assert forall|i: int|
                0 <= i < o.spec_len() implies #[trigger] self.class_rank(i) == o.class_rank(i) by {
                base::lemma_root_basics(o.ids(), o.level@, o.level_cap@, i);
                let rt = o.root_of(i);
                assert(self.rank_at(rt) == o.rank_at(rt));
                assert(self.root_of(i) == rt);
            }
        }
        element
    }

    /// Finds the representative element for the given element's set.
    ///
    /// On the way up, each visited element is redirected to its grandparent
    /// by a best-effort compare-and-swap of its parent cell (path halving).
    /// The partition is untouched, and no rank cell changes.
    pub fn find(&mut self, element: usize) -> (r: usize)
        requires
            old(self).wf(),
            element < old(self).spec_len(),
        ensures
            final(self).wf(),
            unchanged_sets(*old(self), *final(self)),
            r == old(self).root_of(element as int),
            r < old(self).spec_len(),
            final(self).parent_of(r as int) == r,
            final(self).root_of(r as int) == r,
            final(self).same_set(element as int, r as int),
            forall|i: int|
                0 <= i < old(self).spec_len() ==> #[trigger] final(self).rank_at(i) == old(
                    self,
                ).rank_at(i),
            forall|i: int|
                0 <= i < old(self).spec_len() && old(self).parent_of(i) == old(self).root_of(i)
                    ==> final(self).parent_of(i) == old(self).parent_of(i),
    {
        let r = self.find_root(element);
        proof {
            base::lemma_root_basics(self.ids(), self.level@, self.level_cap@, r as int);
        }
        proof {
            assert forall|i: int| 0 <= i < old(self).spec_len() implies #[trigger] self.rank_at(i)
                == old(self).rank_at(i) by {
                assert(self.rks()[i] == old(self).rks()[i]);
            }
        }
        r
    }

    /// Joins the sets of the two given elements.
    ///
    /// Returns whether anything changed: `true` exactly when the two sets
    /// were different, so that this call is the one that merged them.
    ///
    /// The merged set's representative is decided by rank: the lower-ranked
    /// root is linked under the higher-ranked one, and on a tie the first
    /// argument's root is linked under the second argument's root, whose rank
    /// then grows by one.  A linking compare-and-swap that found its root
    /// already changed would restart the whole operation from re-finding
    /// both roots.
    #[verifier::loop_isolation(false)]
    pub fn union(&mut self, a: usize, b: usize) -> (r: bool)
        requires
            old(self).wf(),
            a < old(self).spec_len(),
            b < old(self).spec_len(),
        ensures
            final(self).wf(),
            final(self).spec_len() == old(self).spec_len(),
            r == !old(self).same_set(a as int, b as int),
            forall|i: int, j: int|
                #![trigger final(self).root_of(i), final(self).root_of(j)]
                0 <= i < old(self).spec_len() && 0 <= j < old(self).spec_len() && old(
                    self,
                ).same_set(i, j) ==> final(self).same_set(i, j),
            ({
                let n = old(self).spec_len();
                let ra = old(self).root_of(a as int);
                let rb = old(self).root_of(b as int);
                if ra == rb {
                    &&& (forall|i: int|
                        0 <= i < n ==> #[trigger] final(self).root_of(i) == old(self).root_of(i))
                    &&& (forall|i: int|
                        0 <= i < n ==> #[trigger] final(self).class_rank(i) == old(
                            self,
                        ).class_rank(i))
                } else if old(self).class_rank(a as int) > old(self).class_rank(b as int) {
                    &&& (forall|i: int|
                        0 <= i < n ==> #[trigger] final(self).root_of(i) == (if old(self).root_of(i)
                            == rb {
                            ra
                        } else {
                            old(self).root_of(i)
                        }))
                    &&& (forall|i: int|
                        0 <= i < n ==> #[trigger] final(self).class_rank(i) == (if old(
                            self,
                        ).root_of(i) == rb {
                            old(self).class_rank(a as int)
                        } else {
                            old(self).class_rank(i)
                        }))
                } else if old(self).class_rank(b as int) > old(self).class_rank(a as int) {
                    &&& (forall|i: int|
                        0 <= i < n ==> #[trigger] final(self).root_of(i) == (if old(self).root_of(i)
                            == ra {
                            rb
                        } else {
                            old(self).root_of(i)
                        }))
                    &&& (forall|i: int|
                        0 <= i < n ==> #[trigger] final(self).class_rank(i) == (if old(
                            self,
                        ).root_of(i) == ra {
                            old(self).class_rank(b as int)
                        } else {
                            old(self).class_rank(i)
                        }))
                } else {
                    let nr = if old(self).class_rank(b as int) < usize::MAX {
                        old(self).class_rank(b as int) + 1
                    } else {
                        old(self).class_rank(b as int)
                    };
                    &&& (forall|i: int|
                        0 <= i < n ==> #[trigger] final(self).root_of(i) == (if old(self).root_of(i)
                            == ra {
                            rb
                        } else {
                            old(self).root_of(i)
                        }))
                    &&& (forall|i: int|
                        0 <= i < n ==> #[trigger] final(self).class_rank(i) == (if old(
                            self,
                        ).root_of(i) == ra || old(self).root_of(i) == rb {
                            nr
                        } else {
                            old(self).class_rank(i)
                        }))
                }
            }),
            final(self).roots_seq() == (if old(self).class_rank(a as int) > old(self).class_rank(
                b as int,
            ) {
                base::merged(old(self).roots_seq(), b as int, a as int)
            } else {
                base::merged(old(self).roots_seq(), a as int, b as int)
            }),
    {
        let ghost o = *self;
        let ghost a0: int = a as int;
        let ghost b0: int = b as int;
        let mut a: usize = a;
        let mut b: usize = b;
        // Through a unique reference no interleaved mutation exists, so the
        // re-loaded representative is proven to still be a root and every
        // pass through this retry loop returns: the back edge is
        // unreachable.
        loop
            invariant
                *self == o,
                a == a0,
                b == b0,
            decreases 0int,
        {
            a = self.find(a);
            let ghost s1 = *self;
            b = self.find(b);
            let ghost s2 = *self;
            proof {
                base::lemma_root_basics(o.ids(), o.level@, o.level_cap@, a0);
                base::lemma_root_basics(o.ids(), o.level@, o.level_cap@, b0);
                assert(a == o.root_of(a0));
                assert(s1.root_of(b0) == o.root_of(b0));
                assert(b == o.root_of(b0));
                // the first representative is still a root after the second
                // find
                assert(s1.parent_of(a as int) == a);
                base::lemma_root_basics(s1.ids(), s1.level@, s1.level_cap@, a as int);
                assert(s1.root_of(a as int) == a);
                assert(s2.parent_of(a as int) == a);
                assert forall|i: int| 0 <= i < o.spec_len() implies #[trigger] s2.root_of(i)
                    == o.root_of(i) by {
                    assert(s1.root_of(i) == o.root_of(i));
                }
                assert forall|i: int| 0 <= i < o.spec_len() implies #[trigger] s2.rank_at(i)
                    == o.rank_at(i) by {
                    assert(s1.rank_at(i) == o.rank_at(i));
                }
            }
            if a == b {
                proof {
                    assert forall|i: int| 0 <= i < o.spec_len() implies #[trigger] self.root_of(i)
                        == o.root_of(i) by {}
                    assert forall|i: int|
                        0 <= i < o.spec_len() implies #[trigger] self.class_rank(i)
                        == o.class_rank(i) by {
                        base::lemma_root_basics(o.ids(), o.level@, o.level_cap@, i);
                    }
                    assert_seqs_equal!(
                        self.roots_seq() == base::merged(o.roots_seq(), a0, b0),
                        i => {
                            assert(o.roots_seq()[a0] == o.root_of(a0));
                            assert(o.roots_seq()[b0] == o.root_of(b0));
                            assert(o.roots_seq()[i] == o.root_of(i));
                            assert(self.roots_seq()[i] == self.root_of(i));
                        }
                    );
                }
                return false;
            }
            let rank_a = self.rank(a);
            let rank_b = self.rank(b);
            proof {
                assert(rank_a == o.class_rank(a0));
                assert(rank_b == o.class_rank(b0));
            }
            if rank_a > rank_b {
                if self.link_roots(b, a) {
                    proof {
                        let ra = o.root_of(a0);
                        let rb = o.root_of(b0);
                        assert forall|i: int| 0 <= i < o.spec_len() implies #[trigger] self.root_of(
                            i,
                        ) == (if o.root_of(i) == rb {
                            ra
                        } else {
                            o.root_of(i)
                        }) by {
                            assert(s2.root_of(i) == o.root_of(i));
                        }
                        assert forall|i: int|
                            0 <= i < o.spec_len() implies #[trigger] self.class_rank(i) == (if o.root_of(
                            i,
                        ) == rb {
                            o.class_rank(a0)
                        } else {
                            o.class_rank(i)
                        }) by {
                            base::lemma_root_basics(o.ids(), o.level@, o.level_cap@, i);
                            let rt = o.root_of(i);
                            assert(s2.root_of(i) == rt);
                            if rt == rb {
                                assert(self.root_of(i) == ra);
                                assert(self.rank_at(ra) == s2.rank_at(ra));
                            } else {
                                assert(self.root_of(i) == rt);
                                assert(self.rank_at(rt) == s2.rank_at(rt));
                            }
                        }
                        assert_seqs_equal!(
                            self.roots_seq() == base::merged(o.roots_seq(), b0, a0),
                            i => {
                                assert(o.roots_seq()[a0] == o.root_of(a0));
                                assert(o.roots_seq()[b0] == o.root_of(b0));
                                assert(o.roots_seq()[i] == o.root_of(i));
                                assert(self.roots_seq()[i] == self.root_of(i));
                            }
                        );
                    }
                    return true;
                }
            } else if rank_b > rank_a {
                if self.link_roots(a, b) {
                    proof {
                        let ra = o.root_of(a0);
                        let rb = o.root_of(b0);
                        assert forall|i: int| 0 <= i < o.spec_len() implies #[trigger] self.root_of(
                            i,
                        ) == (if o.root_of(i) == ra {
                            rb
                        } else {
                            o.root_of(i)
                        }) by {
                            assert(s2.root_of(i) == o.root_of(i));
                        }
                        assert forall|i: int|
                            0 <= i < o.spec_len() implies #[trigger] self.class_rank(i) == (if o.root_of(
                            i,
                        ) == ra {
                            o.class_rank(b0)
                        } else {
                            o.class_rank(i)
                        }) by {
                            base::lemma_root_basics(o.ids(), o.level@, o.level_cap@, i);
                            let rt = o.root_of(i);
                            assert(s2.root_of(i) == rt);
                            if rt == ra {
                                assert(self.root_of(i) == rb);
                                assert(self.rank_at(rb) == s2.rank_at(rb));
                            } else {
                                assert(self.root_of(i) == rt);
                                assert(self.rank_at(rt) == s2.rank_at(rt));
                            }
                        }
                        assert_seqs_equal!(
                            self.roots_seq() == base::merged(o.roots_seq(), a0, b0),
                            i => {
                                assert(o.roots_seq()[a0] == o.root_of(a0));
                                assert(o.roots_seq()[b0] == o.root_of(b0));
                                assert(o.roots_seq()[i] == o.root_of(i));
                                assert(self.roots_seq()[i] == self.root_of(i));
                            }
                        );
                    }
                    return true;
                }
            } else {
                if self.link_roots(a, b) {
                    let ghost s3 = *self;
                    proof {
                        assert(s3.rank_at(b as int) == rank_b);
                    }
                    self.increment_rank(b);
                    proof {
                        let ra = o.root_of(a0);
                        let rb = o.root_of(b0);
                        let nr: int = if rank_b < usize::MAX {
                            rank_b + 1
                        } else {
                            rank_b as int
                        };
                        assert forall|i: int| 0 <= i < o.spec_len() implies #[trigger] self.root_of(
                            i,
                        ) == (if o.root_of(i) == ra {
                            rb
                        } else {
                            o.root_of(i)
                        }) by {
                            assert(s2.root_of(i) == o.root_of(i));
                            assert(s3.root_of(i) == (if s2.root_of(i) == ra {
                                rb
                            } else {
                                s2.root_of(i)
                            }));
                            assert(self.root_of(i) == s3.root_of(i));
                        }
                        assert forall|i: int|
                            0 <= i < o.spec_len() implies #[trigger] self.class_rank(i) == (if o.root_of(
                            i,
                        ) == ra || o.root_of(i) == rb {
                            nr
                        } else {
                            o.class_rank(i)
                        }) by {
                            base::lemma_root_basics(o.ids(), o.level@, o.level_cap@, i);
                            let rt = o.root_of(i);
                            assert(s2.root_of(i) == rt);
                            if rt == ra || rt == rb {
                                assert(self.root_of(i) == rb);
                                assert(self.rank_at(rb as int) == nr);
                            } else {
                                assert(self.root_of(i) == rt);
                                assert(self.rank_at(rt) == s3.rank_at(rt));
                                assert(s3.rank_at(rt) == s2.rank_at(rt));
                            }
                        }
                        assert_seqs_equal!(
                            self.roots_seq() == base::merged(o.roots_seq(), a0, b0),
                            i => {
                                assert(o.roots_seq()[a0] == o.root_of(a0));
                                assert(o.roots_seq()[b0] == o.root_of(b0));
                                assert(o.roots_seq()[i] == o.root_of(i));
                                assert(self.roots_seq()[i] == self.root_of(i));
                            }
                        );
                    }
                    return true;
                }
            }
            proof {
                assert(false);
            }
        }
    }

    /// Determines whether two elements are in the same set.
    ///
    /// After finding both representatives, a mismatch is only believed once
    /// a re-load confirms the first is still genuinely self-rooted: an
    /// interleaved union could otherwise have made the comparison stale, and
    /// the whole comparison would be retried.
    #[verifier::loop_isolation(false)]
    pub fn equiv(&mut self, a: usize, b: usize) -> (r: bool)
        requires
            old(self).wf(),
            a < old(self).spec_len(),
            b < old(self).spec_len(),
        ensures
            final(self).wf(),
            unchanged_sets(*old(self), *final(self)),
            r == old(self).same_set(a as int, b as int),
            forall|i: int|
                0 <= i < old(self).spec_len() && old(self).parent_of(i) == old(self).root_of(i)
                    ==> final(self).parent_of(i) == old(self).parent_of(i),
    {
        let ghost o = *self;
        let ghost a0: int = a as int;
        let ghost b0: int = b as int;
        let mut a: usize = a;
        let mut b: usize = b;
        // Through a unique reference no interleaved mutation exists, so the
        // re-loaded representative is proven to still be a root and every
        // pass through this retry loop returns: the back edge is
        // unreachable.
        loop
            invariant
                *self == o,
                a == a0,
                b == b0,
            decreases 0int,
        {
            a = self.find(a);
            let ghost s1 = *self;
            b = self.find(b);
            let ghost s2 = *self;
            proof {
                assert(a == o.root_of(a0));
                assert(s1.root_of(b0) == o.root_of(b0));
                assert(b == o.root_of(b0));
                assert forall|i: int| 0 <= i < o.spec_len() implies #[trigger] s2.root_of(i)
                    == o.root_of(i) by {
                    assert(s1.root_of(i) == o.root_of(i));
                }
                assert forall|i: int| 0 <= i < o.spec_len() implies #[trigger] s2.class_rank(i)
                    == o.class_rank(i) by {
                    assert(s1.class_rank(i) == o.class_rank(i));
                }
                assert forall|i: int|
                    0 <= i < o.spec_len() && o.parent_of(i) == o.root_of(i)
                    implies #[trigger] s2.parent_of(i) == o.parent_of(i) by {
                    assert(s1.parent_of(i) == o.parent_of(i));
                    assert(s1.root_of(i) == o.root_of(i));
                }
                assert(s1.parent_of(a as int) == a);
                base::lemma_root_basics(s1.ids(), s1.level@, s1.level_cap@, a as int);
                assert(s1.root_of(a as int) == a);
                assert(s2.parent_of(a as int) == a);
            }
            if a == b {
                return true;
            }
            if self.parent(a) == a {
                return false;
            }
            proof {
                assert(false);
            }
        }
    }

    /// Forces all laziness, so that each element points directly at its
    /// set's representative.
    ///
    /// For every index in turn: read its parent; a self-rooted element is
    /// done; otherwise find the parent's current root and, unless the parent
    /// is already that root, redirect the index straight to it by one
    /// compare-and-swap, re-reading fresh state if an interleaved mutation
    /// got there first.  Purely an optimization pass: no set changes.
    #[verifier::loop_isolation(false)]
    pub fn force(&mut self)
        requires
            old(self).wf(),
        ensures
            final(self).wf(),
            unchanged_sets(*old(self), *final(self)),
            forall|i: int|
                0 <= i < old(self).spec_len()
                    ==> #[trigger] final(self).parent_of(i) == final(self).root_of(i),
            forall|i: int|
                0 <= i < old(self).spec_len() ==> #[trigger] final(self).rank_at(i) == old(
                    self,
                ).rank_at(i),
            (forall|i: int|
                0 <= i < old(self).spec_len() ==> old(self).parent_of(i) == old(self).root_of(i))
                ==> (forall|i: int|
                0 <= i < old(self).spec_len() ==> #[trigger] final(self).parent_of(i) == old(
                    self,
                ).parent_of(i)),
    {
        let ghost o = *self;
        let n = self.len();
        let mut i: usize = 0;
        while i < n
            invariant
                self.wf(),
                self.spec_len() == o.spec_len(),
                i <= n,
                unchanged_sets(o, *self),
                self.rks() == o.rks(),
                forall|j: int| 0 <= j < i ==> #[trigger] self.parent_of(j) == self.root_of(j),
                (forall|j: int|
                    0 <= j < o.spec_len() ==> o.parent_of(j) == o.root_of(j)) ==> self.entries@
                    == o.entries@,
            decreases n - i,
        {
            let ghost si = *self;
            // Through a unique reference the compare-and-swap is proven to
            // succeed, so every pass through this retry loop breaks: the
            // back edge is unreachable.
            #[verifier::loop_isolation(true)]
            loop
                invariant_except_break
                    *self == si,
                    si.wf(),
                    i < si.spec_len(),
                ensures
                    self.wf(),
                    self.spec_len() == si.spec_len(),
                    unchanged_sets(si, *self),
                    self.rks() == si.rks(),
                    forall|j: int|
                        0 <= j < si.spec_len() && si.parent_of(j) == si.root_of(j)
                            ==> #[trigger] self.parent_of(j) == si.parent_of(j),
                    self.parent_of(i as int) == self.root_of(i as int),
                    (forall|j: int|
                        0 <= j < si.spec_len() ==> si.parent_of(j) == si.root_of(j))
                        ==> self.entries@ == si.entries@,
                decreases 0int,
            {
                let parent = self.parent(i);
                if i == parent {
                    proof {
                        assert(self.ids()[i as int] == i as int);
                        assert(self.root_of(i as int) == i as int);
                        assert forall|j: int|
                            0 <= j < si.spec_len() implies #[trigger] self.class_rank(j)
                            == si.class_rank(j) by {
                            base::lemma_root_basics(si.ids(), si.level@, si.level_cap@, j);
                        }
                    }
                    break;
                } else {
                    proof {
                        assert(si.ids()[i as int] == parent as int);
                        assert(si.level@[i as int] < si.level@[parent as int]);
                        assert(si.root_of(i as int) == si.root_of(parent as int));
                    }
                    let root = self.find_root(parent);
                    let ghost sb = *self;
                    proof {
                        assert(sb.parent_of(i as int) == parent);
                        assert(root == si.root_of(parent as int));
                        assert(sb.root_of(i as int) == root);
                    }
                    if parent == root {
                        proof {
                            if (forall|j: int|
                                0 <= j < si.spec_len() ==> si.parent_of(j) == si.root_of(j)) {
                                assert(si.parent_of(i as int) == si.root_of(i as int));
                                base::lemma_root_basics(
                                    si.ids(),
                                    si.level@,
                                    si.level_cap@,
                                    i as int,
                                );
                                assert(si.parent_of(parent as int) == parent);
                                assert(self.entries@ == si.entries@);
                            }
                        }
                        break;
                    }
                    if self.change_parent(i, parent, root) {
                        proof {
                            if (forall|j: int|
                                0 <= j < si.spec_len() ==> si.parent_of(j) == si.root_of(j)) {
                                assert(si.parent_of(i as int) == si.root_of(i as int));
                                base::lemma_root_basics(
                                    si.ids(),
                                    si.level@,
                                    si.level_cap@,
                                    i as int,
                                );
                                assert(si.parent_of(parent as int) == parent);
                                base::lemma_root_basics(
                                    si.ids(),
                                    si.level@,
                                    si.level_cap@,
                                    parent as int,
                                );
                                assert(root == parent);
                                assert(false);
                            }
                            let p1 = sb.ids();
                            let lv = sb.level@;
                            let cap = sb.level_cap@;
                            let p2 = self.ids();
                            let k: int = i as int;
                            let rt: int = root as int;
                            assert(p2 == p1.update(k, rt));
                            base::lemma_root_basics(si.ids(), si.level@, si.level_cap@, parent as int);
                            assert(lv == si.level@);
                            assert(lv[parent as int] <= lv[rt]);
                            assert(lv[k] < lv[rt]);
                            assert(rt != k);
                            assert forall|x: int| 0 <= x < p2.len() implies 0 <= #[trigger] p2[x]
                                < p2.len() by {
                                if x != k {
                                    assert(p2[x] == p1[x]);
                                    assert(0 <= p1[x] < p1.len());
                                }
                            }
                            assert forall|x: int|
                                0 <= x < p2.len() && #[trigger] p2[x] != x implies lv[x]
                                < lv[p2[x]] by {
                                if x != k {
                                    assert(p2[x] == p1[x]);
                                    assert(lv[x] < lv[p1[x]]);
                                }
                            }
                            assert(base::links_ok(p2, lv, cap));
                            assert(self.wf());
                            assert(sb.parent_of(rt) == rt);
                            assert(sb.root_of(rt) == rt);
                            assert(sb.root_of(rt) == sb.root_of(k));
                            assert forall|j: int| 0 <= j < p2.len() implies #[trigger] self.root_of(
                                j,
                            ) == sb.root_of(j) by {
                                base::lemma_root_redirect(p1, lv, cap, p2, lv, cap, k, rt, j);
                            }
                            assert(self.parent_of(k) == rt);
                            assert(self.root_of(k) == sb.root_of(k));
                            assert forall|j: int|
                                0 <= j < si.spec_len() implies #[trigger] self.class_rank(j)
                                == si.class_rank(j) by {
                                base::lemma_root_basics(si.ids(), si.level@, si.level_cap@, j);
                                let rj = si.root_of(j);
                                assert(self.rank_at(rj) == sb.rank_at(rj)) by {
                                    assert(self.rks() == sb.rks());
                                }
                                assert(sb.rank_at(rj) == si.rank_at(rj)) by {
                                    assert(sb.rks() == si.rks());
                                }
                                assert(sb.root_of(j) == si.root_of(j));
                                assert(self.root_of(j) == rj);
                            }
                            assert forall|j: int|
                                0 <= j < si.spec_len() && si.parent_of(j) == si.root_of(j)
                                implies #[trigger] self.parent_of(j) == si.parent_of(j) by {
                                assert(j != k);
                                assert(sb.parent_of(j) == si.parent_of(j));
                                assert(self.ids() == sb.ids().update(k, rt));
                                assert(self.parent_of(j) == sb.parent_of(j));
                            }
                            assert(self.rks() == sb.rks());
                            assert(sb.rks() == si.rks());
                        }
                        break;
                    }
                    proof {
                        assert(false);
                    }
                }
            }
            proof {
                assert forall|j: int| 0 <= j < i + 1 implies #[trigger] self.parent_of(j)
                    == self.root_of(j) by {
                    if j < i {
                        assert(si.parent_of(j) == si.root_of(j));
                        assert(self.parent_of(j) == si.parent_of(j));
                        assert(self.root_of(j) == si.root_of(j));
                    }
                }
                if (forall|j: int|
                    0 <= j < o.spec_len() ==> o.parent_of(j) == o.root_of(j)) {
                    assert forall|j: int|
                        0 <= j < si.spec_len() implies #[trigger] si.parent_of(j) == si.root_of(
                        j,
                    ) by {
                        assert(si.entries@ == o.entries@);
                        assert(si.entries@[j] == o.entries@[j]);
                        assert(si.ids()[j] == si.entries@[j].id as int);
                        assert(o.ids()[j] == o.entries@[j].id as int);
                        assert(si.root_of(j) == o.root_of(j));
                        assert(o.parent_of(j) == o.root_of(j));
                    }
                    assert(self.entries@ == si.entries@);
                }
            }
            i = i + 1;
        }
        proof {
            assert forall|i: int| 0 <= i < o.spec_len() implies #[trigger] self.rank_at(i)
                == o.rank_at(i) by {
                assert(self.rks()[i] == o.rks()[i]);
            }
            if (forall|i: int|
                0 <= i < o.spec_len() ==> o.parent_of(i) == o.root_of(i)) {
                assert forall|i: int|
                    0 <= i < o.spec_len() implies #[trigger] self.parent_of(i) == o.parent_of(
                    i,
                ) by {
                    assert(self.entries@ == o.entries@);
                    assert(self.entries@[i] == o.entries@[i]);
                    assert(self.ids()[i] == self.entries@[i].id as int);
                    assert(o.ids()[i] == o.entries@[i].id as int);
                }
            }
        }
    }

    /// Returns a vector of set representatives, one per element, after
    /// forcing the structure so that every entry points straight at its
    /// root.
    #[verifier::loop_isolation(false)]
    pub fn to_vec(&mut self) -> (r: Vec<usize>)
        requires
            old(self).wf(),
        ensures
            final(self).wf(),
            unchanged_sets(*old(self), *final(self)),
            forall|i: int|
                0 <= i < old(self).spec_len()
                    ==> #[trigger] final(self).parent_of(i) == final(self).root_of(i),
            r@.len() == old(self).spec_len(),
            forall|i: int|
                0 <= i < old(self).spec_len() ==> #[trigger] r@[i] == old(self).root_of(i),
            forall|i: int|
                0 <= i < old(self).spec_len() ==> 0 <= #[trigger] r@[i] < old(self).spec_len()
                    && old(self).root_of(r@[i] as int) == r@[i],
            forall|i: int|
                0 <= i < old(self).spec_len() ==> #[trigger] final(self).rank_at(i) == old(
                    self,
                ).rank_at(i),
            (forall|i: int|
                0 <= i < old(self).spec_len() ==> old(self).parent_of(i) == old(self).root_of(i))
                ==> (forall|i: int|
                0 <= i < old(self).spec_len() ==> #[trigger] final(self).parent_of(i) == old(
                    self,
                ).parent_of(i)),
    {
        self.force();
        let n = self.len();
        let mut result: Vec<usize> = Vec::new();
        let mut i: usize = 0;
        while i < n
            invariant
                i <= n,
                result@.len() == i,
                forall|j: int| 0 <= j < i ==> #[trigger] result@[j] == self.root_of(j),
            decreases n - i,
        {
            let e = self.parent(i);
            proof {
                assert(e == self.parent_of(i as int));
                assert(self.parent_of(i as int) == self.root_of(i as int));
            }
            result.push(e);
            i = i + 1;
        }
        proof {
            assert forall|j: int|
                0 <= j < old(self).spec_len() implies 0 <= #[trigger] result@[j] < old(
                self,
            ).spec_len() && old(self).root_of(result@[j] as int) == result@[j] by {
                base::lemma_root_basics(old(self).ids(), old(self).level@, old(self).level_cap@, j);
                base::lemma_root_basics(
                    old(self).ids(),
                    old(self).level@,
                    old(self).level_cap@,
                    old(self).root_of(j),
                );
            }
        }
        result
    }

    /// Reads out the serialized form: each element's (id, rank) pair, in
    /// index order.  Each pair is read as one unit, but the vector as a
    /// whole need not correspond to a single instant under interleaved
    /// mutation.
    pub fn to_entries(&self) -> (r: Vec<(usize, usize)>)
        requires
            self.wf(),
        ensures
            r@.len() == self.spec_len(),
            forall|i: int|
                0 <= i < self.spec_len() ==> (#[trigger] r@[i]).0 == self.parent_of(i)
                    && r@[i].1 == self.rank_at(i),
    {
        let n = self.len();
        let mut result: Vec<(usize, usize)> = Vec::new();
        let mut i: usize = 0;
        while i < n
            invariant
                self.wf(),
                n == self.spec_len(),
                i <= n,
                result@.len() == i,
                forall|j: int|
                    0 <= j < i ==> (#[trigger] result@[j]).0 == self.parent_of(j)
                        && result@[j].1 == self.rank_at(j),
            decreases n - i,
        {
            let id = self.parent(i);
            let rank = self.rank(i);
            result.push((id, rank));
            i = i + 1;
        }
        result
    }

    /// Rebuilds a structure from its serialized form: each element's
    /// (id, rank) pair, in index order.  Accepted exactly when the form is a
    /// forest: every id in range and every parent walk reaching a
    /// self-rooted entry (so a cyclic form is rejected, where `find` could
    /// never return).  `to_entries` always produces an accepted form.
    pub fn from_entries(pairs: &Vec<(usize, usize)>) -> (r: Option<AUnionFind>)
        ensures
            r is Some <==> (forall|i: int|
                0 <= i < pairs@.len() ==> ((#[trigger] pairs@[i]).0 < pairs@.len()
                    && base::depth_in(base::entry_parents(pairs@), i, pairs@.len() as nat)
                    is Some)),
            r matches Some(uf) ==> {
                &&& uf.wf()
                &&& uf.spec_len() == pairs@.len()
                &&& (forall|i: int|
                    0 <= i < pairs@.len() ==> #[trigger] uf.parent_of(i) == pairs@[i].0)
                &&& (forall|i: int|
                    0 <= i < pairs@.len() ==> #[trigger] uf.rank_at(i) == pairs@[i].1)
            },
    {
        let ghost pp = base::entry_parents(pairs@);
        let n = pairs.len();
        let mut i: usize = 0;
        while i < n
            invariant
                i <= n,
                n == pairs@.len(),
                pp == base::entry_parents(pairs@),
                forall|j: int|
                    0 <= j < i ==> ((#[trigger] pairs@[j]).0 < n && base::depth_in(
                        pp,
                        j,
                        n as nat,
                    ) is Some),
            decreases n - i,
        {
            let p = pairs[i];
            if p.0 >= n {
                return None;
            }
            if !base::reaches_root(pairs, i) {
                return None;
            }
            i = i + 1;
        }
        let mut entries: Vec<Entry> = Vec::new();
        let mut j: usize = 0;
        while j < n
            invariant
                j <= n,
                n == pairs@.len(),
                pp == base::entry_parents(pairs@),
                entries@.len() == j,
                forall|k: int|
                    0 <= k < n ==> ((#[trigger] pairs@[k]).0 < n && base::depth_in(
                        pp,
                        k,
                        n as nat,
                    ) is Some),
                forall|k: int|
                    0 <= k < j ==> ((#[trigger] entries@[k]).id == pairs@[k].0 && entries@[k].rank
                        == pairs@[k].1),
            decreases n - j,
        {
            let p = pairs[j];
            entries.push(Entry::new(p.0, p.1));
            j = j + 1;
        }
        let uf = AUnionFind {
            entries,
            level: Ghost(
                Seq::new(
                    n as nat,
                    |k: int| (n - base::depth_in(
                        base::entry_parents(pairs@),
                        k,
                        n as nat,
                    )->0) as nat,
                ),
            ),
            level_cap: Ghost(n as nat),
        };
        proof {
            assert forall|k: int| 0 <= k < n implies #[trigger] uf.ids()[k] == pairs@[k].0 by {
                assert(uf.entries@[k].id == pairs@[k].0);
            }
            assert(uf.ids() =~= pp);
            assert forall|k: int| 0 <= k < n implies #[trigger] uf.level@[k] <= uf.level_cap@ by {
                base::lemma_depth_bound(pp, k, n as nat);
            }
            assert forall|k: int|
                0 <= k < n && #[trigger] uf.ids()[k] != k implies uf.level@[k]
                < uf.level@[uf.ids()[k]] by {
                base::lemma_depth_bound(pp, k, n as nat);
                base::lemma_depth_step(pp, k, n as nat);
                base::lemma_depth_bound(pp, pp[k], n as nat);
            }
            assert(base::links_ok(uf.ids(), uf.level@, uf.level_cap@));
            assert forall|k: int| 0 <= k < n implies #[trigger] uf.rank_at(k) == pairs@[k].1 by {
                assert(uf.entries@[k].rank == pairs@[k].1);
            }
        }
        Some(uf)
    }

    /// A representative is a member of the set it represents: every
    /// element's root lies in range, is its own parent, and is its own
    /// representative, so `find`'s result shares a set with its argument.
    pub proof fn lemma_representative(self, i: int)
        requires
            self.wf(),
            0 <= i < self.spec_len(),
        ensures
            0 <= self.root_of(i) < self.spec_len(),
            self.parent_of(self.root_of(i)) == self.root_of(i),
            self.root_of(self.root_of(i)) == self.root_of(i),
            self.same_set(i, self.root_of(i)),
    {
        base::lemma_root_basics(self.ids(), self.level@, self.level_cap@, i);
        base::lemma_root_basics(self.ids(), self.level@, self.level_cap@, self.root_of(i));
    }

    /// Being in the same set is an equivalence relation on the elements:
    /// reflexive, symmetric and transitive.  Through `equiv`'s contract the
    /// same holds of the answers `equiv` returns.
    pub proof fn lemma_same_set_equivalence(self, a: int, b: int, c: int)
        requires
            self.wf(),
            0 <= a < self.spec_len(),
            0 <= b < self.spec_len(),
            0 <= c < self.spec_len(),
        ensures
            self.same_set(a, a),
            self.same_set(a, b) == self.same_set(b, a),
            self.same_set(a, b) && self.same_set(b, c) ==> self.same_set(a, c),
    {
    }

    /// The partition sequence and `same_set` agree: two elements share a set
    /// exactly when the sequence assigns them the same representative.  This
    /// connects `union`'s sequence-level contract with the pairwise laws in
    /// [`crate::base`].
    pub proof fn lemma_roots_seq_same_set(self, a: int, b: int)
        requires
            0 <= a < self.spec_len(),
            0 <= b < self.spec_len(),
        ensures
            base::same_class(self.roots_seq(), a, b) == self.same_set(a, b),
    {
        assert(self.roots_seq()[a] == self.root_of(a));
        assert(self.roots_seq()[b] == self.root_of(b));
    }

    /// Union monotonicity: an operation whose effect on the partition is the
    /// merge of two sets (in either link direction, as `union` ensures)
    /// never separates elements that already shared a set.
    pub proof fn lemma_union_monotone(
        pre: AUnionFind,
        post: AUnionFind,
        x: int,
        y: int,
        i: int,
        j: int,
    )
        requires
            0 <= x < pre.spec_len(),
            0 <= y < pre.spec_len(),
            0 <= i < pre.spec_len(),
            0 <= j < pre.spec_len(),
            post.spec_len() == pre.spec_len(),
            post.roots_seq() == base::merged(pre.roots_seq(), x, y) || post.roots_seq()
                == base::merged(pre.roots_seq(), y, x),
            pre.same_set(i, j),
        ensures
            post.same_set(i, j),
    {
        pre.lemma_roots_seq_same_set(i, j);
        post.lemma_roots_seq_same_set(i, j);
        base::lemma_merged_monotone(pre.roots_seq(), x, y, i, j);
        base::lemma_merged_monotone(pre.roots_seq(), y, x, i, j);
    }
}

impl Default for AUnionFind {
    /// The empty union-find.
    fn default() -> (r: AUnionFind)
        ensures
            r.wf(),
            r.spec_len() == 0,
    {
        AUnionFind::new(0)
    }
}

impl Clone for AUnionFind {
    /// An independent copy presenting the same elements, parents and ranks
    /// (and so the same partition).
    fn clone(&self) -> (r: Self)
        ensures
            r.spec_len() == self.spec_len(),
            forall|i: int|
                0 <= i < self.spec_len() ==> #[trigger] r.parent_of(i) == self.parent_of(i),
            forall|i: int|
                0 <= i < self.spec_len() ==> #[trigger] r.rank_at(i) == self.rank_at(i),
            self.wf() ==> r.wf() && (forall|i: int|
                0 <= i < self.spec_len() ==> #[trigger] r.root_of(i) == self.root_of(i)),
    {
        let n = self.entries.len();
        let mut entries: Vec<Entry> = Vec::new();
        let mut i: usize = 0;
        while i < n
            invariant
                i <= n,
                n == self.entries@.len(),
                entries@.len() == i,
                forall|j: int| 0 <= j < i ==> #[trigger] entries@[j] == self.entries@[j],
            decreases n - i,
        {
            entries.push(self.entries[i]);
            i = i + 1;
        }
        let r = AUnionFind { entries, level: Ghost(self.level@), level_cap: Ghost(self.level_cap@) };
        proof {
            assert(r.entries@ =~= self.entries@);
            assert(r.ids() =~= self.ids());
            assert(r.rks() =~= self.rks());
        }
        r
    }
}

} // verus!