//! Union-find whose entries pack the parent id and the rank into one word.
//!
//! An element's entry holds two logically coupled fields: the parent id and
//! the rank.  They must move together, so the two fields are packed into a
//! single unsigned word, split into a high id field and a low rank field, and
//! every mutation is one compare-and-swap of that word: read an entry,
//! compute its replacement, and install it only if the stored word is still
//! exactly the one that was read.  Nothing ever writes a field on its own.
//!
//! The rank field gets [`RK_BITS`] bits.  A root of rank `k` needs at least
//! `2^k` elements below it, so with 58 id bits the highest attainable rank is
//! 58, which the 6-bit rank field holds comfortably; the id field bounds the
//! structure's capacity at [`ID_MAX`] elements (or at `usize::MAX`, on a
//! platform whose addresses are narrower than the id field).

use vstd::prelude::*;
use vstd::seq_lib::assert_seqs_equal;

use crate::base;

verus! {

/// Number of low bits of a packed word that hold the rank.
pub const RK_BITS: u64 = 6;

/// Mask selecting the rank field of a packed word: `RK_BITS` low bits set.
pub const RK_MASK: u64 = 63;

/// Exclusive upper bound of the rank field: `1 << RK_BITS`.
pub const RK_MAX: usize = 64;

/// Exclusive upper bound of the id field, `1 << (64 - RK_BITS)`: how many
/// elements the high bits of a packed word can address.
pub const ID_MAX: u64 = 0x0400_0000_0000_0000;

/// The id stored in the high bits of a packed word.
pub open spec fn word_id(w: u64) -> int {
    w as int / 64
}

/// The rank stored in the low bits of a packed word.
pub open spec fn word_rk(w: u64) -> int {
    w as int % 64
}

/// A decoded entry: the parent id and the rank of one element.  An entry is
/// a root entry when its id equals the index of the element holding it; the
/// rank is meaningful only while that is so.
#[derive(Clone, Copy)]
struct Entry {
    id: usize,
    rk: usize,
}

impl Entry {
    /// The entry of a fresh singleton root: its own id, rank zero.
    fn new(id: usize) -> (r: Self)
        requires
            (id as u64) < ID_MAX,
        ensures
            r.id == id,
            r.rk == 0,
    {
        Self::with_rank(id, 0)
    }

    fn with_rank(id: usize, rk: usize) -> (r: Self)
        requires
            (id as u64) < ID_MAX,
            rk < RK_MAX,
        ensures
            r.id == id,
            r.rk == rk,
    {
        Entry { id, rk }
    }

    fn inc_rank(self) -> (r: Self)
        requires
            (self.id as u64) < ID_MAX,
            self.rk + 1 < RK_MAX,
        ensures
            r.id == self.id,
            r.rk == self.rk + 1,
    {
        Entry::with_rank(self.id, self.rk + 1)
    }
}

/// Packs an entry into a single word, id in the high bits, rank in the low
/// bits.
fn pack(e: Entry) -> (w: u64)
    requires
        (e.id as u64) < ID_MAX,
        e.rk < RK_MAX,
    ensures
        word_id(w) == e.id,
        word_rk(w) == e.rk,
{
    let id: u64 = e.id as u64;
    let rk: u64 = e.rk as u64;
    let w = (id << RK_BITS) | rk;
    proof {
        assert(((id << 6u64) | rk) / 64 == id && ((id << 6u64) | rk) % 64 == rk) by (bit_vector)
            requires
                id < 0x0400_0000_0000_0000u64,
                rk < 64u64,
        ;
    }
    w
}

/// Unpacks a word into the entry it encodes.
fn unpack(w: u64) -> (r: Entry)
    requires
        word_id(w) <= usize::MAX as int,
    ensures
        r.id == word_id(w),
        r.rk == word_rk(w),
        (r.id as u64) < ID_MAX,
        r.rk < RK_MAX,
{
    proof {
        assert((w >> 6u64) == w / 64 && (w & 63u64) == w % 64 && w / 64
            < 0x0400_0000_0000_0000u64 && w % 64 < 64u64) by (bit_vector);
    }
    let id_w: u64 = w >> RK_BITS;
    let rk_w: u64 = w & RK_MASK;
    Entry { id: id_w as usize, rk: rk_w as usize }
}

/// One element's storage cell: a single packed word.  Loading decodes the
/// whole word at once, and the only mutation is a compare-and-swap of the
/// whole word, so the id and the rank can never be observed or updated out
/// of step with each other.
#[derive(Clone, Copy)]
struct AtomicEntry {
    word: u64,
}

impl AtomicEntry {
    spec fn spec_id(self) -> int {
        word_id(self.word)
    }

    spec fn spec_rk(self) -> int {
        word_rk(self.word)
    }

    fn new(id: usize) -> (r: Self)
        requires
            (id as u64) < ID_MAX,
        ensures
            r.spec_id() == id,
            r.spec_rk() == 0,
    {
        AtomicEntry { word: pack(Entry::new(id)) }
    }

    fn load(&self) -> (r: Entry)
        requires
            self.spec_id() <= usize::MAX as int,
        ensures
            r.id == self.spec_id(),
            r.rk == self.spec_rk(),
            (r.id as u64) < ID_MAX,
            r.rk < RK_MAX,
    {
        unpack(self.word)
    }

    /// Installs `new` if and only if the cell currently holds exactly `exp`;
    /// reports whether it did.  This is the sole mutation of a cell.
    fn compare_and_swap(&mut self, exp: Entry, new: Entry) -> (r: bool)
        requires
            (exp.id as u64) < ID_MAX,
            exp.rk < RK_MAX,
            (new.id as u64) < ID_MAX,
            new.rk < RK_MAX,
        ensures
            r == (old(self).spec_id() == exp.id && old(self).spec_rk() == exp.rk),
            r ==> final(self).spec_id() == new.id && final(self).spec_rk() == new.rk,
            !r ==> *final(self) == *old(self),
    {
        let exp_word = pack(exp);
        let new_word = pack(new);
        proof {
            let w: u64 = self.word;
            let x: u64 = exp_word;
            assert((w / 64 == x / 64 && w % 64 == x % 64) ==> w == x) by (bit_vector);
        }
        if self.word == exp_word {
            self.word = new_word;
            true
        } else {
            false
        }
    }
}

/// The error returned when a structure is asked for more elements than the
/// id field of a packed word can address.
#[derive(Debug, Clone, Copy, PartialEq, Eq)]
pub struct CapacityError;

/// The maximum number of elements of an [`AUnionFind`]: what the id field of
/// a packed word can address, or the whole address space where that is the
/// narrower of the two.
pub open spec fn max_size_spec() -> int {
    if ID_MAX as int <= usize::MAX as int {
        ID_MAX as int
    } else {
        usize::MAX as int
    }
}

/// Union-find over the fixed universe `0 .. len()`, with all per-element
/// state held in packed single-word entries.
///
/// The partition it represents is described by [`AUnionFind::root_of`]: the
/// representative reached by following parent ids from an element.  All
/// operations preserve or merge the sets of that partition; none ever splits
/// a set.
pub struct AUnionFind {
    entries: Vec<AtomicEntry>,
    /// Termination witness: a measure that strictly increases along every
    /// parent link, so every parent walk reaches a root.
    level: Ghost<Seq<nat>>,
    /// Upper bound of all levels.
    level_cap: Ghost<nat>,
}

impl AUnionFind {
    /// The number of elements.
    pub closed spec fn spec_len(self) -> int {
        self.entries@.len() as int
    }

    /// The parent ids, as a sequence.
    closed spec fn ids(self) -> Seq<int> {
        Seq::new(self.entries@.len() as nat, |i: int| self.entries@[i].spec_id())
    }

    /// The stored ranks, as a sequence.
    closed spec fn rks(self) -> Seq<int> {
        Seq::new(self.entries@.len() as nat, |i: int| self.entries@[i].spec_rk())
    }

    /// Well-formedness: parent ids stay in range, every parent walk
    /// terminates (witnessed by the ghost levels), and the element count is
    /// addressable by the id field.
    pub closed spec fn wf(self) -> bool {
        &&& base::links_ok(self.ids(), self.level@, self.level_cap@)
        &&& self.spec_len() <= max_size_spec()
    }

    /// The stored parent id of element `i`.
    pub closed spec fn parent_of(self, i: int) -> int {
        self.ids()[i]
    }

    /// The stored rank of element `i`; meaningful only when `i` is a root.
    pub closed spec fn rank_at(self, i: int) -> int {
        self.rks()[i]
    }

    /// The representative of `i`'s set: the root reached from `i` along
    /// parent ids.
    pub closed spec fn root_of(self, i: int) -> int {
        base::root_in(self.ids(), self.level@, self.level_cap@, i)
    }

    /// Whether `a` and `b` are in the same set.
    pub open spec fn same_set(self, a: int, b: int) -> bool {
        self.root_of(a) == self.root_of(b)
    }

    /// The rank of the root of `i`'s set.
    pub open spec fn class_rank(self, i: int) -> int {
        self.rank_at(self.root_of(i))
    }

    /// The whole partition, as the sequence assigning each element its
    /// representative.
    pub open spec fn roots_seq(self) -> Seq<int> {
        Seq::new(self.spec_len() as nat, |i: int| self.root_of(i))
    }
}

/// The two states present the same partition, with the same representatives
/// and the same root ranks: only the shape of the trees (and inert rank
/// fields of non-roots) may differ.
pub open spec fn unchanged_sets(pre: AUnionFind, post: AUnionFind) -> bool {
    &&& post.spec_len() == pre.spec_len()
    &&& (forall|i: int| 0 <= i < pre.spec_len() ==> post.root_of(i) == pre.root_of(i))
    &&& (forall|i: int| 0 <= i < pre.spec_len() ==> post.class_rank(i) == pre.class_rank(i))
}

impl AUnionFind {
    /// The maximum number of elements of an `AUnionFind`.
    pub fn max_size() -> (r: usize)
        ensures
            r == max_size_spec(),
    {
        if ID_MAX <= usize::MAX as u64 {
            ID_MAX as usize
        } else {
            usize::MAX
        }
    }

    /// Creates a new union-find of `size` elements, each its own singleton
    /// set, or reports a capacity violation when `size` elements cannot be
    /// addressed by the id field of a packed word.
    pub fn new(size: usize) -> (r: Result<AUnionFind, CapacityError>)
        ensures
            r is Ok <==> size <= max_size_spec(),
            r matches Ok(uf) ==> {
                &&& uf.wf()
                &&& uf.spec_len() == size
                &&& (forall|i: int| 0 <= i < size ==> uf.parent_of(i) == i)
                &&& (forall|i: int| 0 <= i < size ==> uf.root_of(i) == i)
                &&& (forall|i: int| 0 <= i < size ==> uf.rank_at(i) == 0)
            },
    {
        if size > Self::max_size() {
            return Err(CapacityError);
        }
        let mut entries: Vec<AtomicEntry> = Vec::new();
        let mut i: usize = 0;
        while i < size
            invariant
                i <= size,
                size <= max_size_spec(),
                entries@.len() == i,
                forall|j: int|
                    0 <= j < i ==> (#[trigger] entries@[j]).spec_id() == j && entries@[j].spec_rk()
                        == 0,
            decreases size - i,
        {
            entries.push(AtomicEntry::new(i));
            i = i + 1;
        }
        let uf = AUnionFind {
            entries,
            level: Ghost(Seq::new(size as nat, |j: int| 0nat)),
            level_cap: Ghost(0nat),
        };
        proof {
            assert forall|j: int| 0 <= j < size implies #[trigger] uf.ids()[j] == j by {
                assert(uf.entries@[j].spec_id() == j);
            }
            assert(base::links_ok(uf.ids(), uf.level@, uf.level_cap@));
            assert forall|j: int| 0 <= j < size implies #[trigger] uf.root_of(j) == j by {
                assert(uf.ids()[j] == j);
            }
            assert forall|j: int| 0 <= j < size implies #[trigger] uf.rank_at(j) == 0 by {
                assert(uf.entries@[j].spec_rk() == 0);
            }
        }
        Ok(uf)
    }

    /// The number of elements in all the sets.
    pub fn len(&self) -> (r: usize)
        ensures
            r == self.spec_len(),
    {
        self.entries.len()
    }

    /// Is the union-find devoid of elements?
    ///
    /// It is possible to create an empty `AUnionFind`, but it is not
    /// possible to add elements afterwards.
    pub fn is_empty(&self) -> (r: bool)
        ensures
            r == (self.spec_len() == 0),
    {
        self.entries.len() == 0
    }

    /// Reads and decodes one element's entry.
    fn load(&self, element: usize) -> (r: Entry)
        requires
            self.wf(),
            element < self.spec_len(),
        ensures
            r.id == self.parent_of(element as int),
            r.rk == self.rank_at(element as int),
            r.id < self.spec_len(),
            r.rk < RK_MAX,
    {
        proof {
            assert(self.ids()[element as int] == self.entries@[element as int].spec_id());
            assert(0 <= self.ids()[element as int] < self.spec_len());
        }
        self.entries[element].load()
    }

    /// Attempts the single mutation step on one element's entry: replace it
    /// with `new_entry` if and only if it still reads exactly as
    /// `exp_entry`.
    fn compare_and_swap(&mut self, index: usize, exp_entry: Entry, new_entry: Entry) -> (r: bool)
        requires
            index < old(self).spec_len(),
            (exp_entry.id as u64) < ID_MAX,
            exp_entry.rk < RK_MAX,
            (new_entry.id as u64) < ID_MAX,
            new_entry.rk < RK_MAX,
        ensures
            final(self).spec_len() == old(self).spec_len(),
            final(self).level@ == old(self).level@,
            final(self).level_cap@ == old(self).level_cap@,
            r == (old(self).parent_of(index as int) == exp_entry.id && old(self).rank_at(
                index as int,
            ) == exp_entry.rk),
            r ==> final(self).ids() == old(self).ids().update(index as int, new_entry.id as int)
                && final(self).rks() == old(self).rks().update(index as int, new_entry.rk as int)
                && (forall|i: int|
                0 <= i < old(self).spec_len() && i != index ==> final(self).entries@[i] == old(
                    self,
                ).entries@[i]),
            !r ==> final(self).ids() == old(self).ids() && final(self).rks() == old(self).rks()
                && final(self).entries@ == old(self).entries@,
    {
        proof {
            assert(old(self).parent_of(index as int) == old(self).entries@[index as int].spec_id());
            assert(old(self).rank_at(index as int) == old(self).entries@[index as int].spec_rk());
        }
        let mut cell = self.entries[index];
        let r = cell.compare_and_swap(exp_entry, new_entry);
        self.entries[index] = cell;
        proof {
            if r {
                assert_seqs_equal!(
                    self.ids() == old(self).ids().update(index as int, new_entry.id as int)
                );
                assert_seqs_equal!(
                    self.rks() == old(self).rks().update(index as int, new_entry.rk as int)
                );
            } else {
                assert(self.entries@ =~= old(self).entries@);
                assert_seqs_equal!(self.ids() == old(self).ids());
                assert_seqs_equal!(self.rks() == old(self).rks());
            }
        }
        r
    }

    /// Walks from `element` to its root, halving the path on the way: each
    /// visited element is redirected to its grandparent by a best-effort
    /// compare-and-swap.  Returns the root's entry, so the caller has the
    /// root's rank without a second load.  The partition is untouched; only
    /// tree shapes shorten.
    fn find_entry(&mut self, element: usize) -> (r: Entry)
        requires
            old(self).wf(),
            element < old(self).spec_len(),
        ensures
            final(self).wf(),
            unchanged_sets(*old(self), *final(self)),
            final(self).level@ == old(self).level@,
            final(self).level_cap@ == old(self).level_cap@,
            old(self).parent_of(element as int) == element ==> final(self).entries@ == old(
                self,
            ).entries@,
            forall|i: int|
                0 <= i < old(self).spec_len() && old(self).parent_of(i) == i
                    ==> final(self).entries@[i] == old(self).entries@[i],
            forall|i: int|
                0 <= i < old(self).spec_len() && old(self).parent_of(i) == old(self).root_of(i)
                    ==> final(self).parent_of(i) == old(self).parent_of(i),
            forall|i: int|
                0 <= i < old(self).spec_len() && old(self).level@[i] < old(self).level@[element as int]
                    ==> final(self).entries@[i] == old(self).entries@[i],
            r.id == old(self).root_of(element as int),
            r.id < old(self).spec_len(),
            r.rk < RK_MAX,
            final(self).parent_of(r.id as int) == r.id,
            r.rk == final(self).rank_at(r.id as int),
    {
        let ghost o = *self;
        let ghost e0: int = element as int;
        let mut element: usize = element;
        let mut parent: Entry = self.load(element);
        while element != parent.id
            invariant
                o.wf(),
                self.wf(),
                o.spec_len() == self.spec_len(),
                self.level@ == o.level@,
                self.level_cap@ == o.level_cap@,
                element < self.spec_len(),
                0 <= e0 < o.spec_len(),
                parent.id == self.parent_of(element as int),
                parent.rk == self.rank_at(element as int),
                parent.id < self.spec_len(),
                parent.rk < RK_MAX,
                o.level@[e0] <= self.level@[element as int],
                o.parent_of(e0) == e0 ==> element == e0 && self.entries@ == o.entries@,
                self.root_of(element as int) == o.root_of(e0),
                forall|i: int|
                    0 <= i < o.spec_len() ==> #[trigger] self.root_of(i) == o.root_of(i),
                forall|i: int|
                    0 <= i < o.spec_len() && o.parent_of(i) == i ==> #[trigger] self.entries@[i]
                        == o.entries@[i],
                forall|i: int|
                    0 <= i < o.spec_len() && o.parent_of(i) == o.root_of(i) ==> #[trigger] self.parent_of(
                        i,
                    ) == o.parent_of(i),
                forall|i: int|
                    0 <= i < o.spec_len() && o.level@[i] < o.level@[e0]
                        ==> #[trigger] self.entries@[i] == o.entries@[i],
            decreases self.level_cap@ - self.level@[element as int],
        {
            let grandparent = self.load(parent.id);
            let ghost s = *self;
            proof {
                if o.parent_of(e0) == e0 {
                    assert(self.entries@[e0] == o.entries@[e0]);
                    assert(self.ids()[e0] == self.entries@[e0].spec_id());
                    assert(o.ids()[e0] == o.entries@[e0].spec_id());
                    assert(false);
                }
                assert(s.ids()[element as int] == parent.id);
                assert(s.level@[element as int] < s.level@[parent.id as int]);
                if s.parent_of(parent.id as int) == parent.id as int {
                    assert(grandparent.id == parent.id);
                } else {
                    assert(s.ids()[parent.id as int] == grandparent.id);
                    assert(s.level@[parent.id as int] < s.level@[grandparent.id as int]);
                }
                assert(s.level@[element as int] < s.level@[grandparent.id as int]);
            }
            let swapped = self.compare_and_swap(element, parent, grandparent);
            proof {
                assert(swapped);
                let p1 = s.ids();
                let lv = s.level@;
                let cap = s.level_cap@;
                let p2 = self.ids();
                let k: int = element as int;
                let b: int = grandparent.id as int;
                assert(p2 == p1.update(k, b));
                assert(b != k);
                assert forall|i: int| 0 <= i < p2.len() implies 0 <= #[trigger] p2[i] < p2.len() by {
                    if i != k {
                        assert(p2[i] == p1[i]);
                        assert(0 <= p1[i] < p1.len());
                    }
                }
                assert forall|i: int|
                    0 <= i < p2.len() && #[trigger] p2[i] != i implies lv[i] < lv[p2[i]] by {
                    if i != k {
                        assert(p2[i] == p1[i]);
                        assert(lv[i] < lv[p1[i]]);
                    }
                }
                assert(base::links_ok(p2, lv, cap));
                assert(self.wf());
                // The new parent is on the old walk, so every root is untouched.
                assert(base::root_in(p1, lv, cap, k) == base::root_in(p1, lv, cap, parent.id as int));
                assert(base::root_in(p1, lv, cap, parent.id as int) == base::root_in(p1, lv, cap, b));
                assert forall|j: int| 0 <= j < p2.len() implies #[trigger] self.root_of(j)
                    == s.root_of(j) by {
                    base::lemma_root_redirect(p1, lv, cap, p2, lv, cap, k, b, j);
                }
                // Root slots are never written: the target is not a root now,
                // so it was no root of the original state either.
                assert forall|i: int|
                    0 <= i < o.spec_len() && o.parent_of(i) == i implies #[trigger] self.entries@[i]
                    == o.entries@[i] by {
                    if i == k {
                        assert(s.entries@[i] == o.entries@[i]);
                        assert(s.parent_of(i) == o.parent_of(i)) by {
                            assert(s.ids()[i] == s.entries@[i].spec_id());
                            assert(o.ids()[i] == o.entries@[i].spec_id());
                        }
                        assert(false);
                    } else {
                        assert(self.entries@[i] == s.entries@[i]);
                    }
                }
                // An element already pointing at its root keeps that parent.
                assert forall|i: int|
                    0 <= i < o.spec_len() && o.parent_of(i) == o.root_of(i)
                    implies #[trigger] self.parent_of(i) == o.parent_of(i) by {
                    if i == k {
                        base::lemma_root_basics(o.ids(), o.level@, o.level_cap@, i);
                        let rt = o.root_of(i);
                        assert(s.parent_of(i) == o.parent_of(i));
                        assert(parent.id == rt);
                        assert(o.parent_of(rt) == rt);
                        assert(s.parent_of(rt) == rt) by {
                            assert(s.entries@[rt] == o.entries@[rt]);
                            assert(s.ids()[rt] == s.entries@[rt].spec_id());
                            assert(o.ids()[rt] == o.entries@[rt].spec_id());
                        }
                        assert(grandparent.id == parent.id);
                        assert(self.parent_of(i) == b);
                    } else {
                        assert(self.parent_of(i) == s.parent_of(i));
                    }
                }
                assert forall|i: int|
                    0 <= i < o.spec_len() && o.level@[i] < o.level@[e0]
                    implies #[trigger] self.entries@[i] == o.entries@[i] by {
                    if i != k {
                        assert(self.entries@[i] == s.entries@[i]);
                    }
                }
                assert(self.parent_of(parent.id as int) == s.parent_of(parent.id as int));
                assert(self.rank_at(parent.id as int) == s.rank_at(parent.id as int));
            }
            element = parent.id;
            parent = grandparent;
        }
        proof {
            assert(self.parent_of(element as int) == element as int);
            assert(self.root_of(element as int) == element as int);
            assert forall|i: int|
                0 <= i < o.spec_len() implies #[trigger] self.class_rank(i) == o.class_rank(i) by {
                base::lemma_root_basics(o.ids(), o.level@, o.level_cap@, i);
                let rt = o.root_of(i);
                assert(o.parent_of(rt) == rt) by {
                    assert(o.ids()[rt] == o.parent_of(rt));
                }
                assert(self.entries@[rt] == o.entries@[rt]);
                assert(self.rank_at(rt) == o.rank_at(rt)) by {
                    assert(self.rks()[rt] == self.entries@[rt].spec_rk());
                    assert(o.rks()[rt] == o.entries@[rt].spec_rk());
                }
                assert(self.root_of(i) == rt);
            }
        }
        parent
    }

    /// Bumps the rank of the root described by `entry` by one compare-and-swap
    /// of its whole entry, leaving the rank alone when its field is already at
    /// the top of its range: a missed increment only degrades balancing,
    /// never correctness.
    fn increment_rank(&mut self, entry: Entry)
        requires
            old(self).wf(),
            entry.id < old(self).spec_len(),
            old(self).parent_of(entry.id as int) == entry.id,
            entry.rk == old(self).rank_at(entry.id as int),
            entry.rk < RK_MAX,
        ensures
            final(self).wf(),
            final(self).spec_len() == old(self).spec_len(),
            forall|i: int|
                0 <= i < old(self).spec_len() ==> #[trigger] final(self).parent_of(i) == old(
                    self,
                ).parent_of(i),
            forall|i: int|
                0 <= i < old(self).spec_len() ==> #[trigger] final(self).root_of(i) == old(
                    self,
                ).root_of(i),
            final(self).rank_at(entry.id as int) == (if entry.rk + 1 < RK_MAX {
                entry.rk + 1
            } else {
                entry.rk as int
            }),
            forall|i: int|
                0 <= i < old(self).spec_len() && i != entry.id ==> #[trigger] final(self).rank_at(i)
                    == old(self).rank_at(i),
    {
        if entry.rk + 1 < RK_MAX {
            let _ = self.compare_and_swap(entry.id, entry, entry.inc_rank());
            proof {
                assert(self.ids() =~= old(self).ids());
                assert forall|i: int| 0 <= i < old(self).spec_len() implies #[trigger] self.root_of(
                    i,
                ) == old(self).root_of(i) by {
                    assert(self.level@ == old(self).level@);
                }
            }
        }
    }

    /// Links the root `loser` under the distinct root `winner` by one
    /// compare-and-swap that redirects the loser's id, keeping the loser's
    /// now-inert rank in its slot.  Also raises the ghost level of the winner
    /// above the loser's, which keeps every parent walk terminating.
    fn link_roots(&mut self, loser: Entry, winner: Entry) -> (r: bool)
        requires
            old(self).wf(),
            loser.id < old(self).spec_len(),
            winner.id < old(self).spec_len(),
            loser.id != winner.id,
            old(self).parent_of(loser.id as int) == loser.id,
            old(self).parent_of(winner.id as int) == winner.id,
            loser.rk == old(self).rank_at(loser.id as int),
            loser.rk < RK_MAX,
        ensures
            r,
            final(self).wf(),
            final(self).spec_len() == old(self).spec_len(),
            forall|i: int|
                0 <= i < old(self).spec_len() ==> #[trigger] final(self).root_of(i) == (if old(
                    self,
                ).root_of(i) == loser.id {
                    winner.id as int
                } else {
                    old(self).root_of(i)
                }),
            forall|i: int|
                0 <= i < old(self).spec_len() ==> #[trigger] final(self).rank_at(i) == old(
                    self,
                ).rank_at(i),
            forall|i: int|
                0 <= i < old(self).spec_len() && i != loser.id ==> #[trigger] final(self).parent_of(
                    i,
                ) == old(self).parent_of(i),
            final(self).parent_of(loser.id as int) == winner.id,
    {
        let r = self.compare_and_swap(loser.id, loser, Entry::with_rank(winner.id, loser.rk));
        proof {
            let p1 = old(self).ids();
            let lv = old(self).level@;
            let cap = old(self).level_cap@;
            let li: int = loser.id as int;
            let wi: int = winner.id as int;
            let bump: nat = if lv[li] + 1 > lv[wi] {
                (lv[li] + 1) as nat
            } else {
                lv[wi]
            };
            self.level@ = lv.update(wi, bump);
            self.level_cap@ = if bump > cap {
                bump
            } else {
                cap
            };
            let p2 = self.ids();
            let lv2 = self.level@;
            let cap2 = self.level_cap@;
            assert(p2 == p1.update(li, wi as int));
            assert(self.rks() =~= old(self).rks());
            assert forall|i: int| 0 <= i < p2.len() implies 0 <= #[trigger] p2[i] < p2.len() by {
                if i != li {
                    assert(p2[i] == p1[i]);
                    assert(0 <= p1[i] < p1.len());
                }
            }
            assert forall|i: int| 0 <= i < p2.len() implies #[trigger] lv2[i] <= cap2 by {
                if i != wi {
                    assert(lv2[i] == lv[i]);
                    assert(lv[i] <= cap);
                }
            }
            assert forall|i: int| 0 <= i < p2.len() && #[trigger] p2[i] != i implies lv2[i]
                < lv2[p2[i]] by {
                if i == li {
                    assert(p2[i] == wi);
                    assert(lv2[li] == lv[li]);
                    assert(lv2[wi] == bump);
                } else if i == wi {
                    assert(p2[wi] == p1[wi]);
                    assert(p1[wi] == wi);
                } else {
                    assert(p2[i] == p1[i]);
                    assert(lv[i] < lv[p1[i]]);
                    assert(lv2[i] == lv[i]);
                    if p1[i] == wi {
                        assert(lv2[wi] == bump);
                        assert(bump >= lv[wi]);
                    } else {
                        assert(lv2[p1[i]] == lv[p1[i]]);
                    }
                }
            }
            assert(base::links_ok(p2, lv2, cap2));
            assert forall|j: int| 0 <= j < p2.len() implies #[trigger] self.root_of(j) == (if old(
                self,
            ).root_of(j) == li {
                wi
            } else {
                old(self).root_of(j)
            }) by {
                base::lemma_root_link(p1, lv, cap, p2, lv2, cap2, li, wi, j);
            }
        }
        r
    }

    /// Joins the sets of the two given elements.
    ///
    /// Returns whether anything changed: `true` exactly when the two sets
    /// were different, so that this call is the one that merged them.
    ///
    /// The merged set's representative is decided by rank: the lower-ranked
    /// root is linked under the higher-ranked one, and on a tie the first
    /// argument's root is linked under the second argument's root, whose rank
    /// then grows by one (unless its field is saturated).  A linking
    /// compare-and-swap that found its root already changed would restart the
    /// whole operation from re-finding both roots; a failed rank increment is
    /// simply abandoned.
    #[verifier::loop_isolation(false)]
    pub fn union(&mut self, a_id: usize, b_id: usize) -> (r: bool)
        requires
            old(self).wf(),
            a_id < old(self).spec_len(),
            b_id < old(self).spec_len(),
        ensures
            final(self).wf(),
            final(self).spec_len() == old(self).spec_len(),
            r == !old(self).same_set(a_id as int, b_id as int),
            forall|i: int, j: int|
                #![trigger final(self).root_of(i), final(self).root_of(j)]
                0 <= i < old(self).spec_len() && 0 <= j < old(self).spec_len() && old(
                    self,
                ).same_set(i, j) ==> final(self).same_set(i, j),
            ({
                let n = old(self).spec_len();
                let ra = old(self).root_of(a_id as int);
                let rb = old(self).root_of(b_id as int);
                if ra == rb {
                    &&& (forall|i: int|
                        0 <= i < n ==> #[trigger] final(self).root_of(i) == old(self).root_of(i))
                    &&& (forall|i: int|
                        0 <= i < n ==> #[trigger] final(self).class_rank(i) == old(
                            self,
                        ).class_rank(i))
                } else if old(self).class_rank(a_id as int) > old(self).class_rank(b_id as int) {
                    &&& (forall|i: int|
                        0 <= i < n ==> #[trigger] final(self).root_of(i) == (if old(self).root_of(i)
                            == rb {
                            ra
                        } else {
                            old(self).root_of(i)
                        }))
                    &&& (forall|i: int|
                        0 <= i < n ==> #[trigger] final(self).class_rank(i) == (if old(
                            self,
                        ).root_of(i) == rb {
                            old(self).class_rank(a_id as int)
                        } else {
                            old(self).class_rank(i)
                        }))
                } else if old(self).class_rank(b_id as int) > old(self).class_rank(a_id as int) {
                    &&& (forall|i: int|
                        0 <= i < n ==> #[trigger] final(self).root_of(i) == (if old(self).root_of(i)
                            == ra {
                            rb
                        } else {
                            old(self).root_of(i)
                        }))
                    &&& (forall|i: int|
                        0 <= i < n ==> #[trigger] final(self).class_rank(i) == (if old(
                            self,
                        ).root_of(i) == ra {
                            old(self).class_rank(b_id as int)
                        } else {
                            old(self).class_rank(i)
                        }))
                } else {
                    let nr = if old(self).class_rank(b_id as int) + 1 < RK_MAX {
                        old(self).class_rank(b_id as int) + 1
                    } else {
                        old(self).class_rank(b_id as int)
                    };
                    &&& (forall|i: int|
                        0 <= i < n ==> #[trigger] final(self).root_of(i) == (if old(self).root_of(i)
                            == ra {
                            rb
                        } else {
                            old(self).root_of(i)
                        }))
                    &&& (forall|i: int|
                        0 <= i < n ==> #[trigger] final(self).class_rank(i) == (if old(
                            self,
                        ).root_of(i) == ra || old(self).root_of(i) == rb {
                            nr
                        } else {
                            old(self).class_rank(i)
                        }))
                }
            }),
            final(self).roots_seq() == (if old(self).class_rank(a_id as int) > old(self).class_rank(
                b_id as int,
            ) {
                base::merged(old(self).roots_seq(), b_id as int, a_id as int)
            } else {
                base::merged(old(self).roots_seq(), a_id as int, b_id as int)
            }),
    {
        let ghost o = *self;
        let ghost a0: int = a_id as int;
        let ghost b0: int = b_id as int;
        let mut a_id: usize = a_id;
        let mut b_id: usize = b_id;
        // Through a unique reference no interleaved mutation exists, so the
        // linking compare-and-swap is proven to succeed and every pass
        // through this retry loop returns: the back edge is unreachable.
        loop
            invariant
                *self == o,
                a_id == a0,
                b_id == b0,
            decreases 0int,
        {
            let a = self.find_entry(a_id);
            let ghost s1 = *self;
            let b = self.find_entry(b_id);
            let ghost s2 = *self;
            proof {
                base::lemma_root_basics(o.ids(), o.level@, o.level_cap@, a0);
                base::lemma_root_basics(o.ids(), o.level@, o.level_cap@, b0);
                assert(a.id == o.root_of(a0));
                assert(s1.root_of(b0) == o.root_of(b0));
                assert(b.id == o.root_of(b0));
                // the first root's entry is intact after the second find
                assert(s2.entries@[a.id as int] == s1.entries@[a.id as int]);
                assert(s2.parent_of(a.id as int) == s2.entries@[a.id as int].spec_id());
                assert(s1.parent_of(a.id as int) == s1.entries@[a.id as int].spec_id());
                assert(s2.parent_of(a.id as int) == a.id);
                assert(s2.rank_at(a.id as int) == s2.entries@[a.id as int].spec_rk());
                assert(s1.rank_at(a.id as int) == s1.entries@[a.id as int].spec_rk());
                assert(s2.rank_at(a.id as int) == a.rk);
                // the roots' stored ranks are the class ranks of the inputs
                assert(s1.class_rank(a0) == o.class_rank(a0));
                assert(s1.root_of(a0) == a.id);
                assert(a.rk == o.class_rank(a0));
                assert(s2.class_rank(b0) == o.class_rank(b0));
                assert(s2.root_of(b0) == b.id);
                assert(b.rk == o.class_rank(b0));
                assert forall|i: int| 0 <= i < o.spec_len() implies #[trigger] s2.root_of(i)
                    == o.root_of(i) by {
                    assert(s1.root_of(i) == o.root_of(i));
                }
                assert forall|i: int| 0 <= i < o.spec_len() implies #[trigger] s2.class_rank(i)
                    == o.class_rank(i) by {
                    assert(s1.class_rank(i) == o.class_rank(i));
                }
            }
            if a.id == b.id {
                proof {
                    assert forall|i: int| 0 <= i < o.spec_len() implies #[trigger] self.root_of(i)
                        == o.root_of(i) by {}
                    assert_seqs_equal!(
                        self.roots_seq() == base::merged(o.roots_seq(), a0, b0),
                        i => {
                            assert(o.roots_seq()[a0] == o.root_of(a0));
                            assert(o.roots_seq()[b0] == o.root_of(b0));
                            assert(o.roots_seq()[i] == o.root_of(i));
                            assert(self.roots_seq()[i] == self.root_of(i));
                        }
                    );
                }
                return false;
            }
            if a.rk > b.rk {
                if self.link_roots(b, a) {
                    proof {
                        let ra = o.root_of(a0);
                        let rb = o.root_of(b0);
                        assert forall|i: int| 0 <= i < o.spec_len() implies #[trigger] self.root_of(
                            i,
                        ) == (if o.root_of(i) == rb {
                            ra
                        } else {
                            o.root_of(i)
                        }) by {
                            assert(s2.root_of(i) == o.root_of(i));
                        }
                        assert forall|i: int|
                            0 <= i < o.spec_len() implies #[trigger] self.class_rank(i) == (if o.root_of(
                            i,
                        ) == rb {
                            o.class_rank(a0)
                        } else {
                            o.class_rank(i)
                        }) by {
                            base::lemma_root_basics(o.ids(), o.level@, o.level_cap@, i);
                            let rt = o.root_of(i);
                            assert(s2.root_of(i) == rt);
                            assert(s2.class_rank(i) == o.class_rank(i));
                            if rt == rb {
                                assert(self.root_of(i) == ra);
                                assert(self.rank_at(ra) == s2.rank_at(ra));
                            } else {
                                assert(self.root_of(i) == rt);
                                assert(self.rank_at(rt) == s2.rank_at(rt));
                                assert(s2.class_rank(i) == s2.rank_at(s2.root_of(i)));
                            }
                        }
                        assert_seqs_equal!(
                            self.roots_seq() == base::merged(o.roots_seq(), b0, a0),
                            i => {
                                assert(o.roots_seq()[a0] == o.root_of(a0));
                                assert(o.roots_seq()[b0] == o.root_of(b0));
                                assert(o.roots_seq()[i] == o.root_of(i));
                                assert(self.roots_seq()[i] == self.root_of(i));
                            }
                        );
                    }
                    return true;
                }
            } else if b.rk > a.rk {
                if self.link_roots(a, b) {
                    proof {
                        let ra = o.root_of(a0);
                        let rb = o.root_of(b0);
                        assert forall|i: int| 0 <= i < o.spec_len() implies #[trigger] self.root_of(
                            i,
                        ) == (if o.root_of(i) == ra {
                            rb
                        } else {
                            o.root_of(i)
                        }) by {
                            assert(s2.root_of(i) == o.root_of(i));
                        }
                        assert forall|i: int|
                            0 <= i < o.spec_len() implies #[trigger] self.class_rank(i) == (if o.root_of(
                            i,
                        ) == ra {
                            o.class_rank(b0)
                        } else {
                            o.class_rank(i)
                        }) by {
                            base::lemma_root_basics(o.ids(), o.level@, o.level_cap@, i);
                            let rt = o.root_of(i);
                            assert(s2.root_of(i) == rt);
                            assert(s2.class_rank(i) == o.class_rank(i));
                            if rt == ra {
                                assert(self.root_of(i) == rb);
                                assert(self.rank_at(rb) == s2.rank_at(rb));
                            } else {
                                assert(self.root_of(i) == rt);
                                assert(self.rank_at(rt) == s2.rank_at(rt));
                                assert(s2.class_rank(i) == s2.rank_at(s2.root_of(i)));
                            }
                        }
                        assert_seqs_equal!(
                            self.roots_seq() == base::merged(o.roots_seq(), a0, b0),
                            i => {
                                assert(o.roots_seq()[a0] == o.root_of(a0));
                                assert(o.roots_seq()[b0] == o.root_of(b0));
                                assert(o.roots_seq()[i] == o.root_of(i));
                                assert(self.roots_seq()[i] == self.root_of(i));
                            }
                        );
                    }
                    return true;
                }
            } else {
                if self.link_roots(a, b) {
                    let ghost s3 = *self;
                    proof {
                        assert(s3.parent_of(b.id as int) == b.id);
                        assert(s3.rank_at(b.id as int) == b.rk);
                    }
                    self.increment_rank(b);
                    proof {
                        let ra = o.root_of(a0);
                        let rb = o.root_of(b0);
                        let nr: int = if b.rk + 1 < RK_MAX {
                            b.rk + 1
                        } else {
                            b.rk as int
                        };
                        assert forall|i: int| 0 <= i < o.spec_len() implies #[trigger] self.root_of(
                            i,
                        ) == (if o.root_of(i) == ra {
                            rb
                        } else {
                            o.root_of(i)
                        }) by {
                            assert(s2.root_of(i) == o.root_of(i));
                            assert(s3.root_of(i) == (if s2.root_of(i) == ra {
                                rb
                            } else {
                                s2.root_of(i)
                            }));
                            assert(self.root_of(i) == s3.root_of(i));
                        }
                        assert forall|i: int|
                            0 <= i < o.spec_len() implies #[trigger] self.class_rank(i) == (if o.root_of(
                            i,
                        ) == ra || o.root_of(i) == rb {
                            nr
                        } else {
                            o.class_rank(i)
                        }) by {
                            base::lemma_root_basics(o.ids(), o.level@, o.level_cap@, i);
                            let rt = o.root_of(i);
                            assert(s2.root_of(i) == rt);
                            assert(s2.class_rank(i) == o.class_rank(i));
                            if rt == ra || rt == rb {
                                assert(self.root_of(i) == rb);
                                assert(self.rank_at(rb) == nr);
                            } else {
                                assert(self.root_of(i) == rt);
                                assert(self.rank_at(rt) == s3.rank_at(rt));
                                assert(s3.rank_at(rt) == s2.rank_at(rt));
                                assert(s2.class_rank(i) == s2.rank_at(s2.root_of(i)));
                            }
                        }
                        assert_seqs_equal!(
                            self.roots_seq() == base::merged(o.roots_seq(), a0, b0),
                            i => {
                                assert(o.roots_seq()[a0] == o.root_of(a0));
                                assert(o.roots_seq()[b0] == o.root_of(b0));
                                assert(o.roots_seq()[i] == o.root_of(i));
                                assert(self.roots_seq()[i] == self.root_of(i));
                            }
                        );
                    }
                    return true;
                }
            }
            proof {
                assert(false);
            }
            a_id = a.id;
            b_id = b.id;
        }
    }

    /// Finds the representative element for the given element's set.
    pub fn find(&mut self, element: usize) -> (r: usize)
        requires
            old(self).wf(),
            element < old(self).spec_len(),
        ensures
            final(self).wf(),
            unchanged_sets(*old(self), *final(self)),
            r == old(self).root_of(element as int),
            r < old(self).spec_len(),
            final(self).parent_of(r as int) == r,
            final(self).root_of(r as int) == r,
            final(self).same_set(element as int, r as int),
            forall|i: int|
                0 <= i < old(self).spec_len() && old(self).parent_of(i) == old(self).root_of(i)
                    ==> final(self).parent_of(i) == old(self).parent_of(i),
    {
        let e = self.find_entry(element);
        proof {
            base::lemma_root_basics(self.ids(), self.level@, self.level_cap@, e.id as int);
        }
        e.id
    }

    /// Determines whether two elements are in the same set.
    ///
    /// After finding both representatives, a mismatch is only believed once
    /// a re-load confirms the first is still genuinely self-rooted: an
    /// interleaved union could otherwise have made the comparison stale, and
    /// the whole comparison would be retried.
    #[verifier::loop_isolation(false)]
    pub fn equiv(&mut self, a: usize, b: usize) -> (r: bool)
        requires
            old(self).wf(),
            a < old(self).spec_len(),
            b < old(self).spec_len(),
        ensures
            final(self).wf(),
            unchanged_sets(*old(self), *final(self)),
            r == old(self).same_set(a as int, b as int),
            forall|i: int|
                0 <= i < old(self).spec_len() && old(self).parent_of(i) == old(self).root_of(i)
                    ==> final(self).parent_of(i) == old(self).parent_of(i),
    {
        let ghost o = *self;
        let ghost a0: int = a as int;
        let ghost b0: int = b as int;
        let mut a: usize = a;
        let mut b: usize = b;
        // Through a unique reference no interleaved mutation exists, so the
        // re-loaded representative is proven to still be a root and every
        // pass through this retry loop returns: the back edge is
        // unreachable.
        loop
            invariant
                *self == o,
                a == a0,
                b == b0,
            decreases 0int,
        {
            a = self.find(a);
            let ghost s1 = *self;
            b = self.find(b);
            let ghost s2 = *self;
            proof {
                assert(a == o.root_of(a0));
                assert(s1.root_of(b0) == o.root_of(b0));
                assert(b == o.root_of(b0));
                assert forall|i: int| 0 <= i < o.spec_len() implies #[trigger] s2.root_of(i)
                    == o.root_of(i) by {
                    assert(s1.root_of(i) == o.root_of(i));
                }
                assert forall|i: int| 0 <= i < o.spec_len() implies #[trigger] s2.class_rank(i)
                    == o.class_rank(i) by {
                    assert(s1.class_rank(i) == o.class_rank(i));
                }
                assert forall|i: int|
                    0 <= i < o.spec_len() && o.parent_of(i) == o.root_of(i)
                    implies #[trigger] s2.parent_of(i) == o.parent_of(i) by {
                    assert(s1.parent_of(i) == o.parent_of(i));
                    assert(s1.root_of(i) == o.root_of(i));
                }
                // the first representative is still a root after the second
                // find
                assert(s1.parent_of(a as int) == a);
                base::lemma_root_basics(s1.ids(), s1.level@, s1.level_cap@, a as int);
                assert(s1.root_of(a as int) == a);
                assert(s2.parent_of(a as int) == a);
            }
            if a == b {
                return true;
            }
            if self.load(a).id == a {
                return false;
            }
            proof {
                assert(false);
            }
        }
    }

    /// Forces all laziness, so that each element points directly at its
    /// set's representative.
    ///
    /// For every index in turn: load its entry; a self-rooted entry is done;
    /// otherwise find the parent's current root and, unless the parent is
    /// already that root, redirect the index straight to it by one
    /// compare-and-swap, re-reading fresh state if an interleaved mutation
    /// got there first.  Purely an optimization pass: no set changes.
    #[verifier::loop_isolation(false)]
    pub fn force(&mut self)
        requires
            old(self).wf(),
        ensures
            final(self).wf(),
            unchanged_sets(*old(self), *final(self)),
            forall|i: int|
                0 <= i < old(self).spec_len()
                    ==> #[trigger] final(self).parent_of(i) == final(self).root_of(i),
            (forall|i: int|
                0 <= i < old(self).spec_len() ==> old(self).parent_of(i) == old(self).root_of(i))
                ==> (forall|i: int|
                0 <= i < old(self).spec_len() ==> #[trigger] final(self).parent_of(i) == old(
                    self,
                ).parent_of(i) && final(self).rank_at(i) == old(self).rank_at(i)),
    {
        let ghost o = *self;
        let n = self.len();
        let mut i: usize = 0;
        while i < n
            invariant
                self.wf(),
                self.spec_len() == o.spec_len(),
                i <= n,
                unchanged_sets(o, *self),
                forall|j: int| 0 <= j < i ==> #[trigger] self.parent_of(j) == self.root_of(j),
                (forall|j: int|
                    0 <= j < o.spec_len() ==> o.parent_of(j) == o.root_of(j)) ==> self.entries@
                    == o.entries@,
            decreases n - i,
        {
            let ghost si = *self;
            // Through a unique reference the compare-and-swap is proven to
            // succeed, so every pass through this retry loop breaks: the
            // back edge is unreachable.
            #[verifier::loop_isolation(true)]
            loop
                invariant_except_break
                    *self == si,
                    si.wf(),
                    i < si.spec_len(),
                ensures
                    self.wf(),
                    self.spec_len() == si.spec_len(),
                    unchanged_sets(si, *self),
                    forall|j: int|
                        0 <= j < si.spec_len() && si.parent_of(j) == si.root_of(j)
                            ==> #[trigger] self.parent_of(j) == si.parent_of(j),
                    self.parent_of(i as int) == self.root_of(i as int),
                    (forall|j: int|
                        0 <= j < si.spec_len() ==> si.parent_of(j) == si.root_of(j))
                        ==> self.entries@ == si.entries@,
                decreases 0int,
            {
                let parent = self.load(i);
                if i == parent.id {
                    proof {
                        assert(self.ids()[i as int] == i as int);
                        assert(self.root_of(i as int) == i as int);
                    }
                    break;
                } else {
                    proof {
                        assert(si.ids()[i as int] == parent.id);
                        assert(si.level@[i as int] < si.level@[parent.id as int]);
                        assert(si.root_of(i as int) == si.root_of(parent.id as int));
                    }
                    let root = self.find_entry(parent.id);
                    let ghost sb = *self;
                    proof {
                        assert(sb.entries@[i as int] == si.entries@[i as int]);
                        assert(sb.parent_of(i as int) == sb.entries@[i as int].spec_id());
                        assert(si.parent_of(i as int) == si.entries@[i as int].spec_id());
                        assert(sb.parent_of(i as int) == parent.id);
                        assert(sb.rank_at(i as int) == sb.entries@[i as int].spec_rk());
                        assert(si.rank_at(i as int) == si.entries@[i as int].spec_rk());
                        assert(sb.rank_at(i as int) == parent.rk);
                        assert(root.id == si.root_of(parent.id as int));
                        assert(sb.root_of(i as int) == root.id);
                    }
                    if parent.id == root.id {
                        proof {
                            if (forall|j: int|
                                0 <= j < si.spec_len() ==> si.parent_of(j) == si.root_of(j)) {
                                assert(si.parent_of(i as int) == si.root_of(i as int));
                                base::lemma_root_basics(
                                    si.ids(),
                                    si.level@,
                                    si.level_cap@,
                                    i as int,
                                );
                                assert(si.parent_of(parent.id as int) == parent.id);
                                assert(self.entries@ == si.entries@);
                            }
                        }
                        break;
                    }
                    if self.compare_and_swap(i, parent, root) {
                        proof {
                            if (forall|j: int|
                                0 <= j < si.spec_len() ==> si.parent_of(j) == si.root_of(j)) {
                                assert(si.parent_of(i as int) == si.root_of(i as int));
                                base::lemma_root_basics(
                                    si.ids(),
                                    si.level@,
                                    si.level_cap@,
                                    i as int,
                                );
                                assert(si.parent_of(parent.id as int) == parent.id);
                                base::lemma_root_basics(
                                    si.ids(),
                                    si.level@,
                                    si.level_cap@,
                                    parent.id as int,
                                );
                                assert(root.id == parent.id);
                                assert(false);
                            }
                            let p1 = sb.ids();
                            let lv = sb.level@;
                            let cap = sb.level_cap@;
                            let p2 = self.ids();
                            let k: int = i as int;
                            let rt: int = root.id as int;
                            assert(p2 == p1.update(k, rt));
                            base::lemma_root_basics(si.ids(), si.level@, si.level_cap@, parent.id as int);
                            assert(lv == si.level@);
                            assert(lv[parent.id as int] <= lv[rt]);
                            assert(lv[k] < lv[rt]);
                            assert(rt != k);
                            assert forall|x: int| 0 <= x < p2.len() implies 0 <= #[trigger] p2[x]
                                < p2.len() by {
                                if x != k {
                                    assert(p2[x] == p1[x]);
                                    assert(0 <= p1[x] < p1.len());
                                }
                            }
                            assert forall|x: int|
                                0 <= x < p2.len() && #[trigger] p2[x] != x implies lv[x]
                                < lv[p2[x]] by {
                                if x != k {
                                    assert(p2[x] == p1[x]);
                                    assert(lv[x] < lv[p1[x]]);
                                }
                            }
                            assert(base::links_ok(p2, lv, cap));
                            assert(self.wf());
                            assert(sb.parent_of(rt) == rt);
                            assert(sb.root_of(rt) == rt);
                            assert(sb.root_of(rt) == sb.root_of(k));
                            assert forall|j: int| 0 <= j < p2.len() implies #[trigger] self.root_of(
                                j,
                            ) == sb.root_of(j) by {
                                base::lemma_root_redirect(p1, lv, cap, p2, lv, cap, k, rt, j);
                            }
                            assert(self.parent_of(k) == rt);
                            assert(self.root_of(k) == sb.root_of(k));
                            // root slots keep their entries, so class ranks
                            // are untouched
                            assert forall|j: int|
                                0 <= j < si.spec_len() implies #[trigger] self.class_rank(j)
                                == si.class_rank(j) by {
                                base::lemma_root_basics(si.ids(), si.level@, si.level_cap@, j);
                                let rj = si.root_of(j);
                                assert(si.parent_of(rj) == rj) by {
                                    assert(si.ids()[rj] == si.parent_of(rj));
                                }
                                assert(rj != k);
                                assert(sb.entries@[rj] == si.entries@[rj]);
                                assert(self.entries@[rj] == sb.entries@[rj]);
                                assert(self.rank_at(rj) == si.rank_at(rj)) by {
                                    assert(self.rks()[rj] == self.entries@[rj].spec_rk());
                                    assert(si.rks()[rj] == si.entries@[rj].spec_rk());
                                }
                                assert(sb.root_of(j) == si.root_of(j));
                                assert(self.root_of(j) == rj);
                            }
                            assert forall|j: int|
                                0 <= j < si.spec_len() && si.parent_of(j) == si.root_of(j)
                                implies #[trigger] self.parent_of(j) == si.parent_of(j) by {
                                assert(j != k);
                                assert(sb.parent_of(j) == si.parent_of(j));
                                assert(self.entries@[j] == sb.entries@[j]);
                                assert(self.parent_of(j) == sb.parent_of(j)) by {
                                    assert(self.ids()[j] == self.entries@[j].spec_id());
                                    assert(sb.ids()[j] == sb.entries@[j].spec_id());
                                }
                            }
                        }
                        break;
                    }
                    proof {
                        assert(false);
                    }
                }
            }
            proof {
                assert forall|j: int| 0 <= j < i + 1 implies #[trigger] self.parent_of(j)
                    == self.root_of(j) by {
                    if j < i {
                        assert(si.parent_of(j) == si.root_of(j));
                        assert(self.parent_of(j) == si.parent_of(j));
                        assert(self.root_of(j) == si.root_of(j));
                    }
                }
                if (forall|j: int|
                    0 <= j < o.spec_len() ==> o.parent_of(j) == o.root_of(j)) {
                    assert forall|j: int|
                        0 <= j < si.spec_len() implies #[trigger] si.parent_of(j) == si.root_of(
                        j,
                    ) by {
                        assert(si.entries@ == o.entries@);
                        assert(si.entries@[j] == o.entries@[j]);
                        assert(si.ids()[j] == si.entries@[j].spec_id());
                        assert(o.ids()[j] == o.entries@[j].spec_id());
                        assert(si.root_of(j) == o.root_of(j));
                        assert(o.parent_of(j) == o.root_of(j));
                    }
                    assert(self.entries@ == si.entries@);
                }
            }
            i = i + 1;
        }
        proof {
            if (forall|i: int|
                0 <= i < o.spec_len() ==> o.parent_of(i) == o.root_of(i)) {
                assert forall|i: int|
                    0 <= i < o.spec_len() implies #[trigger] self.parent_of(i) == o.parent_of(i)
                        && self.rank_at(i) == o.rank_at(i) by {
                    assert(self.entries@ == o.entries@);
                    assert(self.entries@[i] == o.entries@[i]);
                    assert(self.ids()[i] == self.entries@[i].spec_id());
                    assert(o.ids()[i] == o.entries@[i].spec_id());
                    assert(self.rks()[i] == self.entries@[i].spec_rk());
                    assert(o.rks()[i] == o.entries@[i].spec_rk());
                }
            }
        }
    }

    /// Returns a vector of set representatives, one per element, after
    /// forcing the structure so that every entry points straight at its
    /// root.
    #[verifier::loop_isolation(false)]
    pub fn to_vec(&mut self) -> (r: Vec<usize>)
        requires
            old(self).wf(),
        ensures
            final(self).wf(),
            unchanged_sets(*old(self), *final(self)),
            forall|i: int|
                0 <= i < old(self).spec_len()
                    ==> #[trigger] final(self).parent_of(i) == final(self).root_of(i),
            r@.len() == old(self).spec_len(),
            forall|i: int|
                0 <= i < old(self).spec_len() ==> #[trigger] r@[i] == old(self).root_of(i),
            forall|i: int|
                0 <= i < old(self).spec_len() ==> 0 <= #[trigger] r@[i] < old(self).spec_len()
                    && old(self).root_of(r@[i] as int) == r@[i],
            (forall|i: int|
                0 <= i < old(self).spec_len() ==> old(self).parent_of(i) == old(self).root_of(i))
                ==> (forall|i: int|
                0 <= i < old(self).spec_len() ==> #[trigger] final(self).parent_of(i) == old(
                    self,
                ).parent_of(i) && final(self).rank_at(i) == old(self).rank_at(i)),
    {
        self.force();
        let n = self.len();
        let mut result: Vec<usize> = Vec::new();
        let mut i: usize = 0;
        while i < n
            invariant
                i <= n,
                result@.len() == i,
                forall|j: int| 0 <= j < i ==> #[trigger] result@[j] == self.root_of(j),
            decreases n - i,
        {
            let e = self.load(i);
            proof {
                assert(e.id == self.parent_of(i as int));
                assert(self.parent_of(i as int) == self.root_of(i as int));
            }
            result.push(e.id);
            i = i + 1;
        }
        proof {
            assert forall|j: int|
                0 <= j < old(self).spec_len() implies 0 <= #[trigger] result@[j] < old(
                self,
            ).spec_len() && old(self).root_of(result@[j] as int) == result@[j] by {
                base::lemma_root_basics(old(self).ids(), old(self).level@, old(self).level_cap@, j);
                base::lemma_root_basics(
                    old(self).ids(),
                    old(self).level@,
                    old(self).level_cap@,
                    old(self).root_of(j),
                );
            }
        }
        result
    }

    /// Reads out the serialized form: each element's (id, rank) pair, in
    /// index order.  Each pair is read as one unit, but the vector as a
    /// whole need not correspond to a single instant under interleaved
    /// mutation.
    pub fn to_entries(&self) -> (r: Vec<(usize, usize)>)
        requires
            self.wf(),
        ensures
            r@.len() == self.spec_len(),
            forall|i: int|
                0 <= i < self.spec_len() ==> (#[trigger] r@[i]).0 == self.parent_of(i)
                    && r@[i].1 == self.rank_at(i),
    {
        let n = self.len();
        let mut result: Vec<(usize, usize)> = Vec::new();
        let mut i: usize = 0;
        while i < n
            invariant
                self.wf(),
                n == self.spec_len(),
                i <= n,
                result@.len() == i,
                forall|j: int|
                    0 <= j < i ==> (#[trigger] result@[j]).0 == self.parent_of(j)
                        && result@[j].1 == self.rank_at(j),
            decreases n - i,
        {
            let e = self.load(i);
            result.push((e.id, e.rk));
            i = i + 1;
        }
        result
    }

    /// Rebuilds a structure from its serialized form: each element's
    /// (id, rank) pair, in index order.  Accepted exactly when the form is a
    /// forest of an admissible size: every id in range, every rank fitting
    /// its field, and every parent walk reaching a self-rooted entry (so a
    /// cyclic form is rejected, where `find` could never return).
    /// `to_entries` always produces an accepted form.
    pub fn from_entries(pairs: &Vec<(usize, usize)>) -> (r: Option<AUnionFind>)
        ensures
            r is Some <==> (pairs@.len() <= max_size_spec() && (forall|i: int|
                0 <= i < pairs@.len() ==> ((#[trigger] pairs@[i]).0 < pairs@.len()
                    && pairs@[i].1 < RK_MAX && base::depth_in(
                    base::entry_parents(pairs@),
                    i,
                    pairs@.len() as nat,
                ) is Some))),
            r matches Some(uf) ==> {
                &&& uf.wf()
                &&& uf.spec_len() == pairs@.len()
                &&& (forall|i: int|
                    0 <= i < pairs@.len() ==> #[trigger] uf.parent_of(i) == pairs@[i].0)
                &&& (forall|i: int|
                    0 <= i < pairs@.len() ==> #[trigger] uf.rank_at(i) == pairs@[i].1)
            },
    {
        let ghost pp = base::entry_parents(pairs@);
        let n = pairs.len();
        if n > Self::max_size() {
            return None;
        }
        let mut i: usize = 0;
        while i < n
            invariant
                i <= n,
                n == pairs@.len(),
                pp == base::entry_parents(pairs@),
                forall|j: int|
                    0 <= j < i ==> ((#[trigger] pairs@[j]).0 < n && pairs@[j].1 < RK_MAX
                        && base::depth_in(pp, j, n as nat) is Some),
            decreases n - i,
        {
            let p = pairs[i];
            if p.0 >= n || p.1 >= RK_MAX {
                return None;
            }
            if !base::reaches_root(pairs, i) {
                return None;
            }
            i = i + 1;
        }
        let mut entries: Vec<AtomicEntry> = Vec::new();
        let mut j: usize = 0;
        while j < n
            invariant
                j <= n,
                n == pairs@.len(),
                n <= max_size_spec(),
                pp == base::entry_parents(pairs@),
                entries@.len() == j,
                forall|k: int|
                    0 <= k < n ==> ((#[trigger] pairs@[k]).0 < n && pairs@[k].1 < RK_MAX
                        && base::depth_in(pp, k, n as nat) is Some),
                forall|k: int|
                    0 <= k < j ==> ((#[trigger] entries@[k]).spec_id() == pairs@[k].0
                        && entries@[k].spec_rk() == pairs@[k].1),
            decreases n - j,
        {
            let p = pairs[j];
            let word = pack(Entry::with_rank(p.0, p.1));
            entries.push(AtomicEntry { word });
            j = j + 1;
        }
        let uf = AUnionFind {
            entries,
            level: Ghost(
                Seq::new(
                    n as nat,
                    |k: int| (n - base::depth_in(base::entry_parents(pairs@), k, n as nat)->0) as nat,
                ),
            ),
            level_cap: Ghost(n as nat),
        };
        proof {
            assert forall|k: int| 0 <= k < n implies #[trigger] uf.ids()[k] == pairs@[k].0 by {
                assert(uf.entries@[k].spec_id() == pairs@[k].0);
            }
            assert(uf.ids() =~= pp);
            assert forall|k: int| 0 <= k < n implies #[trigger] uf.level@[k]
                <= uf.level_cap@ by {
                base::lemma_depth_bound(pp, k, n as nat);
            }
            assert forall|k: int|
                0 <= k < n && #[trigger] uf.ids()[k] != k implies uf.level@[k]
                < uf.level@[uf.ids()[k]] by {
                base::lemma_depth_bound(pp, k, n as nat);
                base::lemma_depth_step(pp, k, n as nat);
                base::lemma_depth_bound(pp, pp[k], n as nat);
            }
            assert(base::links_ok(uf.ids(), uf.level@, uf.level_cap@));
            assert forall|k: int| 0 <= k < n implies #[trigger] uf.rank_at(k) == pairs@[k].1 by {
                assert(uf.entries@[k].spec_rk() == pairs@[k].1);
            }
        }
        Some(uf)
    }

    /// A representative is a member of the set it represents: every
    /// element's root lies in range, is its own parent, and is its own
    /// representative, so `find`'s result shares a set with its argument.
    pub proof fn lemma_representative(self, i: int)
        requires
            self.wf(),
            0 <= i < self.spec_len(),
        ensures
            0 <= self.root_of(i) < self.spec_len(),
            self.parent_of(self.root_of(i)) == self.root_of(i),
            self.root_of(self.root_of(i)) == self.root_of(i),
            self.same_set(i, self.root_of(i)),
    {
        base::lemma_root_basics(self.ids(), self.level@, self.level_cap@, i);
        base::lemma_root_basics(self.ids(), self.level@, self.level_cap@, self.root_of(i));
    }

    /// Being in the same set is an equivalence relation on the elements:
    /// reflexive, symmetric and transitive.  Through `equiv`'s contract the
    /// same holds of the answers `equiv` returns.
    pub proof fn lemma_same_set_equivalence(self, a: int, b: int, c: int)
        requires
            self.wf(),
            0 <= a < self.spec_len(),
            0 <= b < self.spec_len(),
            0 <= c < self.spec_len(),
        ensures
            self.same_set(a, a),
            self.same_set(a, b) == self.same_set(b, a),
            self.same_set(a, b) && self.same_set(b, c) ==> self.same_set(a, c),
    {
    }

    /// The partition sequence and `same_set` agree: two elements share a set
    /// exactly when the sequence assigns them the same representative.  This
    /// connects `union`'s sequence-level contract with the pairwise laws in
    /// [`crate::base`].
    pub proof fn lemma_roots_seq_same_set(self, a: int, b: int)
        requires
            0 <= a < self.spec_len(),
            0 <= b < self.spec_len(),
        ensures
            base::same_class(self.roots_seq(), a, b) == self.same_set(a, b),
    {
        assert(self.roots_seq()[a] == self.root_of(a));
        assert(self.roots_seq()[b] == self.root_of(b));
    }

    /// Union monotonicity: an operation whose effect on the partition is the
    /// merge of two sets (in either link direction, as `union` ensures)
    /// never separates elements that already shared a set.
    pub proof fn lemma_union_monotone(
        pre: AUnionFind,
        post: AUnionFind,
        x: int,
        y: int,
        i: int,
        j: int,
    )
        requires
            0 <= x < pre.spec_len(),
            0 <= y < pre.spec_len(),
            0 <= i < pre.spec_len(),
            0 <= j < pre.spec_len(),
            post.spec_len() == pre.spec_len(),
            post.roots_seq() == base::merged(pre.roots_seq(), x, y) || post.roots_seq()
                == base::merged(pre.roots_seq(), y, x),
            pre.same_set(i, j),
        ensures
            post.same_set(i, j),
    {
        pre.lemma_roots_seq_same_set(i, j);
        post.lemma_roots_seq_same_set(i, j);
        base::lemma_merged_monotone(pre.roots_seq(), x, y, i, j);
        base::lemma_merged_monotone(pre.roots_seq(), y, x, i, j);
    }
}

impl Default for AUnionFind {
    /// The empty union-find, which every platform has room for.
    fn default() -> (r: AUnionFind)
        ensures
            r.wf(),
            r.spec_len() == 0,
    {
        match AUnionFind::new(0) {
            Ok(uf) => uf,
            Err(_) => {
                proof {
                    assert(false);
                }
                vstd::pervasive::unreached::<AUnionFind>()
            },
        }
    }
}

impl Clone for AUnionFind {
    /// An independent copy presenting the same elements, parents and ranks
    /// (and so the same partition).
    fn clone(&self) -> (r: Self)
        ensures
            r.spec_len() == self.spec_len(),
            forall|i: int|
                0 <= i < self.spec_len() ==> #[trigger] r.parent_of(i) == self.parent_of(i),
            forall|i: int|
                0 <= i < self.spec_len() ==> #[trigger] r.rank_at(i) == self.rank_at(i),
            self.wf() ==> r.wf() && (forall|i: int|
                0 <= i < self.spec_len() ==> #[trigger] r.root_of(i) == self.root_of(i)),
    {
        let n = self.entries.len();
        let mut entries: Vec<AtomicEntry> = Vec::new();
        let mut i: usize = 0;
        while i < n
            invariant
                i <= n,
                n == self.entries@.len(),
                entries@.len() == i,
                forall|j: int| 0 <= j < i ==> #[trigger] entries@[j] == self.entries@[j],
            decreases n - i,
        {
            entries.push(self.entries[i]);
            i = i + 1;
        }
        let r = AUnionFind { entries, level: Ghost(self.level@), level_cap: Ghost(self.level_cap@) };
        proof {
            assert(r.entries@ =~= self.entries@);
            assert(r.ids() =~= self.ids());
            assert(r.rks() =~= self.rks());
        }
        r
    }
}

} // verus!