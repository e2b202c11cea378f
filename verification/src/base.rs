//! The mathematical model shared by all union-find variants.
//!
//! A structure's state is abstracted as a parent forest: a sequence `p` where
//! `p[i]` is the parent of element `i`, and an element is a root exactly when
//! it is its own parent.  Termination of every parent walk is witnessed by a
//! ghost measure `lv` that strictly increases along every non-root link and is
//! bounded by `cap`; every concrete structure carries such a measure as ghost
//! state.
//!
//! The second half of the file studies the partition itself, represented as a
//! root assignment (the sequence `i -> root of i`).  `merged` is the effect of
//! one union on that assignment, and the lemmas about it are the order- and
//! direction-independence laws of unioning.

use vstd::prelude::*;

verus! {

/// The forest `p` is well formed under the termination measure `lv`
/// bounded by `cap`: parents stay in range and the measure strictly
/// increases along every non-root link.
pub open spec fn links_ok(p: Seq<int>, lv: Seq<nat>, cap: nat) -> bool {
    &&& p.len() == lv.len()
    &&& (forall|i: int| 0 <= i < p.len() ==> 0 <= #[trigger] p[i] < p.len())
    &&& (forall|i: int| 0 <= i < p.len() ==> #[trigger] lv[i] <= cap)
    &&& (forall|i: int| 0 <= i < p.len() && #[trigger] p[i] != i ==> lv[i] < lv[p[i]])
}

/// The root reached by following parent links from `i`.  The walk terminates
/// because the measure strictly increases at every step and is bounded.
pub open spec fn root_in(p: Seq<int>, lv: Seq<nat>, cap: nat, i: int) -> int
    decreases cap - lv[i]
        when links_ok(p, lv, cap) && 0 <= i < p.len()
{
    if p[i] == i {
        i
    } else {
        root_in(p, lv, cap, p[i])
    }
}

/// Basic facts about a parent walk: it ends at a root in range, the measure
/// never decreases along it, and an element is its own root exactly when it
/// is its own parent.
pub proof fn lemma_root_basics(p: Seq<int>, lv: Seq<nat>, cap: nat, i: int)
    requires
        links_ok(p, lv, cap),
        0 <= i < p.len(),
    ensures
        ({
            let r = root_in(p, lv, cap, i);
            &&& 0 <= r < p.len()
            &&& p[r] == r
            &&& lv[i] <= lv[r]
            &&& (p[i] == i <==> r == i)
            &&& (p[i] != i ==> lv[i] < lv[r])
        }),
    decreases cap - lv[i],
{
    if p[i] != i {
        lemma_root_basics(p, lv, cap, p[i]);
    }
}

/// Redirecting one element's parent to another member of its own set (path
/// halving, or the full compression done by `force`) changes no element's
/// root.
pub proof fn lemma_root_redirect(
    p: Seq<int>,
    lv: Seq<nat>,
    cap: nat,
    p2: Seq<int>,
    lv2: Seq<nat>,
    cap2: nat,
    k: int,
    b: int,
    j: int,
)
    requires
        links_ok(p, lv, cap),
        links_ok(p2, lv2, cap2),
        0 <= k < p.len(),
        0 <= b < p.len(),
        0 <= j < p.len(),
        p2 == p.update(k, b),
        b != k,
        root_in(p, lv, cap, b) == root_in(p, lv, cap, k),
    ensures
        root_in(p2, lv2, cap2, j) == root_in(p, lv, cap, j),
    decreases cap2 - lv2[j],
{
    if j == k {
        assert(p2[k] == b);
        assert(lv2[k] < lv2[b]);
        lemma_root_redirect(p, lv, cap, p2, lv2, cap2, k, b, b);
    } else if p[j] == j {
        assert(p2[j] == j);
    } else {
        assert(p2[j] == p[j]);
        assert(lv2[j] < lv2[p2[j]]);
        lemma_root_redirect(p, lv, cap, p2, lv2, cap2, k, b, p[j]);
    }
}

/// Linking the root `ra` under the distinct root `rb` moves exactly the
/// members of `ra`'s set to `rb`'s set and leaves every other element's root
/// unchanged.
pub proof fn lemma_root_link(
    p: Seq<int>,
    lv: Seq<nat>,
    cap: nat,
    p2: Seq<int>,
    lv2: Seq<nat>,
    cap2: nat,
    ra: int,
    rb: int,
    j: int,
)
    requires
        links_ok(p, lv, cap),
        links_ok(p2, lv2, cap2),
        0 <= ra < p.len(),
        0 <= rb < p.len(),
        0 <= j < p.len(),
        p2 == p.update(ra, rb),
        p[ra] == ra,
        p[rb] == rb,
        ra != rb,
    ensures
        root_in(p2, lv2, cap2, j) == if root_in(p, lv, cap, j) == ra {
            rb
        } else {
            root_in(p, lv, cap, j)
        },
    decreases cap2 - lv2[j],
{
    if j == ra {
        assert(p2[ra] == rb);
        assert(lv2[ra] < lv2[rb]);
        lemma_root_link(p, lv, cap, p2, lv2, cap2, ra, rb, rb);
    } else if p[j] == j {
        assert(p2[j] == j);
    } else {
        assert(p2[j] == p[j]);
        assert(lv2[j] < lv2[p2[j]]);
        lemma_root_link(p, lv, cap, p2, lv2, cap2, ra, rb, p[j]);
    }
}

/// Growing the forest with fresh elements changes no existing element's
/// root: a walk that starts below the old length stays below it.
pub proof fn lemma_root_extend(
    p: Seq<int>,
    lv: Seq<nat>,
    cap: nat,
    p2: Seq<int>,
    lv2: Seq<nat>,
    cap2: nat,
    j: int,
)
    requires
        links_ok(p, lv, cap),
        links_ok(p2, lv2, cap2),
        p.len() <= p2.len(),
        forall|i: int| 0 <= i < p.len() ==> p2[i] == p[i],
        0 <= j < p.len(),
    ensures
        root_in(p2, lv2, cap2, j) == root_in(p, lv, cap, j),
    decreases cap2 - lv2[j],
{
    if p[j] != j {
        assert(p2[j] == p[j]);
        assert(lv2[j] < lv2[p2[j]]);
        lemma_root_extend(p, lv, cap, p2, lv2, cap2, p[j]);
    } else {
        assert(p2[j] == j);
    }
}

/// The number of links from `i` to its root, when a root is reached within
/// `fuel` steps; `None` when the walk leaves the forest or runs out of fuel,
/// as it does on a cycle.  With fuel `p.len()` this decides whether `i`'s
/// parent walk reaches a root at all, since an acyclic walk never revisits
/// an element.
pub open spec fn depth_in(p: Seq<int>, i: int, fuel: nat) -> Option<int>
    decreases fuel,
{
    if !(0 <= i < p.len()) {
        None
    } else if p[i] == i {
        Some(0)
    } else if fuel == 0 {
        None
    } else {
        match depth_in(p, p[i], (fuel - 1) as nat) {
            Some(d) => Some(d + 1),
            None => None,
        }
    }
}

/// A found depth does not depend on how much fuel was left over.
pub proof fn lemma_depth_fuel(p: Seq<int>, i: int, f1: nat, f2: nat)
    requires
        depth_in(p, i, f1) is Some,
        f1 <= f2,
    ensures
        depth_in(p, i, f2) == depth_in(p, i, f1),
    decreases f1,
{
    if 0 <= i < p.len() && p[i] != i {
        lemma_depth_fuel(p, p[i], (f1 - 1) as nat, (f2 - 1) as nat);
    }
}

/// The depth found is bounded by the fuel spent.
pub proof fn lemma_depth_bound(p: Seq<int>, i: int, fuel: nat)
    requires
        depth_in(p, i, fuel) is Some,
    ensures
        0 <= depth_in(p, i, fuel)->0 <= fuel,
    decreases fuel,
{
    if 0 <= i < p.len() && p[i] != i {
        lemma_depth_bound(p, p[i], (fuel - 1) as nat);
    }
}

/// A non-root's parent is one step closer to the root.
pub proof fn lemma_depth_step(p: Seq<int>, i: int, fuel: nat)
    requires
        depth_in(p, i, fuel) is Some,
        0 <= i < p.len(),
        p[i] != i,
    ensures
        depth_in(p, p[i], fuel) is Some,
        depth_in(p, p[i], fuel)->0 == depth_in(p, i, fuel)->0 - 1,
{
    lemma_depth_fuel(p, p[i], (fuel - 1) as nat, fuel);
}

/// The parent ids of a serialized form: the first component of each
/// `(id, rank)` pair.
pub open spec fn entry_parents(pairs: Seq<(usize, usize)>) -> Seq<int> {
    Seq::new(pairs.len(), |i: int| pairs[i].0 as int)
}

/// Follows parent ids from `start` for at most `pairs.len()` steps and
/// reports whether a self-rooted entry was reached: exactly whether the walk
/// has a well-defined depth.  A cycle, or an id out of range along the way,
/// never reaches one.
pub(crate) fn reaches_root(pairs: &Vec<(usize, usize)>, start: usize) -> (r: bool)
    requires
        start < pairs@.len(),
    ensures
        r == (depth_in(entry_parents(pairs@), start as int, pairs@.len() as nat) is Some),
{
    let ghost pp = entry_parents(pairs@);
    let n = pairs.len();
    let mut cur: usize = start;
    let mut steps: usize = 0;
    #[verifier::loop_isolation(false)]
    loop
        invariant
            cur < n,
            steps <= n,
            (depth_in(pp, start as int, n as nat) is Some) == (depth_in(
                pp,
                cur as int,
                (n - steps) as nat,
            ) is Some),
        decreases n - steps,
    {
        let p = pairs[cur].0;
        proof {
            assert(pp[cur as int] == p);
        }
        if p == cur {
            proof {
                assert(depth_in(pp, cur as int, (n - steps) as nat) == Some(0int));
            }
            return true;
        }
        if steps == n || p >= n {
            proof {
                assert(depth_in(pp, cur as int, (n - steps) as nat) is None);
            }
            return false;
        }
        proof {
            assert((depth_in(pp, cur as int, (n - steps) as nat) is Some) == (depth_in(
                pp,
                p as int,
                (n - steps - 1) as nat,
            ) is Some));
        }
        cur = p;
        steps = steps + 1;
    }
}

/// Two elements are in the same set of the root assignment `r` when they have
/// the same root.
pub open spec fn same_class(r: Seq<int>, i: int, j: int) -> bool {
    r[i] == r[j]
}

/// The root assignment after `a`'s set is absorbed into `b`'s set: every
/// member of `a`'s set is reassigned to `b`'s root.
pub open spec fn merged(r: Seq<int>, a: int, b: int) -> Seq<int> {
    r.map(|i: int, x: int| if x == r[a] { r[b] } else { x })
}

/// What one union does to the same-set relation: after merging `a`'s set into
/// `b`'s set, two elements share a set exactly when they already did, or when
/// one was with `a` and the other with `b`.
pub proof fn lemma_merged_classes(r: Seq<int>, a: int, b: int, i: int, j: int)
    requires
        0 <= a < r.len(),
        0 <= b < r.len(),
        0 <= i < r.len(),
        0 <= j < r.len(),
    ensures
        same_class(merged(r, a, b), i, j) <==> (same_class(r, i, j) || (same_class(r, i, a)
            && same_class(r, j, b)) || (same_class(r, i, b) && same_class(r, j, a))),
{
    assert(merged(r, a, b)[i] == if r[i] == r[a] { r[b] } else { r[i] });
    assert(merged(r, a, b)[j] == if r[j] == r[a] { r[b] } else { r[j] });
}

/// Merging never separates: any two elements that share a set still share
/// one after a further union.
pub proof fn lemma_merged_monotone(r: Seq<int>, a: int, b: int, i: int, j: int)
    requires
        0 <= a < r.len(),
        0 <= b < r.len(),
        0 <= i < r.len(),
        0 <= j < r.len(),
        same_class(r, i, j),
    ensures
        same_class(merged(r, a, b), i, j),
{
    lemma_merged_classes(r, a, b, i, j);
}

/// The direction of a link is invisible in the partition: absorbing `a`'s set
/// into `b`'s yields the same same-set relation as absorbing `b`'s into
/// `a`'s.
pub proof fn lemma_merged_swap(r: Seq<int>, a: int, b: int, i: int, j: int)
    requires
        0 <= a < r.len(),
        0 <= b < r.len(),
        0 <= i < r.len(),
        0 <= j < r.len(),
    ensures
        same_class(merged(r, a, b), i, j) == same_class(merged(r, b, a), i, j),
{
    lemma_merged_classes(r, a, b, i, j);
    lemma_merged_classes(r, b, a, i, j);
}

/// Merging two sets that are already one leaves the root assignment itself
/// unchanged.
pub proof fn lemma_merged_noop(r: Seq<int>, a: int, b: int)
    requires
        0 <= a < r.len(),
        0 <= b < r.len(),
        same_class(r, a, b),
    ensures
        merged(r, a, b) == r,
{
    assert(merged(r, a, b) =~= r);
}

/// Unions commute at the level of the partition: performing the merge for
/// `(a, b)` and then the merge for `(c, d)` relates exactly the same pairs of
/// elements as performing them in the other order.  Together with
/// `lemma_merged_swap` and `lemma_merged_noop` this makes the final partition
/// of any fixed collection of union operations independent of the order in
/// which they are applied.
pub proof fn lemma_merged_commutes(r: Seq<int>, a: int, b: int, c: int, d: int, i: int, j: int)
    requires
        0 <= a < r.len(),
        0 <= b < r.len(),
        0 <= c < r.len(),
        0 <= d < r.len(),
        0 <= i < r.len(),
        0 <= j < r.len(),
    ensures
        same_class(merged(merged(r, a, b), c, d), i, j) == same_class(
            merged(merged(r, c, d), a, b),
            i,
            j,
        ),
{
    let m1 = merged(r, a, b);
    let m2 = merged(r, c, d);
    lemma_merged_classes(m1, c, d, i, j);
    lemma_merged_classes(m2, a, b, i, j);
    lemma_merged_classes(r, a, b, i, j);
    lemma_merged_classes(r, c, d, i, j);
    lemma_merged_classes(r, a, b, i, c);
    lemma_merged_classes(r, a, b, i, d);
    lemma_merged_classes(r, a, b, j, c);
    lemma_merged_classes(r, a, b, j, d);
    lemma_merged_classes(r, a, b, c, d);
    lemma_merged_classes(r, c, d, i, a);
    lemma_merged_classes(r, c, d, i, b);
    lemma_merged_classes(r, c, d, j, a);
    lemma_merged_classes(r, c, d, j, b);
    lemma_merged_classes(r, c, d, a, b);
}

} // verus!
