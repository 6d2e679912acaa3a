//! What a merge of two sorted lists has met when its cursors stand at given places.
use vstd::prelude::*;

use crate::posting_intersect::{element_of, pair_intersection};
use crate::sorted::{lemma_filter_increasing, lemma_increasing_unique, strictly_increasing};

verus! {

/// `x` stands in both lists, and at least one of its two places lies before the cursors `i`, `j`.
pub open spec fn met(a: Seq<u32>, b: Seq<u32>, i: int, j: int, x: u32) -> bool {
    exists|q: int, p: int|
        0 <= q < a.len() && 0 <= p < b.len() && (q < i || p < j) && #[trigger] a[q] == x
            && #[trigger] b[p] == x
}

/// `r` holds in ascending order what a merge has met when its cursors stand at `i` and `j`.
pub open spec fn is_met(a: Seq<u32>, b: Seq<u32>, i: int, j: int, r: Seq<u32>) -> bool {
    &&& strictly_increasing(r)
    &&& forall|x: u32| #[trigger] r.contains(x) <==> met(a, b, i, j, x)
}

/// Advancing the cursors adds exactly `added`, all of it above what was met before.
pub proof fn lemma_advance(
    a: Seq<u32>,
    b: Seq<u32>,
    i: int,
    j: int,
    i2: int,
    j2: int,
    r: Seq<u32>,
    added: Seq<u32>,
)
    requires
        strictly_increasing(a),
        strictly_increasing(b),
        is_met(a, b, i, j, r),
        i <= i2,
        j <= j2,
        strictly_increasing(added),
        forall|x: u32|
            #[trigger] added.contains(x) <==> met(a, b, i2, j2, x) && !met(a, b, i, j, x),
    ensures
        is_met(a, b, i2, j2, r + added),
{
    let s = r + added;
    assert forall|x: u32| s.contains(x) <==> r.contains(x) || added.contains(x) by {
        if r.contains(x) {
            let k = choose|k: int| 0 <= k < r.len() && r[k] == x;
            assert(s[k] == x);
        }
        if added.contains(x) {
            let k = choose|k: int| 0 <= k < added.len() && added[k] == x;
            assert(s[r.len() + k] == x);
        }
        if s.contains(x) {
            let k = choose|k: int| 0 <= k < s.len() && s[k] == x;
            if k < r.len() {
                assert(r[k] == x);
            } else {
                assert(added[k - r.len()] == x);
            }
        }
    }
    assert forall|m: int, n: int| 0 <= m < r.len() && 0 <= n < added.len() implies r[m]
        < added[n] by {
        assert(r.contains(r[m]));
        assert(added.contains(added[n]));
        let (q, p) = choose|q: int, p: int|
            0 <= q < a.len() && 0 <= p < b.len() && (q < i || p < j) && #[trigger] a[q] == r[m]
                && #[trigger] b[p] == r[m];
        let (q2, p2) = choose|q: int, p: int|
            0 <= q < a.len() && 0 <= p < b.len() && (q < i2 || p < j2) && #[trigger] a[q]
                == added[n] && #[trigger] b[p] == added[n];
        assert(a[q2] == added[n] && b[p2] == added[n]);
        assert(q2 >= i && p2 >= j);
    }
    assert forall|x: u32| met(a, b, i, j, x) implies met(a, b, i2, j2, x) by {
        let (q, p) = choose|q: int, p: int|
            0 <= q < a.len() && 0 <= p < b.len() && (q < i || p < j) && #[trigger] a[q] == x
                && #[trigger] b[p] == x;
        assert(a[q] == x && b[p] == x);
    }
    assert forall|x: u32| s.contains(x) <==> met(a, b, i2, j2, x) by {
        assert(s.contains(x) <==> r.contains(x) || added.contains(x));
    }
}

/// Once one list is used up, everything that the two have in common has been met.
pub proof fn lemma_all_met(a: Seq<u32>, b: Seq<u32>, i: int, j: int, r: Seq<u32>)
    requires
        strictly_increasing(a),
        strictly_increasing(b),
        is_met(a, b, i, j, r),
        i >= a.len() || j >= b.len(),
    ensures
        r == pair_intersection(a, b),
{
    let f = pair_intersection(a, b);
    lemma_filter_increasing(a, element_of(b));
    assert forall|x: u32| #[trigger] r.contains(x) <==> f.contains(x) by {
        if f.contains(x) {
            let q = choose|q: int| 0 <= q < a.len() && a[q] == x;
            let p = choose|p: int| 0 <= p < b.len() && b[p] == x;
            assert(a[q] == x && b[p] == x);
        }
        if met(a, b, i, j, x) {
            let (q, p) = choose|q: int, p: int|
                0 <= q < a.len() && 0 <= p < b.len() && (q < i || p < j) && #[trigger] a[q] == x
                    && #[trigger] b[p] == x;
            assert(a[q] == x && b[p] == x);
        }
    }
    lemma_increasing_unique(r, f);
}

/// Intersecting in the other order gives the same list.
pub proof fn lemma_pair_symmetric(a: Seq<u32>, b: Seq<u32>)
    requires
        strictly_increasing(a),
        strictly_increasing(b),
    ensures
        pair_intersection(a, b) == pair_intersection(b, a),
{
    lemma_filter_increasing(a, element_of(b));
    lemma_filter_increasing(b, element_of(a));
    lemma_increasing_unique(pair_intersection(a, b), pair_intersection(b, a));
}

/// One step of a two-finger merge at the cursors `i`, `j`: a pair of equal elements is met now,
/// and a cursor on a smaller element passes it without meeting anything.
pub proof fn lemma_merge_step(a: Seq<u32>, b: Seq<u32>, i: int, j: int, r: Seq<u32>)
    requires
        strictly_increasing(a),
        strictly_increasing(b),
        0 <= i < a.len(),
        0 <= j < b.len(),
        is_met(a, b, i, j, r),
    ensures
        a[i] == b[j] ==> is_met(a, b, i + 1, j + 1, r.push(a[i])),
        a[i] < b[j] ==> is_met(a, b, i + 1, j, r),
        a[i] > b[j] ==> is_met(a, b, i, j + 1, r),
{
    let i2 = if a[i] <= b[j] { i + 1 } else { i };
    let j2 = if a[i] >= b[j] { j + 1 } else { j };
    let added = if a[i] == b[j] { seq![a[i]] } else { Seq::empty() };
    assert forall|x: u32| #[trigger] added.contains(x) <==> met(a, b, i2, j2, x) && !met(
        a,
        b,
        i,
        j,
        x,
    ) by {
        if a[i] == b[j] && x == a[i] {
            assert(added[0] == x);
            assert(a[i] == x && b[j] == x);
        }
        if met(a, b, i2, j2, x) && !met(a, b, i, j, x) {
            let (q, p) = choose|q: int, p: int|
                0 <= q < a.len() && 0 <= p < b.len() && (q < i2 || p < j2) && #[trigger] a[q] == x
                    && #[trigger] b[p] == x;
            assert(a[q] == x && b[p] == x);
            assert(q >= i && p >= j);
        }
    }
    lemma_advance(a, b, i, j, i2, j2, r, added);
    assert(r + Seq::<u32>::empty() =~= r);
    assert(r + seq![a[i]] =~= r.push(a[i]));
}

/// At the start nothing has been met.
pub proof fn lemma_nothing_met(a: Seq<u32>, b: Seq<u32>)
    ensures
        is_met(a, b, 0, 0, Seq::empty()),
{
    assert forall|x: u32| #[trigger] Seq::<u32>::empty().contains(x) <==> met(a, b, 0, 0, x) by {}
}

} // verus!
