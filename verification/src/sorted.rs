//! Sorted, duplicate-free sequences of document ids, and searching in them.
use vstd::laws_cmp::{group_laws_cmp, obeys_cmp};
use vstd::prelude::*;
use vstd::std_specs::cmp::PartialOrdIs;

verus! {

/// Every element is smaller than all the elements behind it.
pub open spec fn strictly_increasing(s: Seq<u32>) -> bool {
    forall|i: int, j: int| 0 <= i < j < s.len() ==> s[i] < s[j]
}

/// A strictly increasing sequence is determined by its elements.
pub proof fn lemma_increasing_unique(s: Seq<u32>, t: Seq<u32>)
    requires
        strictly_increasing(s),
        strictly_increasing(t),
        forall|x: u32| s.contains(x) <==> t.contains(x),
    ensures
        s == t,
    decreases s.len(),
{
    if s.len() == 0 {
        if t.len() > 0 {
            assert(t.contains(t[0]));
        }
        assert(s =~= t);
    } else {
        assert(s.contains(s.last()));
        assert(t.contains(s.last()));
        assert(t.len() > 0);
        assert(t.contains(t.last()));
        assert(s.contains(t.last()));
        assert(s.last() == t.last());
        let s1 = s.drop_last();
        let t1 = t.drop_last();
        assert forall|x: u32| s1.contains(x) implies t1.contains(x) by {
            let i = choose|i: int| 0 <= i < s1.len() && s1[i] == x;
            assert(s[i] == x);
            assert(s.contains(x));
            let j = choose|j: int| 0 <= j < t.len() && t[j] == x;
            assert(t1[j] == x);
        }
        assert forall|x: u32| t1.contains(x) implies s1.contains(x) by {
            let i = choose|i: int| 0 <= i < t1.len() && t1[i] == x;
            assert(t[i] == x);
            assert(t.contains(x));
            let j = choose|j: int| 0 <= j < s.len() && s[j] == x;
            assert(s1[j] == x);
        }
        lemma_increasing_unique(s1, t1);
        assert(s =~= s1.push(s.last()));
        assert(t =~= t1.push(t.last()));
    }
}

/// What a filter keeps of a strictly increasing sequence is strictly increasing, and holds exactly
/// the elements that pass.
pub proof fn lemma_filter_increasing(s: Seq<u32>, pred: spec_fn(u32) -> bool)
    requires
        strictly_increasing(s),
    ensures
        strictly_increasing(s.filter(pred)),
        forall|x: u32| #[trigger] s.filter(pred).contains(x) <==> s.contains(x) && pred(x),
    decreases s.len(),
{
    reveal(Seq::filter);
    if s.len() > 0 {
        let s1 = s.drop_last();
        lemma_filter_increasing(s1, pred);
        let f = s1.filter(pred);
        assert forall|x: u32| s.contains(x) <==> s1.contains(x) || x == s.last() by {
            if s.contains(x) {
                let i = choose|i: int| 0 <= i < s.len() && s[i] == x;
                if i < s1.len() {
                    assert(s1[i] == x);
                }
            }
            if s1.contains(x) {
                let i = choose|i: int| 0 <= i < s1.len() && s1[i] == x;
                assert(s[i] == x);
            }
            assert(s[s.len() - 1] == s.last());
        }
        if pred(s.last()) {
            let g = f.push(s.last());
            assert(s.filter(pred) == g);
            assert forall|x: u32| g.contains(x) <==> f.contains(x) || x == s.last() by {
                if f.contains(x) {
                    let i = choose|i: int| 0 <= i < f.len() && f[i] == x;
                    assert(g[i] == x);
                }
                assert(g[f.len() as int] == s.last());
                if g.contains(x) {
                    let i = choose|i: int| 0 <= i < g.len() && g[i] == x;
                    if i < f.len() {
                        assert(f[i] == x);
                    }
                }
            }
            assert forall|i: int, j: int| 0 <= i < j < g.len() implies g[i] < g[j] by {
                if j == f.len() {
                    assert(f.contains(f[i]));
                    assert(s1.contains(f[i]));
                    let k = choose|k: int| 0 <= k < s1.len() && s1[k] == f[i];
                    assert(s[k] == f[i]);
                }
            }
        }
    }
}

/// The number of leading elements smaller than `x`, found by bisection: everything before the
/// returned index is smaller than `x`, everything from it on is not.
pub fn partition_point_below(s: &[u32], x: u32) -> (r: usize)
    requires
        forall|i: int, j: int| 0 <= i < j < s@.len() ==> s@[i] <= s@[j],
    ensures
        r <= s@.len(),
        forall|i: int| 0 <= i < r ==> s@[i] < x,
        forall|i: int| r <= i < s@.len() ==> s@[i] >= x,
{
    let mut lo: usize = 0;
    let mut hi: usize = s.len();
    while lo < hi
        invariant
            lo <= hi <= s@.len(),
            forall|i: int, j: int| 0 <= i < j < s@.len() ==> s@[i] <= s@[j],
            forall|i: int| 0 <= i < lo ==> s@[i] < x,
            forall|i: int| hi <= i < s@.len() ==> s@[i] >= x,
        decreases hi - lo,
    {
        let mid: usize = lo + (hi - lo) / 2;
        if s[mid] < x {
            lo = mid + 1;
        } else {
            hi = mid;
        }
    }
    lo
}

/// Bisects a strictly increasing slice: `Ok` with the index of `x`, or `Err` with the index at
/// which `x` would have to be inserted.
pub fn binary_search(s: &[u32], x: u32) -> (r: Result<usize, usize>)
    requires
        strictly_increasing(s@),
    ensures
        match r {
            Ok(i) => i < s@.len() && s@[i as int] == x,
            Err(i) => {
                &&& i <= s@.len()
                &&& forall|k: int| 0 <= k < i ==> s@[k] < x
                &&& forall|k: int| i <= k < s@.len() ==> s@[k] > x
            },
        },
{
    let i: usize = partition_point_below(s, x);
    if i < s.len() && s[i] == x {
        Ok(i)
    } else {
        Err(i)
    }
}

/// `slice::sort_unstable` of std. Trusted: on a type whose comparison is a total order, the elements
/// afterwards are those from before, each as often, and no element is greater than a later one.
#[verifier::external_body]
pub(crate) fn sort_unstable<T: Ord>(v: &mut Vec<T>)
    requires
        obeys_cmp::<T>(),
    ensures
        final(v)@.to_multiset() == old(v)@.to_multiset(),
        forall|i: int, j: int|
            0 <= i < j < final(v)@.len() ==> (#[trigger] final(v)@[i]).is_le(
                #[trigger] &final(v)@[j],
            ),
{
    v.sort_unstable();
}

/// Sorts document ids.
fn sort_ids(v: &mut Vec<u32>)
    ensures
        final(v)@.to_multiset() == old(v)@.to_multiset(),
        forall|i: int, j: int| 0 <= i < j < final(v)@.len() ==> final(v)@[i] <= final(v)@[j],
{
    broadcast use group_laws_cmp;

    sort_unstable(v);
}

/// The two sequences have the same elements, in whatever order and however often.
pub open spec fn same_elements(s: Seq<u32>, t: Seq<u32>) -> bool {
    forall|x: u32| #[trigger] s.contains(x) <==> t.contains(x)
}

/// The elements of `s` in ascending order, each once.
pub open spec fn ascending(s: Seq<u32>) -> Seq<u32> {
    choose|r: Seq<u32>| strictly_increasing(r) && same_elements(r, s)
}

/// Every sequence can be put in ascending order, and in one way only.
pub proof fn lemma_ascending(s: Seq<u32>)
    ensures
        strictly_increasing(ascending(s)),
        same_elements(ascending(s), s),
        forall|r: Seq<u32>|
            #![trigger strictly_increasing(r)]
            strictly_increasing(r) && same_elements(r, s) ==> r == ascending(s),
    decreases s.len(),
{
    if s.len() == 0 {
        assert(strictly_increasing(s) && same_elements(s, s));
    } else {
        let s1 = s.drop_last();
        let x = s.last();
        lemma_ascending(s1);
        let r1 = ascending(s1);
        let below = r1.filter(|y: u32| y < x);
        let above = r1.filter(|y: u32| y > x);
        lemma_filter_increasing(r1, |y: u32| y < x);
        lemma_filter_increasing(r1, |y: u32| y > x);
        let r = below.push(x) + above;
        assert forall|i: int, j: int| 0 <= i < j < r.len() implies r[i] < r[j] by {
            if i < below.len() {
                assert(below.contains(below[i]));
            }
            if j > below.len() {
                assert(above.contains(above[j - below.len() - 1]));
            }
        }
        assert forall|y: u32| #[trigger] r.contains(y) <==> s.contains(y) by {
            if r.contains(y) {
                let i = choose|i: int| 0 <= i < r.len() && r[i] == y;
                if i < below.len() {
                    assert(below.contains(y));
                } else if i > below.len() {
                    assert(above[i - below.len() - 1] == y);
                    assert(above.contains(y));
                }
                if y == x {
                    assert(s[s.len() - 1] == y);
                } else {
                    assert(r1.contains(y));
                    let k = choose|k: int| 0 <= k < s1.len() && s1[k] == y;
                    assert(s[k] == y);
                }
            }
            if s.contains(y) {
                let k = choose|k: int| 0 <= k < s.len() && s[k] == y;
                if y == x {
                    assert(r[below.len() as int] == y);
                } else {
                    assert(s1[k] == y);
                    assert(s1.contains(y));
                    assert(r1.contains(y));
                    if y < x {
                        assert(below.contains(y));
                        let i = choose|i: int| 0 <= i < below.len() && below[i] == y;
                        assert(r[i] == y);
                    } else {
                        assert(above.contains(y));
                        let i = choose|i: int| 0 <= i < above.len() && above[i] == y;
                        assert(r[below.len() + 1 + i] == y);
                    }
                }
            }
        }
        assert(strictly_increasing(r) && same_elements(r, s));
    }
    assert forall|r: Seq<u32>|
        #![trigger strictly_increasing(r)]
        strictly_increasing(r) && same_elements(r, s) implies r == ascending(s) by {
        lemma_increasing_unique(r, ascending(s));
    }
}

/// Two sequences with the same multiset of elements have the same elements.
proof fn lemma_multiset_elements(s: Seq<u32>, t: Seq<u32>)
    requires
        s.to_multiset() == t.to_multiset(),
    ensures
        same_elements(s, t),
{
    s.to_multiset_ensures();
    t.to_multiset_ensures();
    assert forall|x: u32| #[trigger] s.contains(x) <==> t.contains(x) by {
        assert(s.contains(x) <==> s.to_multiset().count(x) > 0);
        assert(t.contains(x) <==> t.to_multiset().count(x) > 0);
    }
}

/// Sorts `v` and drops repeated elements.
pub fn sort_dedup(v: Vec<u32>) -> (r: Vec<u32>)
    ensures
        r@ == ascending(v@),
{
    let mut v = v;
    let ghost unsorted = v@;
    sort_ids(&mut v);
    proof {
        lemma_multiset_elements(v@, unsorted);
    }
    let mut r: Vec<u32> = Vec::with_capacity(v.len());
    let mut k: usize = 0;
    while k < v.len()
        invariant
            k <= v@.len(),
            forall|i: int, j: int| 0 <= i < j < v@.len() ==> v@[i] <= v@[j],
            strictly_increasing(r@),
            k == 0 ==> r@.len() == 0,
            k > 0 ==> r@.len() > 0 && r@.last() == v@[k - 1],
            forall|x: u32| #[trigger] r@.contains(x) ==> v@.contains(x),
            forall|i: int| 0 <= i < k ==> r@.contains(#[trigger] v@[i]),
        decreases v@.len() - k,
    {
        let x: u32 = v[k];
        let ghost before = r@;
        if r.len() == 0 || r[r.len() - 1] != x {
            r.push(x);
            proof {
                assert(r@.last() == x);
                assert forall|i: int, j: int| 0 <= i < j < r@.len() implies r@[i] < r@[j] by {
                    if j == before.len() {
                        assert(v@[k - 1] < x);
                    }
                }
                assert forall|y: u32| #[trigger] r@.contains(y) implies v@.contains(y) by {
                    let i = choose|i: int| 0 <= i < r@.len() && r@[i] == y;
                    if i < before.len() {
                        assert(before[i] == y);
                        assert(before.contains(y));
                    }
                }
                assert forall|i: int| 0 <= i < k + 1 implies r@.contains(#[trigger] v@[i]) by {
                    if i < k {
                        assert(before.contains(v@[i]));
                        let m = choose|m: int| 0 <= m < before.len() && before[m] == v@[i];
                        assert(r@[m] == v@[i]);
                    } else {
                        assert(r@[before.len() as int] == v@[i]);
                    }
                }
            }
        }
        k += 1;
    }
    proof {
        assert(same_elements(r@, unsorted)) by {
            assert forall|x: u32| #[trigger] r@.contains(x) <==> unsorted.contains(x) by {
                if unsorted.contains(x) {
                    assert(v@.contains(x));
                    let i = choose|i: int| 0 <= i < v@.len() && v@[i] == x;
                    assert(r@.contains(v@[i]));
                }
                assert(v@.contains(x) <==> unsorted.contains(x));
            }
        }
        lemma_ascending(unsorted);
    }
    r
}

/// Sorts a sequence without repetitions.
pub fn sort_distinct(v: &mut Vec<u32>)
    requires
        old(v)@.no_duplicates(),
    ensures
        final(v)@ == ascending(old(v)@),
        final(v)@.len() == old(v)@.len(),
{
    let ghost unsorted = v@;
    sort_ids(v);
    proof {
        lemma_multiset_elements(v@, unsorted);
        unsorted.to_multiset_ensures();
        v@.to_multiset_ensures();
        unsorted.lemma_multiset_has_no_duplicates();
        v@.lemma_multiset_has_no_duplicates_conv();
        assert(strictly_increasing(v@));
        lemma_ascending(unsorted);
    }
}

} // verus!
