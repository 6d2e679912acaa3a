//! AND-intersection of sorted posting lists of `u32` document ids.
//!
//! `kernels` holds the kernel that picks its algorithm by the shape of its input, `reference` the
//! plain two-finger merge that it has to agree with.
use vstd::prelude::*;

use crate::sorted::{lemma_filter_increasing, lemma_increasing_unique, strictly_increasing};

pub mod experiment;
pub mod inputs;
pub mod kernels;
pub mod merging;
pub mod reference;
pub mod sampling;

verus! {

/// The arity of an intersection: how many posting lists one call intersects.
#[derive(Clone, Copy, Debug, PartialEq, Eq, Hash, Structural)]
pub struct PostingShape {
    pub num_lists: usize,
}

impl PostingShape {
    pub fn new(num_lists: usize) -> (r: Self)
        ensures
            r.num_lists == num_lists,
    {
        PostingShape { num_lists }
    }
}

/// The test for occurring in `b`.
pub open spec fn element_of(b: Seq<u32>) -> spec_fn(u32) -> bool {
    |x: u32| b.contains(x)
}

/// The test for occurring in every one of the lists.
pub open spec fn element_of_all(lists: Seq<Seq<u32>>) -> spec_fn(u32) -> bool {
    |x: u32| forall|k: int| 0 <= k < lists.len() ==> (#[trigger] lists[k]).contains(x)
}

/// What the two lists have in common, in the order of the first.
pub open spec fn pair_intersection(a: Seq<u32>, b: Seq<u32>) -> Seq<u32> {
    a.filter(element_of(b))
}

/// The document ids that occur in every one of the lists, in the order of the first list; of no
/// lists at all, nothing.
pub open spec fn intersection(lists: Seq<Seq<u32>>) -> Seq<u32> {
    if lists.len() == 0 {
        Seq::empty()
    } else {
        lists[0].filter(element_of_all(lists))
    }
}

/// The contents of borrowed lists.
pub open spec fn contents(lists: Seq<&[u32]>) -> Seq<Seq<u32>> {
    lists.map_values(|l: &[u32]| l@)
}

/// Every list is sorted ascending without duplicates.
pub open spec fn sorted_unique_lists(lists: Seq<Seq<u32>>) -> bool {
    forall|k: int| 0 <= k < lists.len() ==> strictly_increasing(#[trigger] lists[k])
}

/// The intersection is sorted ascending without duplicates, and holds exactly the ids that occur
/// in every list.
pub proof fn lemma_intersection(lists: Seq<Seq<u32>>)
    requires
        sorted_unique_lists(lists),
    ensures
        strictly_increasing(intersection(lists)),
        forall|x: u32|
            #[trigger] intersection(lists).contains(x) <==> lists.len() > 0 && element_of_all(
                lists,
            )(x),
{
    if lists.len() > 0 {
        lemma_filter_increasing(lists[0], element_of_all(lists));
    }
}

/// An id is in the intersection if and only if there are lists and it occurs in each of them; and no
/// id is in it twice.
pub proof fn lemma_members(lists: Seq<Seq<u32>>, x: u32)
    requires
        sorted_unique_lists(lists),
    ensures
        intersection(lists).contains(x) <==> lists.len() > 0 && forall|k: int|
            0 <= k < lists.len() ==> (#[trigger] lists[k]).contains(x),
        intersection(lists).no_duplicates(),
        forall|i: int, j: int|
            0 <= i < j < intersection(lists).len() ==> intersection(lists)[i] < intersection(
                lists,
            )[j],
{
    lemma_intersection(lists);
}

/// An id is in the intersection of two lists if and only if it occurs in both.
pub proof fn lemma_pair_members(a: Seq<u32>, b: Seq<u32>, x: u32)
    ensures
        pair_intersection(a, b).contains(x) <==> a.contains(x) && b.contains(x),
{
    let test = element_of(b);
    if pair_intersection(a, b).contains(x) {
        a.lemma_filter_contains_rev(test, x);
        let p = choose|p: int| 0 <= p < a.filter(test).len() && a.filter(test)[p] == x;
        a.lemma_filter_pred(test, p);
    }
    if a.contains(x) && b.contains(x) {
        let i = choose|i: int| 0 <= i < a.len() && a[i] == x;
        a.lemma_filter_contains(test, i);
    }
}

/// The order of the lists makes no difference, nor does naming one twice: lists with the same
/// members have the same intersection.
pub proof fn lemma_intersection_order(lists: Seq<Seq<u32>>, others: Seq<Seq<u32>>)
    requires
        sorted_unique_lists(lists),
        sorted_unique_lists(others),
        forall|l: Seq<u32>| lists.contains(l) <==> others.contains(l),
    ensures
        intersection(lists) == intersection(others),
{
    lemma_intersection(lists);
    lemma_intersection(others);
    if lists.len() > 0 {
        assert(lists.contains(lists[0]));
        assert(others.len() > 0);
    }
    if others.len() > 0 {
        assert(others.contains(others[0]));
        assert(lists.len() > 0);
    }
    assert forall|x: u32| #[trigger] intersection(lists).contains(x) <==> intersection(
        others,
    ).contains(x) by {
        if intersection(lists).contains(x) {
            assert forall|k: int| 0 <= k < others.len() implies (#[trigger] others[k]).contains(
                x,
            ) by {
                assert(others.contains(others[k]));
                assert(lists.contains(others[k]));
            }
        }
        if intersection(others).contains(x) {
            assert forall|k: int| 0 <= k < lists.len() implies (#[trigger] lists[k]).contains(
                x,
            ) by {
                assert(lists.contains(lists[k]));
                assert(others.contains(lists[k]));
            }
        }
    }
    lemma_increasing_unique(intersection(lists), intersection(others));
}

/// A single list is its own intersection.
pub proof fn lemma_single(lists: Seq<Seq<u32>>)
    requires
        sorted_unique_lists(lists),
        lists.len() == 1,
    ensures
        intersection(lists) == lists[0],
{
    lemma_intersection(lists);
    assert(strictly_increasing(lists[0]));
    lemma_increasing_unique(intersection(lists), lists[0]);
}

/// Where one list is empty, so is the intersection.
pub proof fn lemma_empty_list(lists: Seq<Seq<u32>>)
    requires
        sorted_unique_lists(lists),
        exists|k: int| 0 <= k < lists.len() && #[trigger] lists[k].len() == 0,
    ensures
        intersection(lists) == Seq::<u32>::empty(),
{
    let k = choose|k: int| 0 <= k < lists.len() && #[trigger] lists[k].len() == 0;
    lemma_intersection(lists);
    if intersection(lists).len() > 0 {
        assert(intersection(lists).contains(intersection(lists)[0]));
        assert(lists[k].contains(intersection(lists)[0]));
    }
}

/// The intersection of two lists.
pub proof fn lemma_first_two(lists: Seq<Seq<u32>>)
    requires
        sorted_unique_lists(lists),
        lists.len() >= 2,
    ensures
        intersection(lists.take(2)) == pair_intersection(lists[0], lists[1]),
{
    let two = lists.take(2);
    lemma_intersection(two);
    assert(strictly_increasing(lists[0]));
    lemma_filter_increasing(lists[0], element_of(lists[1]));
    assert forall|x: u32| #[trigger] intersection(two).contains(x) <==> pair_intersection(
        lists[0],
        lists[1],
    ).contains(x) by {
        assert(two[0] == lists[0] && two[1] == lists[1]);
        if intersection(two).contains(x) {
            assert(two[0].contains(x) && two[1].contains(x));
        }
    }
    lemma_increasing_unique(intersection(two), pair_intersection(lists[0], lists[1]));
}

/// Intersecting further with the next list.
pub proof fn lemma_next_list(lists: Seq<Seq<u32>>, k: int)
    requires
        sorted_unique_lists(lists),
        0 < k < lists.len(),
    ensures
        intersection(lists.take(k + 1)) == pair_intersection(
            intersection(lists.take(k)),
            lists[k],
        ),
{
    let before = lists.take(k);
    let after = lists.take(k + 1);
    lemma_intersection(before);
    lemma_intersection(after);
    let step = pair_intersection(intersection(before), lists[k]);
    lemma_filter_increasing(intersection(before), element_of(lists[k]));
    assert forall|x: u32| #[trigger] intersection(after).contains(x) <==> step.contains(x) by {
        if intersection(after).contains(x) {
            assert forall|m: int| 0 <= m < before.len() implies (#[trigger] before[m]).contains(
                x,
            ) by {
                assert(after[m] == before[m]);
            }
            assert(after[k].contains(x));
        }
        if step.contains(x) {
            assert(intersection(before).contains(x));
            assert forall|m: int| 0 <= m < after.len() implies (#[trigger] after[m]).contains(
                x,
            ) by {
                if m < k {
                    assert(after[m] == before[m]);
                }
            }
        }
    }
    lemma_increasing_unique(intersection(after), step);
}

/// An intersection that is empty already stays empty.
pub proof fn lemma_stays_empty(lists: Seq<Seq<u32>>, k: int)
    requires
        sorted_unique_lists(lists),
        0 < k <= lists.len(),
        intersection(lists.take(k)).len() == 0,
    ensures
        intersection(lists) == Seq::<u32>::empty(),
{
    let before = lists.take(k);
    lemma_intersection(before);
    lemma_intersection(lists);
    if intersection(lists).len() > 0 {
        let x = intersection(lists)[0];
        assert(intersection(lists).contains(x));
        assert forall|m: int| 0 <= m < before.len() implies (#[trigger] before[m]).contains(x) by {
            assert(before[m] == lists[m]);
        }
        assert(intersection(before).contains(x));
    }
}

/// Whether one of the lists is empty.
pub fn any_empty(lists: &[&[u32]]) -> (r: bool)
    ensures
        r <==> exists|k: int| 0 <= k < lists@.len() && #[trigger] contents(lists@)[k].len() == 0,
{
    let mut k: usize = 0;
    while k < lists.len()
        invariant
            k <= lists@.len(),
            forall|m: int| 0 <= m < k ==> #[trigger] contents(lists@)[m].len() != 0,
        decreases lists@.len() - k,
    {
        if lists[k].len() == 0 {
            assert(contents(lists@)[k as int].len() == 0);
            return true;
        }
        k += 1;
    }
    false
}

} // verus!
