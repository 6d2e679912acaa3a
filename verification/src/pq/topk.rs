//! Selecting the smallest distances.
use vstd::prelude::*;

use crate::functions::{accepts_all, computes};

verus! {

/// `id` is among the entries.
pub open spec fn chosen<T>(entries: Seq<(u32, T)>, id: int) -> bool {
    exists|p: int| 0 <= p < entries.len() && (#[trigger] entries[p]).0 == id
}

/// The entries name different places of `distances`, each with the distance that stands there.
pub open spec fn names_places<T>(entries: Seq<(u32, T)>, distances: Seq<T>) -> bool {
    &&& forall|p: int|
        0 <= p < entries.len() ==> (#[trigger] entries[p]).0 < distances.len() && entries[p].1
            == distances[entries[p].0 as int]
    &&& forall|p: int, q: int|
        0 <= p < q < entries.len() ==> (#[trigger] entries[p]).0 != (#[trigger] entries[q]).0
}

/// The entries are `k` distances (all distances, where there are fewer) with their places.
pub open spec fn is_selection<T>(distances: Seq<T>, k: nat, entries: Seq<(u32, T)>) -> bool {
    &&& entries.len() == if k <= distances.len() { k } else { distances.len() }
    &&& names_places(entries, distances)
}

/// The entries are in ascending order of their ranks, and no distance that was passed over ranks
/// below any of them. Which of several distances of equal rank are taken, and in which order, is
/// open.
pub open spec fn is_lowest<T>(
    distances: Seq<T>,
    entries: Seq<(u32, T)>,
    rank: spec_fn(T) -> u64,
) -> bool {
    &&& forall|p: int, q: int|
        0 <= p < q < entries.len() ==> rank((#[trigger] entries[p]).1) <= rank(
            (#[trigger] entries[q]).1,
        )
    &&& forall|id: int, p: int|
        0 <= id < distances.len() && 0 <= p < entries.len() && !chosen(entries, id) ==> rank(
            (#[trigger] entries[p]).1,
        ) <= rank(#[trigger] distances[id])
}

/// What a selection is: at every rank the place of a distance and the distance that stands there, no
/// place twice, ranks ascending; and every distance that ranks below one that was taken was taken
/// too. Where no fewer are asked for than there are, all are taken.
pub proof fn lemma_top_k<T>(
    distances: Seq<T>,
    k: nat,
    entries: Seq<(u32, T)>,
    rank: spec_fn(T) -> u64,
)
    requires
        is_selection(distances, k, entries),
        is_lowest(distances, entries, rank),
    ensures
        k <= distances.len() ==> entries.len() == k,
        k >= distances.len() ==> entries.len() == distances.len(),
        forall|p: int|
            0 <= p < entries.len() ==> 0 <= (#[trigger] entries[p]).0 < distances.len()
                && entries[p].1 == distances[entries[p].0 as int],
        forall|p: int, q: int|
            0 <= p < q < entries.len() ==> (#[trigger] entries[p]).0 != (#[trigger] entries[q]).0
                && rank(entries[p].1) <= rank(entries[q].1),
        forall|id: int, p: int|
            0 <= id < distances.len() && 0 <= p < entries.len() && rank(#[trigger] distances[id])
                < rank((#[trigger] entries[p]).1) ==> exists|q: int|
                0 <= q < entries.len() && (#[trigger] entries[q]).0 == id,
        k >= distances.len() ==> forall|id: int|
            0 <= id < distances.len() ==> #[trigger] chosen(entries, id),
{
    assert forall|id: int, p: int|
        0 <= id < distances.len() && 0 <= p < entries.len() && rank(#[trigger] distances[id])
            < rank((#[trigger] entries[p]).1) implies exists|q: int|
        0 <= q < entries.len() && (#[trigger] entries[q]).0 == id by {
        assert(chosen(entries, id));
    }
    if k >= distances.len() {
        let places = Seq::new(entries.len(), |p: int| entries[p].0 as int);
        assert(places.no_duplicates()) by {
            assert forall|p: int, q: int|
                0 <= p < places.len() && 0 <= q < places.len() && p != q implies places[p]
                != places[q] by {
                if p < q {
                    assert(entries[p].0 != entries[q].0);
                } else {
                    assert(entries[q].0 != entries[p].0);
                }
            }
        }
        assert forall|id: int| 0 <= id < distances.len() implies #[trigger] chosen(
            entries,
            id,
        ) by {
            lemma_all_places(places, distances.len() as int, id);
            let q = choose|q: int| 0 <= q < places.len() && places[q] == id;
            assert(entries[q].0 == id);
        }
    }
}

/// As many different numbers below `n` as there are, are all of them.
proof fn lemma_all_places(places: Seq<int>, n: int, id: int)
    requires
        places.no_duplicates(),
        places.len() == n,
        forall|p: int| 0 <= p < n ==> 0 <= #[trigger] places[p] < n,
        0 <= id < n,
    ensures
        places.contains(id),
{
    let all = vstd::set_lib::set_int_range(0, n);
    vstd::set_lib::lemma_int_range(0, n);
    places.unique_seq_to_set();
    let named = places.to_set();
    assert(named.subset_of(all)) by {
        assert forall|x: int| named.contains(x) implies all.contains(x) by {
            let p = choose|p: int| 0 <= p < places.len() && places[p] == x;
            assert(0 <= places[p] < n);
        }
    }
    vstd::set_lib::lemma_subset_equality(named, all);
    assert(named.contains(id));
}

/// The ids are all different.
spec fn distinct_ids<T>(entries: Seq<(u32, T)>) -> bool {
    forall|p: int, q: int|
        0 <= p < q < entries.len() ==> (#[trigger] entries[p]).0 != (#[trigger] entries[q]).0
}

/// The same entries in another order.
spec fn rearranged<T>(a: Seq<(u32, T)>, b: Seq<(u32, T)>) -> bool {
    &&& a.len() == b.len()
    &&& forall|x: (u32, T)| #[trigger] b.contains(x) ==> a.contains(x)
    &&& forall|id: int| chosen(a, id) ==> #[trigger] chosen(b, id)
    &&& distinct_ids(b)
}

proof fn lemma_rearranged_trans<T>(a: Seq<(u32, T)>, b: Seq<(u32, T)>, c: Seq<(u32, T)>)
    requires
        rearranged(a, b),
        rearranged(b, c),
    ensures
        rearranged(a, c),
{
}

proof fn lemma_swap<T>(a: Seq<(u32, T)>, b: Seq<(u32, T)>, i: int, j: int)
    requires
        0 <= i < a.len(),
        0 <= j < a.len(),
        b == a.update(i, a[j]).update(j, a[i]),
        distinct_ids(a),
    ensures
        rearranged(a, b),
{
    assert forall|x: (u32, T)| #[trigger] b.contains(x) implies a.contains(x) by {
        let p = choose|p: int| 0 <= p < b.len() && b[p] == x;
        let from = if p == j {
            i
        } else if p == i {
            j
        } else {
            p
        };
        assert(a[from] == x);
    }
    assert forall|id: int| chosen(a, id) implies #[trigger] chosen(b, id) by {
        let p = choose|p: int| 0 <= p < a.len() && (#[trigger] a[p]).0 == id;
        let to = if p == i {
            j
        } else if p == j {
            i
        } else {
            p
        };
        assert(b[to].0 == id);
    }
}

/// The ids with the ranks of their distances.
spec fn ranked<T>(entries: Seq<(u32, T)>, rank: spec_fn(T) -> u64) -> Seq<(u32, u64)> {
    entries.map_values(|e: (u32, T)| (e.0, rank(e.1)))
}

/// The ranks of the distances.
spec fn ranks<T>(distances: Seq<T>, rank: spec_fn(T) -> u64) -> Seq<u64> {
    distances.map_values(rank)
}

/// Ranking the distances does not change which ids are chosen.
proof fn lemma_ranked_ids<T>(entries: Seq<(u32, T)>, rank: spec_fn(T) -> u64)
    ensures
        forall|id: int| #[trigger] chosen(ranked(entries, rank), id) <==> chosen(entries, id),
        distinct_ids(entries) ==> distinct_ids(ranked(entries, rank)),
{
    let r = ranked(entries, rank);
    assert forall|id: int| #[trigger] chosen(r, id) <==> chosen(entries, id) by {
        if chosen(r, id) {
            let p = choose|p: int| 0 <= p < r.len() && (#[trigger] r[p]).0 == id;
            assert(entries[p].0 == id);
        }
        if chosen(entries, id) {
            let p = choose|p: int| 0 <= p < entries.len() && (#[trigger] entries[p]).0 == id;
            assert(r[p].0 == id);
        }
    }
    if distinct_ids(entries) {
        assert forall|p: int, q: int| 0 <= p < q < r.len() implies (#[trigger] r[p]).0 != (
        #[trigger] r[q]).0 by {
            assert(entries[p].0 != entries[q].0);
        }
    }
}

/// Rearranged entries have rearranged ranks.
proof fn lemma_ranked_rearranged<T>(
    a: Seq<(u32, T)>,
    b: Seq<(u32, T)>,
    rank: spec_fn(T) -> u64,
)
    requires
        rearranged(a, b),
    ensures
        rearranged(ranked(a, rank), ranked(b, rank)),
{
    let ra = ranked(a, rank);
    let rb = ranked(b, rank);
    lemma_ranked_ids(a, rank);
    lemma_ranked_ids(b, rank);
    assert forall|x: (u32, u64)| #[trigger] rb.contains(x) implies ra.contains(x) by {
        let p = choose|p: int| 0 <= p < rb.len() && rb[p] == x;
        assert(b.contains(b[p]));
        let q = choose|q: int| 0 <= q < a.len() && a[q] == b[p];
        assert(ra[q] == x);
    }
    assert forall|id: int| chosen(ra, id) implies #[trigger] chosen(rb, id) by {
        assert(chosen(a, id));
        assert(chosen(b, id));
    }
}

/// The entry at node `c` has no greater key than its parent.
spec fn below_parent(entries: Seq<(u32, u64)>, c: int) -> bool {
    entries[(c - 1) / 2].1 >= entries[c].1
}

/// No child of a node from `lo` on has a greater key than its parent.
spec fn heap_from(entries: Seq<(u32, u64)>, lo: int) -> bool {
    forall|c: int|
        1 <= c < entries.len() && lo <= (c - 1) / 2 ==> #[trigger] below_parent(entries, c)
}

/// The same, except for the children of node `j`; those have no greater key than the parent of `j`.
spec fn heap_but(entries: Seq<(u32, u64)>, lo: int, j: int) -> bool {
    &&& forall|c: int|
        1 <= c < entries.len() && lo <= (c - 1) / 2 && (c - 1) / 2 != j ==> #[trigger] below_parent(
            entries,
            c,
        )
    &&& j > lo ==> lo <= (j - 1) / 2
    &&& j > lo && 2 * j + 1 < entries.len() ==> entries[2 * j + 1].1 <= entries[(j - 1) / 2].1
    &&& j > lo && 2 * j + 2 < entries.len() ==> entries[2 * j + 2].1 <= entries[(j - 1) / 2].1
}

/// Where the children of `j` are in order too, there is no exception.
proof fn lemma_heap_done(entries: Seq<(u32, u64)>, lo: int, j: int)
    requires
        0 <= lo <= j,
        heap_but(entries, lo, j),
        2 * j + 1 < entries.len() ==> entries[2 * j + 1].1 <= entries[j].1,
        2 * j + 2 < entries.len() ==> entries[2 * j + 2].1 <= entries[j].1,
    ensures
        heap_from(entries, lo),
{
    assert forall|c: int| 1 <= c < entries.len() && lo <= (c - 1)
        / 2 implies #[trigger] below_parent(entries, c) by {
        if (c - 1) / 2 == j {
            assert(c == 2 * j + 1 || c == 2 * j + 2);
        }
    }
}

/// Exchanging node `j` with its greater child `m` moves the exception to `m`.
proof fn lemma_heap_step(
    before: Seq<(u32, u64)>,
    after: Seq<(u32, u64)>,
    lo: int,
    j: int,
    m: int,
)
    requires
        0 <= lo <= j,
        heap_but(before, lo, j),
        m == 2 * j + 1 || m == 2 * j + 2,
        m < before.len(),
        before[m].1 > before[j].1,
        2 * j + 1 < before.len() ==> before[2 * j + 1].1 <= before[m].1,
        2 * j + 2 < before.len() ==> before[2 * j + 2].1 <= before[m].1,
        after == before.update(j, before[m]).update(m, before[j]),
    ensures
        heap_but(after, lo, m),
{
    assert forall|c: int|
        1 <= c < after.len() && lo <= (c - 1) / 2 && (c - 1)
            / 2 != m implies #[trigger] below_parent(after, c) by {
        if (c - 1) / 2 == j {
            assert(c == 2 * j + 1 || c == 2 * j + 2);
        } else {
            assert(below_parent(before, c));
            if c == j {
                assert(before[m].1 <= before[(j - 1) / 2].1);
            }
        }
    }
    if 2 * m + 1 < after.len() {
        assert(below_parent(before, 2 * m + 1));
    }
    if 2 * m + 2 < after.len() {
        assert(below_parent(before, 2 * m + 2));
    }
}

/// The entries are a heap from node `lo` on, by every rank that the key gives.
spec fn heaped<T, K: Fn(T) -> u64>(key: K, entries: Seq<(u32, T)>, lo: int) -> bool {
    forall|rank: spec_fn(T) -> u64| #[trigger]
        computes(key, rank) ==> heap_from(ranked(entries, rank), lo)
}

/// Lets the entry at node `i` sink until it is no smaller than its children.
fn sift_down<T: Copy, K: Fn(T) -> u64>(entries: &mut Vec<(u32, T)>, i: usize, key: &K)
    requires
        i < old(entries)@.len(),
        accepts_all(*key),
        heaped(*key, old(entries)@, i + 1),
        distinct_ids(old(entries)@),
    ensures
        rearranged(old(entries)@, final(entries)@),
        heaped(*key, final(entries)@, i as int),
{
    let ghost start = entries@;
    let len: usize = entries.len();
    let mut j: usize = i;
    loop
        invariant
            i <= j < len,
            len == entries@.len(),
            accepts_all(*key),
            rearranged(start, entries@),
            forall|rank: spec_fn(T) -> u64| #[trigger]
                computes(*key, rank) ==> heap_but(ranked(entries@, rank), i as int, j as int),
        ensures
            rearranged(start, entries@),
            heaped(*key, entries@, i as int),
        decreases len - j,
    {
        if j >= len / 2 {
            proof {
                assert forall|rank: spec_fn(T) -> u64| #[trigger] computes(
                    *key,
                    rank,
                ) implies heap_from(ranked(entries@, rank), i as int) by {
                    lemma_heap_done(ranked(entries@, rank), i as int, j as int);
                }
            }
            break;
        }
        let l: usize = 2 * j + 1;
        let r: usize = 2 * j + 2;
        let mut largest: usize = j;
        let mut largest_key: u64 = key(entries[j].1);
        let l_key: u64 = key(entries[l].1);
        if l_key > largest_key {
            largest = l;
            largest_key = l_key;
        }
        if r < len {
            let r_key: u64 = key(entries[r].1);
            if r_key > largest_key {
                largest = r;
            }
        }
        if largest == j {
            proof {
                assert forall|rank: spec_fn(T) -> u64| #[trigger] computes(
                    *key,
                    rank,
                ) implies heap_from(ranked(entries@, rank), i as int) by {
                    lemma_heap_done(ranked(entries@, rank), i as int, j as int);
                }
            }
            break;
        }
        let ghost before = entries@;
        let at_j: (u32, T) = entries[j];
        let at_m: (u32, T) = entries[largest];
        entries[j] = at_m;
        entries[largest] = at_j;
        proof {
            assert forall|rank: spec_fn(T) -> u64| #[trigger] computes(
                *key,
                rank,
            ) implies heap_but(ranked(entries@, rank), i as int, largest as int) by {
                let rb = ranked(before, rank);
                assert(ranked(entries@, rank) =~= rb.update(j as int, rb[largest as int]).update(
                    largest as int,
                    rb[j as int],
                ));
                lemma_heap_step(
                    rb,
                    ranked(entries@, rank),
                    i as int,
                    j as int,
                    largest as int,
                );
            }
            lemma_swap(before, entries@, j as int, largest as int);
            lemma_rearranged_trans(start, before, entries@);
        }
        j = largest;
    }
}

/// Turns the entries into a heap.
fn heapify<T: Copy, K: Fn(T) -> u64>(entries: &mut Vec<(u32, T)>, key: &K)
    requires
        accepts_all(*key),
        distinct_ids(old(entries)@),
    ensures
        rearranged(old(entries)@, final(entries)@),
        heaped(*key, final(entries)@, 0),
{
    let ghost start = entries@;
    let mut i: usize = entries.len() / 2;
    while i > 0
        invariant
            accepts_all(*key),
            i <= entries@.len() / 2,
            entries@.len() == start.len(),
            rearranged(start, entries@),
            heaped(*key, entries@, i as int),
        decreases i,
    {
        i -= 1;
        let ghost before = entries@;
        sift_down(entries, i, key);
        proof {
            lemma_rearranged_trans(start, before, entries@);
        }
    }
}

/// The root of a heap has the greatest key.
proof fn lemma_root_greatest(entries: Seq<(u32, u64)>, p: int)
    requires
        heap_from(entries, 0),
        0 <= p < entries.len(),
    ensures
        entries[p].1 <= entries[0].1,
    decreases p,
{
    if p > 0 {
        lemma_root_greatest(entries, (p - 1) / 2);
        assert(below_parent(entries, p));
    }
}

/// The first `i` entries and the one at `i` are in order, except that the one at `j` may be too far
/// back.
spec fn sorted_but(entries: Seq<(u32, u64)>, i: int, j: int) -> bool {
    forall|p: int, q: int|
        0 <= p < q <= i && q != j ==> (#[trigger] entries[p]).1 <= (#[trigger] entries[q]).1
}

/// The first `i` entries are in order.
spec fn sorted_upto(entries: Seq<(u32, u64)>, i: int) -> bool {
    forall|p: int, q: int|
        0 <= p < q < i ==> (#[trigger] entries[p]).1 <= (#[trigger] entries[q]).1
}

/// Exchanging the entry at `j` with its greater neighbour in front moves the exception there.
proof fn lemma_sort_step(before: Seq<(u32, u64)>, after: Seq<(u32, u64)>, i: int, j: int)
    requires
        0 < j <= i < before.len(),
        sorted_but(before, i, j),
        before[j].1 < before[j - 1].1,
        after == before.update(j, before[j - 1]).update(j - 1, before[j]),
    ensures
        sorted_but(after, i, j - 1),
{
    assert forall|p: int, q: int| 0 <= p < q <= i && q != j - 1 implies (#[trigger] after[p]).1
        <= (#[trigger] after[q]).1 by {
        let p0 = if p == j {
            j - 1
        } else if p == j - 1 {
            j
        } else {
            p
        };
        let q0 = if q == j {
            j - 1
        } else {
            q
        };
        assert(after[p] == before[p0] && after[q] == before[q0]);
        assert(before[j] == before[j] && before[j - 1] == before[j - 1]);
    }
}

/// Where the entry at `j` is no smaller than its neighbour in front, there is no exception.
proof fn lemma_sort_done(entries: Seq<(u32, u64)>, i: int, j: int)
    requires
        0 <= j <= i < entries.len(),
        sorted_but(entries, i, j),
        j > 0 ==> entries[j - 1].1 <= entries[j].1,
    ensures
        sorted_upto(entries, i + 1),
{
    assert forall|p: int, q: int| 0 <= p < q < i + 1 implies (#[trigger] entries[p]).1 <= (
    #[trigger] entries[q]).1 by {
        if q == j {
            assert(entries[j - 1] == entries[j - 1]);
        }
    }
}

/// Sorts the entries by key; entries with equal keys keep their order.
fn sort_entries<T: Copy, K: Fn(T) -> u64>(entries: &mut Vec<(u32, T)>, key: &K)
    requires
        accepts_all(*key),
        distinct_ids(old(entries)@),
    ensures
        rearranged(old(entries)@, final(entries)@),
        forall|rank: spec_fn(T) -> u64| #[trigger]
            computes(*key, rank) ==> sorted_upto(
                ranked(final(entries)@, rank),
                final(entries)@.len() as int,
            ),
{
    let ghost start = entries@;
    let mut i: usize = 0;
    while i < entries.len()
        invariant
            i <= entries@.len(),
            accepts_all(*key),
            rearranged(start, entries@),
            forall|rank: spec_fn(T) -> u64| #[trigger]
                computes(*key, rank) ==> sorted_upto(ranked(entries@, rank), i as int),
        decreases start.len() - i,
    {
        let mut j: usize = i;
        loop
            invariant
                j <= i < entries@.len(),
                accepts_all(*key),
                rearranged(start, entries@),
                forall|rank: spec_fn(T) -> u64| #[trigger]
                    computes(*key, rank) ==> sorted_but(
                        ranked(entries@, rank),
                        i as int,
                        j as int,
                    ),
            ensures
                i < entries@.len(),
                rearranged(start, entries@),
                forall|rank: spec_fn(T) -> u64| #[trigger]
                    computes(*key, rank) ==> sorted_upto(ranked(entries@, rank), i + 1),
            decreases j,
        {
            let settled: bool = j == 0 || {
                let here: u64 = key(entries[j].1);
                let front: u64 = key(entries[j - 1].1);
                front <= here
            };
            if settled {
                proof {
                    assert forall|rank: spec_fn(T) -> u64| #[trigger] computes(
                        *key,
                        rank,
                    ) implies sorted_upto(ranked(entries@, rank), i + 1) by {
                        lemma_sort_done(ranked(entries@, rank), i as int, j as int);
                    }
                }
                break;
            }
            let ghost before = entries@;
            let at_j: (u32, T) = entries[j];
            let at_l: (u32, T) = entries[j - 1];
            entries[j] = at_l;
            entries[j - 1] = at_j;
            proof {
                lemma_swap(before, entries@, j as int, j - 1);
                lemma_rearranged_trans(start, before, entries@);
                assert forall|rank: spec_fn(T) -> u64| #[trigger] computes(
                    *key,
                    rank,
                ) implies sorted_but(ranked(entries@, rank), i as int, j - 1) by {
                    let rb = ranked(before, rank);
                    assert(ranked(entries@, rank) =~= rb.update(j as int, rb[j - 1]).update(
                        j - 1,
                        rb[j as int],
                    ));
                    lemma_sort_step(rb, ranked(entries@, rank), i as int, j as int);
                }
            }
            j -= 1;
        }
        i += 1;
    }
}

/// What holds of the entries when the first `seen` keys have been looked at: they name places among
/// those, and no place that was passed over has a smaller key than any of them.
spec fn selected(entries: Seq<(u32, u64)>, keys: Seq<u64>, seen: int) -> bool {
    &&& forall|p: int|
        0 <= p < entries.len() ==> (#[trigger] entries[p]).0 < seen && entries[p].1
            == keys[entries[p].0 as int]
    &&& distinct_ids(entries)
    &&& forall|id: int, p: int|
        0 <= id < seen && 0 <= p < entries.len() && !chosen(entries, id) ==> (
        #[trigger] entries[p]).1 <= #[trigger] keys[id]
}

proof fn lemma_selected_rearranged(
    a: Seq<(u32, u64)>,
    b: Seq<(u32, u64)>,
    keys: Seq<u64>,
    seen: int,
)
    requires
        selected(a, keys, seen),
        rearranged(a, b),
    ensures
        selected(b, keys, seen),
{
    assert forall|p: int| 0 <= p < b.len() implies (#[trigger] b[p]).0 < seen && b[p].1
        == keys[b[p].0 as int] by {
        assert(b.contains(b[p]));
        let q = choose|q: int| 0 <= q < a.len() && a[q] == b[p];
        assert(a[q] == b[p]);
    }
    assert forall|id: int, p: int|
        0 <= id < seen && 0 <= p < b.len() && !chosen(b, id) implies (#[trigger] b[p]).1
        <= #[trigger] keys[id] by {
        assert(b.contains(b[p]));
        let q = choose|q: int| 0 <= q < a.len() && a[q] == b[p];
        assert(a[q] == b[p]);
        assert(!chosen(a, id)) by {
            if chosen(a, id) {
                assert(chosen(b, id));
            }
        }
    }
}

/// Replacing the greatest of the selected keys by a smaller one keeps the selection.
proof fn lemma_replace_root(
    before: Seq<(u32, u64)>,
    after: Seq<(u32, u64)>,
    keys: Seq<u64>,
    i: int,
)
    requires
        0 <= i < keys.len(),
        i <= u32::MAX,
        before.len() > 0,
        selected(before, keys, i),
        heap_from(before, 0),
        keys[i] < before[0].1,
        after == before.update(0, (i as u32, keys[i])),
    ensures
        selected(after, keys, i + 1),
        heap_from(after, 1),
{
    assert forall|id: int, p: int|
        0 <= id < i + 1 && 0 <= p < after.len() && !chosen(after, id) implies (
    #[trigger] after[p]).1 <= #[trigger] keys[id] by {
        assert(after[0].0 == i);
        assert(id < i);
        lemma_root_greatest(before, p);
        if chosen(before, id) {
            let q = choose|q: int| 0 <= q < before.len() && (#[trigger] before[q]).0 == id;
            if q > 0 {
                assert(after[q].0 == id);
            }
            assert(before[0].1 == keys[id]);
        } else {
            assert(before[0].1 <= keys[id]);
        }
    }
    assert forall|c: int| 1 <= c < after.len() && 1 <= (c - 1)
        / 2 implies #[trigger] below_parent(after, c) by {
        assert(below_parent(before, c));
    }
}

/// A key that is not below the greatest of the selected keys is passed over.
proof fn lemma_pass_over(entries: Seq<(u32, u64)>, keys: Seq<u64>, i: int)
    requires
        0 <= i < keys.len(),
        entries.len() > 0,
        selected(entries, keys, i),
        heap_from(entries, 0),
        keys[i] >= entries[0].1,
    ensures
        selected(entries, keys, i + 1),
{
    assert forall|id: int, p: int|
        0 <= id < i + 1 && 0 <= p < entries.len() && !chosen(entries, id) implies (
    #[trigger] entries[p]).1 <= #[trigger] keys[id] by {
        lemma_root_greatest(entries, p);
    }
}

/// One more entry, while all keys so far are selected.
proof fn lemma_take_in(before: Seq<(u32, u64)>, keys: Seq<u64>, i: int)
    requires
        0 <= i < keys.len(),
        i <= u32::MAX,
        selected(before, keys, i),
        forall|id: int| 0 <= id < i ==> #[trigger] chosen(before, id),
    ensures
        selected(before.push((i as u32, keys[i])), keys, i + 1),
        forall|id: int|
            0 <= id < i + 1 ==> #[trigger] chosen(before.push((i as u32, keys[i])), id),
{
    let after = before.push((i as u32, keys[i]));
    assert forall|id: int| 0 <= id < i + 1 implies #[trigger] chosen(after, id) by {
        if id < i {
            assert(chosen(before, id));
            let p = choose|p: int| 0 <= p < before.len() && (#[trigger] before[p]).0 == id;
            assert(after[p].0 == id);
        } else {
            assert(after[before.len() as int].0 == id);
        }
    }
}

/// The entries name different places before `seen`, each with the distance that stands there.
spec fn named<T>(entries: Seq<(u32, T)>, distances: Seq<T>, seen: int) -> bool {
    &&& forall|p: int|
        0 <= p < entries.len() ==> (#[trigger] entries[p]).0 < seen && entries[p].1
            == distances[entries[p].0 as int]
    &&& distinct_ids(entries)
}

proof fn lemma_named_rearranged<T>(
    a: Seq<(u32, T)>,
    b: Seq<(u32, T)>,
    distances: Seq<T>,
    seen: int,
)
    requires
        named(a, distances, seen),
        rearranged(a, b),
    ensures
        named(b, distances, seen),
{
    assert forall|p: int| 0 <= p < b.len() implies (#[trigger] b[p]).0 < seen && b[p].1
        == distances[b[p].0 as int] by {
        assert(b.contains(b[p]));
        let q = choose|q: int| 0 <= q < a.len() && a[q] == b[p];
        assert(a[q] == b[p]);
    }
}

/// The selection after the first `seen` distances is the right one by every rank that the key gives.
spec fn best_so_far<T, K: Fn(T) -> u64>(
    key: K,
    entries: Seq<(u32, T)>,
    distances: Seq<T>,
    seen: int,
) -> bool {
    forall|rank: spec_fn(T) -> u64| #[trigger]
        computes(key, rank) ==> selected(ranked(entries, rank), ranks(distances, rank), seen)
}

/// Rearranging the entries keeps the selection.
proof fn lemma_best_rearranged<T, K: Fn(T) -> u64>(
    key: K,
    a: Seq<(u32, T)>,
    b: Seq<(u32, T)>,
    distances: Seq<T>,
    seen: int,
)
    requires
        named(a, distances, seen),
        best_so_far(key, a, distances, seen),
        rearranged(a, b),
    ensures
        named(b, distances, seen),
        best_so_far(key, b, distances, seen),
{
    lemma_named_rearranged(a, b, distances, seen);
    assert forall|rank: spec_fn(T) -> u64| #[trigger] computes(key, rank) implies selected(
        ranked(b, rank),
        ranks(distances, rank),
        seen,
    ) by {
        lemma_ranked_rearranged(a, b, rank);
        lemma_selected_rearranged(
            ranked(a, rank),
            ranked(b, rank),
            ranks(distances, rank),
            seen,
        );
    }
}

/// Selects the `k` smallest distances with their places, in ascending order. `key` gives the rank of
/// a distance. The distances are looked at once, and the smallest so far are kept in `out` as a heap
/// whose root is the greatest of them.
pub fn select_top_k<T: Copy, K: Fn(T) -> u64>(
    distances: &[T],
    k: usize,
    out: &mut Vec<(u32, T)>,
    key: &K,
)
    requires
        distances@.len() <= 0x1_0000_0000,
        accepts_all(*key),
    ensures
        is_selection(distances@, k as nat, final(out)@),
        forall|rank: spec_fn(T) -> u64| #[trigger]
            computes(*key, rank) ==> is_lowest(distances@, final(out)@, rank),
{
    out.clear();
    if k == 0 {
        return;
    }
    let mut i: usize = 0;
    while i < distances.len()
        invariant
            k > 0,
            accepts_all(*key),
            i <= distances@.len() <= 0x1_0000_0000,
            named(out@, distances@, i as int),
            best_so_far(*key, out@, distances@, i as int),
            out@.len() == if i <= k { i } else { k },
            out@.len() < k ==> forall|id: int| 0 <= id < i ==> #[trigger] chosen(out@, id),
            out@.len() == k ==> heaped(*key, out@, 0),
        decreases distances@.len() - i,
    {
        let d: T = distances[i];
        let ghost before = out@;
        if out.len() < k {
            out.push((i as u32, d));
            let ghost added = out@;
            proof {
                lemma_named_one_more(before, distances@, i as int);
                assert forall|rank: spec_fn(T) -> u64| #[trigger] computes(
                    *key,
                    rank,
                ) implies selected(
                    ranked(added, rank),
                    ranks(distances@, rank),
                    i + 1,
                ) by {
                    lemma_ranked_ids(before, rank);
                    lemma_take_in(ranked(before, rank), ranks(distances@, rank), i as int);
                    assert(ranked(added, rank) =~= ranked(before, rank).push(
                        (i as u32, ranks(distances@, rank)[i as int]),
                    ));
                }
            }
            if out.len() == k {
                heapify(out, key);
                proof {
                    lemma_best_rearranged(*key, added, out@, distances@, i + 1);
                }
            }
        } else {
            let d_key: u64 = key(d);
            let root_key: u64 = key(out[0].1);
            if d_key < root_key {
                out[0] = (i as u32, d);
                let ghost replaced = out@;
                proof {
                    assert(named(replaced, distances@, i + 1));
                    assert forall|rank: spec_fn(T) -> u64| #[trigger] computes(
                        *key,
                        rank,
                    ) implies selected(
                        ranked(replaced, rank),
                        ranks(distances@, rank),
                        i + 1,
                    ) && heap_from(ranked(replaced, rank), 1) by {
                        assert(ranked(replaced, rank) =~= ranked(before, rank).update(
                            0,
                            (i as u32, ranks(distances@, rank)[i as int]),
                        ));
                        lemma_replace_root(
                            ranked(before, rank),
                            ranked(replaced, rank),
                            ranks(distances@, rank),
                            i as int,
                        );
                    }
                }
                sift_down(out, 0, key);
                proof {
                    lemma_best_rearranged(*key, replaced, out@, distances@, i + 1);
                }
            } else {
                proof {
                    assert forall|rank: spec_fn(T) -> u64| #[trigger] computes(
                        *key,
                        rank,
                    ) implies selected(
                        ranked(out@, rank),
                        ranks(distances@, rank),
                        i + 1,
                    ) by {
                        lemma_pass_over(ranked(out@, rank), ranks(distances@, rank), i as int);
                    }
                }
            }
        }
        i += 1;
    }
    let ghost unsorted = out@;
    sort_entries(out, key);
    proof {
        lemma_best_rearranged(*key, unsorted, out@, distances@, i as int);
        assert forall|rank: spec_fn(T) -> u64| #[trigger] computes(
            *key,
            rank,
        ) implies is_lowest(distances@, out@, rank) by {
            let r = ranked(out@, rank);
            lemma_ranked_ids(out@, rank);
            assert(sorted_upto(r, out@.len() as int));
            assert forall|a: int, b: int| 0 <= a < b < out@.len() implies rank(
                (#[trigger] out@[a]).1,
            ) <= rank((#[trigger] out@[b]).1) by {
                assert(r[a].1 <= r[b].1);
            }
            assert forall|id: int, q: int|
                0 <= id < distances@.len() && 0 <= q < out@.len() && !chosen(
                    out@,
                    id,
                ) implies rank((#[trigger] out@[q]).1) <= rank(#[trigger] distances@[id]) by {
                assert(!chosen(r, id));
                assert(r[q].1 <= ranks(distances@, rank)[id]);
            }
        }
    }
}

/// One more entry, while all distances so far are selected.
proof fn lemma_named_one_more<T>(before: Seq<(u32, T)>, distances: Seq<T>, i: int)
    requires
        0 <= i < distances.len(),
        i <= u32::MAX,
        named(before, distances, i),
        forall|id: int| 0 <= id < i ==> #[trigger] chosen(before, id),
    ensures
        named(before.push((i as u32, distances[i])), distances, i + 1),
        forall|id: int|
            0 <= id < i + 1 ==> #[trigger] chosen(before.push((i as u32, distances[i])), id),
{
    let after = before.push((i as u32, distances[i]));
    assert forall|id: int| 0 <= id < i + 1 implies #[trigger] chosen(after, id) by {
        if id < i {
            assert(chosen(before, id));
            let p = choose|p: int| 0 <= p < before.len() && (#[trigger] before[p]).0 == id;
            assert(after[p].0 == id);
        } else {
            assert(after[before.len() as int].0 == id);
        }
    }
}

} // verus!
