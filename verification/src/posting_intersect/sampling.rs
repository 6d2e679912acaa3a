//! Drawing distinct document ids from a universe.
use std::collections::HashSet;
use vstd::prelude::*;
use vstd::std_specs::hash::group_hash_axioms;

use crate::prng::{
    draw, lemma_every_value_is_drawn, lemma_first_draw, lemma_some_draw, lemma_state_after_sum,
    state_after, SplitMix64,
};
use crate::sorted::{ascending, lemma_ascending, sort_distinct, strictly_increasing};

verus! {

/// A set of ids below a bound, one bit each.
struct BitSet {
    words: Vec<u64>,
}

/// Bit `b` of a word.
spec fn bit(word: u64, b: u64) -> bool {
    word & (1u64 << b) != 0
}

impl BitSet {
    spec fn capacity(&self) -> nat {
        self.words@.len() * 64
    }

    spec fn contains(&self, v: u32) -> bool {
        bit(self.words@[v as int / 64], (v % 64) as u64)
    }

    fn new(capacity: u32) -> (r: Self)
        ensures
            r.capacity() >= capacity,
            forall|v: u32| v < capacity ==> !r.contains(v),
    {
        let count: usize = capacity as usize / 64 + 1;
        let r = BitSet { words: vec![0u64;count] };
        proof {
            assert forall|v: u32| v < capacity implies !r.contains(v) by {
                let b = (v % 64) as u64;
                assert(0u64 & (1u64 << b) == 0) by (bit_vector);
            }
        }
        r
    }

    /// Adds `v`; tells whether it was new.
    fn insert(&mut self, v: u32) -> (fresh: bool)
        requires
            v < old(self).capacity(),
        ensures
            fresh == !old(self).contains(v),
            final(self).capacity() == old(self).capacity(),
            forall|x: u32|
                x < old(self).capacity() ==> (#[trigger] final(self).contains(x) <==> x == v || old(
                    self,
                ).contains(x)),
    {
        let ghost before = *self;
        let w: usize = (v / 64) as usize;
        let shift: u64 = (v % 64) as u64;
        let b: u64 = 1u64 << shift;
        let word: u64 = self.words[w];
        if word & b == 0 {
            self.words[w] = word | b;
            proof {
                assert forall|x: u32| x < before.capacity() implies (#[trigger] self.contains(x)
                    <==> x == v || before.contains(x)) by {
                    let y = (x % 64) as u64;
                    assert((word | (1u64 << shift)) & (1u64 << y) != 0 <==> (y == shift || word & (
                    1u64 << y) != 0)) by (bit_vector)
                        requires
                            shift < 64,
                            y < 64,
                    ;
                }
            }
            true
        } else {
            false
        }
    }
}

/// The ids drawn so far: a bit set where the universe is small, a hash set otherwise.
enum Seen {
    Bits(BitSet),
    Hashed(HashSet<u32>),
}

impl Seen {
    spec fn holds(&self, universe: u32) -> bool {
        self matches Seen::Bits(bits) ==> bits.capacity() >= universe
    }

    spec fn contains(&self, v: u32) -> bool {
        match self {
            Seen::Bits(bits) => bits.contains(v),
            Seen::Hashed(set) => set@.contains(v),
        }
    }

    fn new(universe: u32) -> (r: Self)
        ensures
            r.holds(universe),
            forall|v: u32| v < universe ==> !r.contains(v),
    {
        if universe <= 0x10_0000 {
            Seen::Bits(BitSet::new(universe))
        } else {
            Seen::Hashed(HashSet::new())
        }
    }

    /// Adds `v`; tells whether it was new.
    fn insert(&mut self, v: u32, universe: u32) -> (fresh: bool)
        requires
            v < universe,
            old(self).holds(universe),
        ensures
            fresh == !old(self).contains(v),
            final(self).holds(universe),
            forall|x: u32|
                x < universe ==> (#[trigger] final(self).contains(x) <==> x == v || old(
                    self,
                ).contains(x)),
    {
        broadcast use group_hash_axioms;

        match self {
            Seen::Bits(bits) => bits.insert(v),
            Seen::Hashed(set) => set.insert(v),
        }
    }
}

/// Draw `k` from `state`, reduced to an id of the universe.
pub open spec fn drawn_id(state: u64, universe: u32, k: nat) -> u32 {
    (draw(state, k) % (universe as u64)) as u32
}

/// The different ids among the first `k` draws, in the order in which they first came.
pub open spec fn distinct_draws(state: u64, universe: u32, k: nat) -> Seq<u32>
    decreases k,
{
    if k == 0 {
        Seq::empty()
    } else {
        let before = distinct_draws(state, universe, (k - 1) as nat);
        let v = drawn_id(state, universe, (k - 1) as nat);
        if before.contains(v) {
            before
        } else {
            before.push(v)
        }
    }
}

/// `k` draws, and no fewer, give `n` different ids.
pub open spec fn enough_draws(state: u64, universe: u32, n: nat, k: nat) -> bool {
    &&& distinct_draws(state, universe, k).len() == n
    &&& forall|m: nat| m < k ==> (#[trigger] distinct_draws(state, universe, m)).len() < n
}

/// How many draws it takes until `n` different ids have come.
pub open spec fn draws_needed(state: u64, universe: u32, n: nat) -> nat {
    choose|k: nat| enough_draws(state, universe, n, k)
}

/// The first draws are different ids of the universe.
proof fn lemma_distinct_draws(state: u64, universe: u32, k: nat)
    requires
        universe > 0,
    ensures
        distinct_draws(state, universe, k).no_duplicates(),
        forall|i: int|
            0 <= i < distinct_draws(state, universe, k).len() ==> (#[trigger] distinct_draws(
                state,
                universe,
                k,
            )[i]) < universe,
    decreases k,
{
    if k > 0 {
        lemma_distinct_draws(state, universe, (k - 1) as nat);
        let before = distinct_draws(state, universe, (k - 1) as nat);
        let v = drawn_id(state, universe, (k - 1) as nat);
        assert(v < universe);
        if !before.contains(v) {
            assert forall|i: int| 0 <= i < before.len() implies before[i] != v by {}
        }
    }
}

/// More draws never give fewer ids.
proof fn lemma_more_draws(state: u64, universe: u32, j: nat, k: nat)
    requires
        j <= k,
    ensures
        distinct_draws(state, universe, j).len() <= distinct_draws(state, universe, k).len(),
    decreases k,
{
    if j < k {
        lemma_more_draws(state, universe, j, (k - 1) as nat);
    }
}

/// Where some number of draws gives `n` ids or more, some number of draws gives the `n`-th.
proof fn lemma_least_draws(state: u64, universe: u32, n: nat, k: nat) -> (least: nat)
    requires
        distinct_draws(state, universe, k).len() >= n,
    ensures
        enough_draws(state, universe, n, least),
    decreases k,
{
    if k == 0 {
        0
    } else if distinct_draws(state, universe, (k - 1) as nat).len() >= n {
        lemma_least_draws(state, universe, n, (k - 1) as nat)
    } else {
        assert forall|m: nat| m < k implies (#[trigger] distinct_draws(state, universe, m)).len()
            < n by {
            lemma_more_draws(state, universe, m, (k - 1) as nat);
        }
        k
    }
}

/// A sequence that holds every id of a universe is as long as the universe is large.
proof fn lemma_pigeonhole(s: Seq<u32>, universe: u32)
    requires
        forall|v: u32| v < universe ==> s.contains(v),
    ensures
        s.len() >= universe,
    decreases universe,
{
    if universe > 0 {
        let top = (universe - 1) as u32;
        assert(s.contains(top));
        let i = choose|i: int| 0 <= i < s.len() && s[i] == top;
        let rest = s.remove(i);
        assert forall|v: u32| v < top implies rest.contains(v) by {
            assert(s.contains(v));
            let k = choose|k: int| 0 <= k < s.len() && s[k] == v;
            if k < i {
                assert(rest[k] == v);
            } else {
                assert(rest[k - 1] == v);
            }
        }
        lemma_pigeonhole(rest, top);
    }
}

/// Rejection sampling ends: as long as ids of the universe are missing, one of them comes.
pub proof fn lemma_sampling_ends(state: u64, universe: u32, n: nat)
    requires
        n <= universe,
        universe > 0,
    ensures
        enough_draws(state, universe, n, draws_needed(state, universe, n)),
    decreases n,
{
    if n == 0 {
        assert(enough_draws(state, universe, 0, 0));
    } else {
        lemma_sampling_ends(state, universe, (n - 1) as nat);
        let k0 = draws_needed(state, universe, (n - 1) as nat);
        let have = distinct_draws(state, universe, k0);
        let v = if forall|v: u32| v < universe ==> have.contains(v) {
            lemma_pigeonhole(have, universe);
            0u32
        } else {
            choose|v: u32| v < universe && !have.contains(v)
        };
        assert(v < universe && !have.contains(v));
        lemma_every_value_is_drawn(state_after(state, k0), v as u64);
        let m = choose|m: nat| #[trigger] draw(state_after(state, k0), m) == v as u64;
        let k1 = k0 + m;
        lemma_state_after_sum(state, k0, m + 1);
        assert(draw(state, k1) == v as u64);
        assert((v as u64) % (universe as u64) == v as u64) by {
            vstd::arithmetic::div_mod::lemma_small_mod(v as nat, universe as nat);
        }
        assert(drawn_id(state, universe, k1) == v);
        lemma_more_draws(state, universe, k0, k1 + 1);
        assert(distinct_draws(state, universe, k1 + 1).contains(v)) by {
            let before = distinct_draws(state, universe, k1);
            if !before.contains(v) {
                assert(before.push(v)[before.len() as int] == v);
            }
        }
        lemma_prefix_draws(state, universe, k0, k1 + 1);
        if distinct_draws(state, universe, k1 + 1).len() == have.len() {
            assert(distinct_draws(state, universe, k1 + 1) =~= have);
        }
        let k = lemma_least_draws(state, universe, n, k1 + 1);
        assert(enough_draws(state, universe, n, k));
    }
}

/// The ids of fewer draws are the first ids of more draws.
proof fn lemma_prefix_draws(state: u64, universe: u32, j: nat, k: nat)
    requires
        j <= k,
    ensures
        distinct_draws(state, universe, j).is_prefix_of(distinct_draws(state, universe, k)),
    decreases k,
{
    if j < k {
        lemma_prefix_draws(state, universe, j, (k - 1) as nat);
        lemma_more_draws(state, universe, j, (k - 1) as nat);
    }
}

/// Draws ids until `n` different ones have come, passing over those that came before.
fn sample_by_rejection(rng: &mut SplitMix64, n: usize, universe: u32) -> (out: Vec<u32>)
    requires
        n <= universe,
        universe > 0,
    ensures
        out@ == distinct_draws(old(rng)@, universe, draws_needed(old(rng)@, universe, n as nat)),
        final(rng)@ == state_after(old(rng)@, draws_needed(old(rng)@, universe, n as nat)),
{
    let ghost start = rng@;
    let ghost needed = draws_needed(start, universe, n as nat);
    let ghost mut k: nat = 0;
    let mut out: Vec<u32> = Vec::with_capacity(n);
    let mut seen: Seen = Seen::new(universe);
    proof {
        lemma_sampling_ends(start, universe, n as nat);
    }
    while out.len() < n
        invariant
            universe > 0,
            enough_draws(start, universe, n as nat, needed),
            k <= needed,
            rng@ == state_after(start, k),
            out@ == distinct_draws(start, universe, k),
            out@.len() <= n,
            seen.holds(universe),
            forall|v: u32| v < universe ==> (#[trigger] seen.contains(v) <==> out@.contains(v)),
        decreases needed - k,
    {
        let v: u32 = (rng.next_u64() % (universe as u64)) as u32;
        let ghost before = out@;
        assert(v == drawn_id(start, universe, k));
        if seen.insert(v, universe) {
            out.push(v);
        }
        proof {
            assert forall|x: u32| x < universe implies (#[trigger] seen.contains(x)
                <==> out@.contains(x)) by {
                if out@.contains(x) && !before.contains(x) {
                    let i = choose|i: int| 0 <= i < out@.len() && out@[i] == x;
                    assert(i == before.len());
                }
                if before.contains(x) {
                    let i = choose|i: int| 0 <= i < before.len() && before[i] == x;
                    assert(out@[i] == x);
                }
                if x == v && !before.contains(v) {
                    assert(out@[before.len() as int] == v);
                }
            }
            k = k + 1;
        }
    }
    proof {
        if k < needed {
            assert(distinct_draws(start, universe, k).len() < n);
        }
    }
    out
}

/// The sequence with two of its elements exchanged.
pub open spec fn swapped(s: Seq<u32>, i: int, j: int) -> Seq<u32> {
    s.update(i, s[j]).update(j, s[i])
}

/// The place from which step `i` of the shuffle takes its element: one of those from `i` on.
pub open spec fn shuffle_pick(state: u64, universe: u32, i: nat) -> int {
    i + (draw(state, i) as usize as int) % (universe - i)
}

/// The universe in ascending order, after the first `i` steps of a Fisher-Yates shuffle.
pub open spec fn shuffled(state: u64, universe: u32, i: nat) -> Seq<u32>
    decreases i,
{
    if i == 0 {
        Seq::new(universe as nat, |v: int| v as u32)
    } else {
        swapped(
            shuffled(state, universe, (i - 1) as nat),
            i - 1,
            shuffle_pick(state, universe, (i - 1) as nat),
        )
    }
}

/// A shuffle only rearranges.
proof fn lemma_shuffled(state: u64, universe: u32, i: nat)
    requires
        i <= universe,
    ensures
        shuffled(state, universe, i).len() == universe,
        shuffled(state, universe, i).no_duplicates(),
        forall|k: int|
            0 <= k < universe ==> (#[trigger] shuffled(state, universe, i)[k]) < universe,
    decreases i,
{
    if i > 0 {
        lemma_shuffled(state, universe, (i - 1) as nat);
        let pick = shuffle_pick(state, universe, (i - 1) as nat);
        assert(i - 1 <= pick < universe) by {
            vstd::arithmetic::div_mod::lemma_mod_bound(
                draw(state, (i - 1) as nat) as usize as int,
                universe - (i - 1),
            );
        }
    }
}

/// Shuffles `n` random ids of the universe to the front, and takes them.
fn sample_by_shuffle(rng: &mut SplitMix64, n: usize, universe: u32) -> (out: Vec<u32>)
    requires
        n <= universe,
    ensures
        out@ == shuffled(old(rng)@, universe, n as nat).take(n as int),
        final(rng)@ == state_after(old(rng)@, n as nat),
{
    let ghost start = rng@;
    let mut domain: Vec<u32> = Vec::with_capacity(universe as usize);
    let mut v: u32 = 0;
    while v < universe
        invariant
            v <= universe,
            domain@ == Seq::new(v as nat, |v: int| v as u32),
        decreases universe - v,
    {
        domain.push(v);
        v += 1;
    }
    let mut i: usize = 0;
    while i < n
        invariant
            i <= n <= universe,
            domain@.len() == universe,
            domain@ == shuffled(start, universe, i as nat),
            rng@ == state_after(start, i as nat),
        decreases n - i,
    {
        let r: u64 = rng.next_u64();
        let j: usize = i + (r as usize) % (domain.len() - i);
        let at_i: u32 = domain[i];
        let at_j: u32 = domain[j];
        domain[i] = at_j;
        domain[j] = at_i;
        i += 1;
    }
    domain.truncate(n);
    domain
}

/// `n` different ids of the universe in ascending order (all of them, where it has fewer), and the
/// state of the generator after drawing them. A sample of more than a quarter of the universe is
/// shuffled, a smaller one is drawn by rejection.
pub open spec fn sample(state: u64, n: nat, universe: u32) -> (Seq<u32>, u64) {
    let n = if n <= universe { n } else { universe as nat };
    if n == 0 {
        (Seq::empty(), state)
    } else if 4 * n > universe {
        (ascending(shuffled(state, universe, n).take(n as int)), state_after(state, n))
    } else {
        let k = draws_needed(state, universe, n);
        (ascending(distinct_draws(state, universe, k)), state_after(state, k))
    }
}

/// A sample is sorted without duplicates, lies in the universe and has the size that was asked
/// for, as far as the universe allows.
pub proof fn lemma_sample(state: u64, n: nat, universe: u32)
    ensures
        strictly_increasing(sample(state, n, universe).0),
        sample(state, n, universe).0.len() == if n <= universe { n } else { universe as nat },
        forall|i: int|
            0 <= i < sample(state, n, universe).0.len() ==> (#[trigger] sample(
                state,
                n,
                universe,
            ).0[i]) < universe,
{
    let m = if n <= universe { n } else { universe as nat };
    if m > 0 {
        let raw = if 4 * m > universe {
            lemma_shuffled(state, universe, m);
            shuffled(state, universe, m).take(m as int)
        } else {
            let k = draws_needed(state, universe, m);
            lemma_sampling_ends(state, universe, m);
            lemma_distinct_draws(state, universe, k);
            distinct_draws(state, universe, k)
        };
        let list = ascending(raw);
        assert(raw.no_duplicates() && raw.len() == m);
        lemma_ascending(raw);
        assert(list.no_duplicates());
        raw.unique_seq_to_set();
        list.unique_seq_to_set();
        assert(raw.to_set() =~= list.to_set()) by {
            assert forall|x: u32| list.to_set().contains(x) <==> raw.to_set().contains(x) by {
                assert(list.contains(x) <==> raw.contains(x));
            }
        }
        assert forall|i: int| 0 <= i < list.len() implies (#[trigger] list[i]) < universe by {
            assert(list.contains(list[i]));
            assert(raw.contains(list[i]));
        }
    }
}

/// The ids that have come are those that were drawn, whenever that was.
pub proof fn lemma_came_if_drawn(state: u64, universe: u32, k: nat, v: u32)
    ensures
        distinct_draws(state, universe, k).contains(v) <==> exists|j: nat|
            j < k && #[trigger] drawn_id(state, universe, j) == v,
    decreases k,
{
    if k > 0 {
        let last = (k - 1) as nat;
        lemma_came_if_drawn(state, universe, last, v);
        let before = distinct_draws(state, universe, last);
        let next = drawn_id(state, universe, last);
        let after = distinct_draws(state, universe, k);
        if before.contains(v) {
            let i = choose|i: int| 0 <= i < before.len() && before[i] == v;
            assert(after[i] == v);
        }
        if v == next && !before.contains(next) {
            assert(after[before.len() as int] == v);
        }
        if after.contains(v) && !before.contains(v) {
            let i = choose|i: int| 0 <= i < after.len() && after[i] == v;
            assert(v == next);
        }
    }
}

/// What a step of the shuffle has put in place stays there.
proof fn lemma_shuffle_settles(state: u64, universe: u32, settled: nat, i: nat)
    requires
        settled <= i <= universe,
    ensures
        shuffled(state, universe, i).take(settled as int) == shuffled(
            state,
            universe,
            settled,
        ).take(settled as int),
    decreases i,
{
    lemma_shuffled(state, universe, i);
    if settled < i {
        let before = (i - 1) as nat;
        lemma_shuffled(state, universe, before);
        lemma_shuffle_settles(state, universe, settled, before);
        let pick = shuffle_pick(state, universe, before);
        assert(before <= pick < universe) by {
            vstd::arithmetic::div_mod::lemma_mod_bound(
                draw(state, before) as usize as int,
                universe - before,
            );
        }
        assert(shuffled(state, universe, i).take(settled as int) =~= shuffled(
            state,
            universe,
            before,
        ).take(settled as int));
    }
}

/// Every id of the universe can be sampled: for each there is a state of the generator from which a
/// sample of any size but zero holds it.
pub proof fn lemma_every_id_is_sampled(n: nat, universe: u32, v: u32)
    requires
        n > 0,
        v < universe,
    ensures
        exists|state: u64| #[trigger] sample(state, n, universe).0.contains(v),
{
    let m = if n <= universe { n } else { universe as nat };
    let state = lemma_first_draw(v as u64);
    vstd::arithmetic::div_mod::lemma_small_mod(v as nat, universe as nat);
    let raw = if 4 * m > universe {
        lemma_shuffled(state, universe, m);
        lemma_shuffle_settles(state, universe, 1, m);
        let start = shuffled(state, universe, 0);
        assert(start[v as int] == v);
        assert((v as u64) as usize as int == v);
        assert(shuffle_pick(state, universe, 0) == v);
        assert(shuffled(state, universe, 1) == swapped(start, 0, v as int));
        assert(shuffled(state, universe, 1).take(1)[0] == v);
        let raw = shuffled(state, universe, m).take(m as int);
        assert(shuffled(state, universe, m).take(1)[0] == v);
        assert(raw[0] == v);
        raw
    } else {
        let k = draws_needed(state, universe, m);
        lemma_sampling_ends(state, universe, m);
        assert(k > 0);
        assert(drawn_id(state, universe, 0) == v);
        lemma_came_if_drawn(state, universe, k, v);
        distinct_draws(state, universe, k)
    };
    assert(raw.contains(v));
    lemma_ascending(raw);
    assert(ascending(raw).contains(v));
    assert(sample(state, n, universe).0.contains(v));
}

/// Every draw can give every id of the universe, and every step of the shuffle can take its element
/// from every place from its own on.
pub proof fn lemma_nothing_is_left_out(universe: u32, k: nat, v: u32)
    requires
        v < universe,
    ensures
        exists|state: u64| #[trigger] drawn_id(state, universe, k) == v,
        k <= v ==> exists|state: u64| #[trigger] shuffle_pick(state, universe, k) == v,
{
    let state = lemma_some_draw(k, v as u64);
    vstd::arithmetic::div_mod::lemma_small_mod(v as nat, universe as nat);
    assert(drawn_id(state, universe, k) == v);
    if k <= v {
        let ahead = (v - k) as u64;
        let state = lemma_some_draw(k, ahead);
        assert(ahead as usize as int == v - k);
        vstd::arithmetic::div_mod::lemma_small_mod(ahead as nat, (universe - k) as nat);
        assert(shuffle_pick(state, universe, k) == v);
    }
}

/// How a sample is drawn. One of more than a quarter of the universe takes as many draws as it has ids,
/// and the first draw picks one of all of them. A smaller one holds every id that is drawn, each draw
/// being reduced to the universe, and the generator stops at the draw that makes it complete.
pub proof fn lemma_sample_method(state: u64, n: nat, universe: u32)
    requires
        0 < n <= universe,
    ensures
        4 * n > universe ==> sample(state, n, universe).1 == state_after(state, n) && sample(
            state,
            n,
            universe,
        ).0.contains(((draw(state, 0) as usize as int) % (universe as int)) as u32),
        4 * n <= universe ==> exists|k: nat| #[trigger]
            holds_draws(state, universe, k, sample(state, n, universe).0) && k > 0 && sample(
                state,
                n,
                universe,
            ).1 == state_after(state, k),
{
    if 4 * n > universe {
        let raw = shuffled(state, universe, n).take(n as int);
        let start = shuffled(state, universe, 0);
        let pick = (draw(state, 0) as usize as int) % (universe as int);
        vstd::arithmetic::div_mod::lemma_mod_bound(
            draw(state, 0) as usize as int,
            universe as int,
        );
        lemma_shuffle_settles(state, universe, 1, n);
        lemma_shuffled(state, universe, n);
        assert(shuffle_pick(state, universe, 0) == pick);
        assert(shuffled(state, universe, 1) == swapped(start, 0, pick));
        assert(shuffled(state, universe, 1).take(1)[0] == pick as u32);
        assert(shuffled(state, universe, n).take(1)[0] == pick as u32);
        assert(raw[0] == pick as u32);
        lemma_ascending(raw);
        assert(raw.contains(pick as u32));
    } else {
        let k = draws_needed(state, universe, n);
        let raw = distinct_draws(state, universe, k);
        lemma_sampling_ends(state, universe, n);
        lemma_ascending(raw);
        assert forall|j: nat| j < k implies sample(state, n, universe).0.contains(
            (#[trigger] draw(state, j) % (universe as u64)) as u32,
        ) by {
            let v = drawn_id(state, universe, j);
            lemma_came_if_drawn(state, universe, k, v);
            assert(raw.contains(v));
        }
        assert(holds_draws(state, universe, k, sample(state, n, universe).0));
    }
}

/// The list holds the first `k` draws, each reduced to the universe.
pub open spec fn holds_draws(state: u64, universe: u32, k: nat, list: Seq<u32>) -> bool {
    forall|j: nat|
        j < k ==> list.contains((#[trigger] draw(state, j) % (universe as u64)) as u32)
}

/// Sampling moves the generator on, by as many draws as it took: by at least one for each id.
pub proof fn lemma_sample_draws(state: u64, n: nat, universe: u32)
    ensures
        exists|k: nat| #[trigger] state_after(state, k) == sample(state, n, universe).1 && k
            >= if n <= universe { n } else { universe as nat },
{
    let m = if n <= universe { n } else { universe as nat };
    if m == 0 {
        assert(state_after(state, 0) == state);
    } else if 4 * m > universe {
        assert(state_after(state, m) == sample(state, n, universe).1);
    } else {
        let k = draws_needed(state, universe, m);
        lemma_sampling_ends(state, universe, m);
        lemma_few_ids(state, universe, k);
        assert(state_after(state, k) == sample(state, n, universe).1);
    }
}

/// A draw gives at most one new id.
proof fn lemma_few_ids(state: u64, universe: u32, k: nat)
    ensures
        distinct_draws(state, universe, k).len() <= k,
    decreases k,
{
    if k > 0 {
        lemma_few_ids(state, universe, (k - 1) as nat);
    }
}

/// Draws `n` different ids of the universe, sorted ascending.
pub fn sorted_unique(rng: &mut SplitMix64, n: usize, universe: u32) -> (out: Vec<u32>)
    ensures
        out@ == sample(old(rng)@, n as nat, universe).0,
        final(rng)@ == sample(old(rng)@, n as nat, universe).1,
{
    let n: usize = if n <= universe as usize { n } else { universe as usize };
    if n == 0 {
        return Vec::new();
    }
    let mut out: Vec<u32> = if 4 * (n as u64) > universe as u64 {
        proof {
            lemma_shuffled(rng@, universe, n as nat);
        }
        sample_by_shuffle(rng, n, universe)
    } else {
        proof {
            lemma_distinct_draws(rng@, universe, draws_needed(rng@, universe, n as nat));
        }
        sample_by_rejection(rng, n, universe)
    };
    sort_distinct(&mut out);
    out
}

} // verus!
