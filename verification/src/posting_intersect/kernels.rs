//! The intersection kernel.
use vstd::prelude::*;

use crate::posting_intersect::merging::{
    is_met, lemma_advance, lemma_all_met, lemma_merge_step, lemma_nothing_met,
    lemma_pair_symmetric, met,
};
use crate::posting_intersect::{
    any_empty, contents, intersection, lemma_empty_list, lemma_first_two,
    lemma_intersection, lemma_next_list, lemma_single, lemma_stays_empty, pair_intersection,
    sorted_unique_lists,
};
use crate::sorted::{binary_search, strictly_increasing};
use crate::stopwatch::Worker;

verus! {

/// Two-finger merge from the cursors `i`, `j` on. Equal elements are rare, so that branch predicts
/// well; both cursors advance by the outcome of a comparison, without a branch.
fn merge_from(a: &[u32], b: &[u32], i: usize, j: usize, out: &mut Vec<u32>, base: Ghost<Seq<u32>>)
    requires
        strictly_increasing(a@),
        strictly_increasing(b@),
        i <= a@.len(),
        j <= b@.len(),
        exists|r: Seq<u32>|
            is_met(a@, b@, i as int, j as int, r) && old(out)@ == #[trigger] (base@ + r),
    ensures
        final(out)@ == base@ + pair_intersection(a@, b@),
{
    let mut i: usize = i;
    let mut j: usize = j;
    let ghost mut r: Seq<u32> = choose|r: Seq<u32>|
        is_met(a@, b@, i as int, j as int, r) && out@ == #[trigger] (base@ + r);
    while i < a.len() && j < b.len()
        invariant
            strictly_increasing(a@),
            strictly_increasing(b@),
            i <= a@.len(),
            j <= b@.len(),
            is_met(a@, b@, i as int, j as int, r),
            out@ == base@ + r,
        decreases a@.len() - i + b@.len() - j,
    {
        let av: u32 = a[i];
        let bv: u32 = b[j];
        proof {
            lemma_merge_step(a@, b@, i as int, j as int, r);
        }
        if av == bv {
            out.push(av);
            proof {
                assert(base@ + r.push(av) =~= (base@ + r).push(av));
                r = r.push(av);
            }
        }
        i += (av <= bv) as usize;
        j += (av >= bv) as usize;
    }
    proof {
        lemma_all_met(a@, b@, i as int, j as int, r);
    }
}

/// Merges two balanced lists, appending what they have in common to `out`.
pub fn scalar_merge_intersect(a: &[u32], b: &[u32], out: &mut Vec<u32>)
    requires
        strictly_increasing(a@),
        strictly_increasing(b@),
    ensures
        final(out)@ == old(out)@ + pair_intersection(a@, b@),
{
    proof {
        lemma_nothing_met(a@, b@);
        assert(out@ + Seq::<u32>::empty() =~= out@);
    }
    merge_from(a, b, 0, 0, out, Ghost(out@));
}

/// Intersects a short list with a much longer one: for each element of `short`, an exponential
/// search in `long` from the current position on, then a bisection of the bracket.
pub fn gallop_intersect(short: &[u32], long: &[u32], out: &mut Vec<u32>)
    requires
        strictly_increasing(short@),
        strictly_increasing(long@),
    ensures
        final(out)@ == old(out)@ + pair_intersection(short@, long@),
{
    let ghost base = out@;
    let ghost mut r: Seq<u32> = Seq::empty();
    let mut i: usize = 0;
    let mut j: usize = 0;
    proof {
        lemma_nothing_met(short@, long@);
        assert(base + r =~= base);
    }
    while i < short.len() && j < long.len()
        invariant
            strictly_increasing(short@),
            strictly_increasing(long@),
            i <= short@.len(),
            j <= long@.len(),
            is_met(short@, long@, i as int, j as int, r),
            out@ == base + r,
        decreases short@.len() - i,
    {
        let sv: u32 = short[i];
        let left: usize = long.len() - j;
        let mut step: usize = 1;
        while step < left && long[j + step] < sv
            invariant
                j < long@.len(),
                left == long.len() - j,
                1 <= step <= left,
                strictly_increasing(long@),
            decreases left - step,
        {
            step = if step <= left / 2 { step * 2 } else { left };
        }
        let hi: usize = if step < left { j + step + 1 } else { long.len() };
        let bracket: &[u32] = &long[j..hi];
        proof {
            assert(strictly_increasing(bracket@));
            assert(forall|k: int| hi <= k < long@.len() ==> long@[k] > sv);
        }
        match binary_search(bracket, sv) {
            Ok(idx) => {
                proof {
                    lemma_gallop_hit(short@, long@, i as int, j as int, j + idx, r);
                    assert(base + r.push(sv) =~= (base + r).push(sv));
                    r = r.push(sv);
                }
                out.push(sv);
                j += idx + 1;
            },
            Err(idx) => {
                proof {
                    assert forall|k: int| j <= k < j + idx implies long@[k] < sv by {
                        assert(bracket@[k - j] < sv);
                    }
                    assert forall|k: int| j + idx <= k < long@.len() implies long@[k] > sv by {
                        if k < hi {
                            assert(bracket@[k - j] > sv);
                        }
                    }
                    lemma_gallop_miss(short@, long@, i as int, j as int, j + idx, r);
                }
                j += idx;
            },
        }
        i += 1;
    }
    proof {
        lemma_all_met(short@, long@, i as int, j as int, r);
    }
}

/// The sought element stands at `m`: it is met, and nothing that was skipped is.
proof fn lemma_gallop_hit(a: Seq<u32>, b: Seq<u32>, i: int, j: int, m: int, r: Seq<u32>)
    requires
        strictly_increasing(a),
        strictly_increasing(b),
        0 <= i < a.len(),
        0 <= j <= m < b.len(),
        b[m] == a[i],
        is_met(a, b, i, j, r),
    ensures
        is_met(a, b, i + 1, m + 1, r.push(a[i])),
{
    let added = seq![a[i]];
    assert forall|x: u32| #[trigger] added.contains(x) <==> met(a, b, i + 1, m + 1, x) && !met(
        a,
        b,
        i,
        j,
        x,
    ) by {
        if x == a[i] {
            assert(added[0] == x);
            assert(a[i] == x && b[m] == x);
        }
        if met(a, b, i + 1, m + 1, x) && !met(a, b, i, j, x) {
            let (q, p) = choose|q: int, p: int|
                0 <= q < a.len() && 0 <= p < b.len() && (q < i + 1 || p < m + 1) && #[trigger] a[q]
                    == x && #[trigger] b[p] == x;
            assert(a[q] == x && b[p] == x);
            assert(q >= i && p >= j);
        }
    }
    lemma_advance(a, b, i, j, i + 1, m + 1, r, added);
    assert(r + added =~= r.push(a[i]));
}

/// The sought element would stand before `m`, and does not: nothing is met.
proof fn lemma_gallop_miss(a: Seq<u32>, b: Seq<u32>, i: int, j: int, m: int, r: Seq<u32>)
    requires
        strictly_increasing(a),
        strictly_increasing(b),
        0 <= i < a.len(),
        0 <= j <= m <= b.len(),
        forall|k: int| j <= k < m ==> b[k] < a[i],
        forall|k: int| m <= k < b.len() ==> b[k] > a[i],
        is_met(a, b, i, j, r),
    ensures
        is_met(a, b, i + 1, m, r),
{
    let added = Seq::<u32>::empty();
    assert forall|x: u32| #[trigger] added.contains(x) <==> met(a, b, i + 1, m, x) && !met(
        a,
        b,
        i,
        j,
        x,
    ) by {
        if met(a, b, i + 1, m, x) && !met(a, b, i, j, x) {
            let (q, p) = choose|q: int, p: int|
                0 <= q < a.len() && 0 <= p < b.len() && (q < i + 1 || p < m) && #[trigger] a[q] == x
                    && #[trigger] b[p] == x;
            assert(a[q] == x && b[p] == x);
            assert(q >= i && p >= j);
        }
    }
    lemma_advance(a, b, i, j, i + 1, m, r, added);
    assert(r + added =~= r);
}

/// Bit `lane` of a match code.
pub open spec fn lane_set(code: u8, lane: u8) -> bool {
    code & (1u8 << lane) != 0
}

/// The lanes below `n` whose bit is set in `code`, in ascending order.
pub open spec fn set_lanes(code: u8, n: nat) -> Seq<u8>
    decreases n,
{
    if n == 0 {
        Seq::empty()
    } else {
        let below = set_lanes(code, (n - 1) as nat);
        if lane_set(code, (n - 1) as u8) {
            below.push((n - 1) as u8)
        } else {
            below
        }
    }
}

/// The byte permutation that gathers four-byte lanes to the front: the four byte indices of each
/// of the lanes, then `0xFF`.
pub open spec fn gathers(entry: Seq<u8>, lanes: Seq<u8>) -> bool {
    &&& entry.len() == 16
    &&& forall|k: int|
        0 <= k < 16 ==> #[trigger] entry[k] == (if k < 4 * lanes.len() {
            4 * lanes[k / 4] + k % 4
        } else {
            0xFF
        })
}

/// The lanes of a match code are those whose bit is set, each once and in ascending order.
pub proof fn lemma_set_lanes(code: u8, n: nat)
    requires
        n <= 4,
    ensures
        set_lanes(code, n).len() <= n,
        forall|k: int| 0 <= k < set_lanes(code, n).len() ==> set_lanes(code, n)[k] < n,
        forall|k: int, l: int|
            0 <= k < l < set_lanes(code, n).len() ==> set_lanes(code, n)[k] < set_lanes(code, n)[l],
        forall|lane: u8|
            #[trigger] set_lanes(code, n).contains(lane) <==> lane < n && lane_set(code, lane),
    decreases n,
{
    if n > 0 {
        lemma_set_lanes(code, (n - 1) as nat);
        let below = set_lanes(code, (n - 1) as nat);
        let s = set_lanes(code, n);
        assert forall|lane: u8| #[trigger] s.contains(lane) <==> lane < n && lane_set(
            code,
            lane,
        ) by {
            if s.contains(lane) {
                let k = choose|k: int| 0 <= k < s.len() && s[k] == lane;
                if k < below.len() {
                    assert(below[k] == lane);
                    assert(below.contains(lane));
                }
            }
            if lane < n && lane_set(code, lane) {
                if lane == n - 1 {
                    assert(s[below.len() as int] == lane);
                } else {
                    assert(below.contains(lane));
                    let k = choose|k: int| 0 <= k < below.len() && below[k] == lane;
                    assert(s[k] == lane);
                }
            }
        }
    }
}

/// A permutation that gathers lanes moves the four bytes of lane number `k` to the `k`-th place, in
/// order, and marks all bytes behind the last lane as unused.
pub proof fn lemma_gathers(entry: Seq<u8>, lanes: Seq<u8>, k: int, byte: int)
    requires
        gathers(entry, lanes),
        0 <= k < 4,
        0 <= byte < 4,
    ensures
        k < lanes.len() ==> entry[4 * k + byte] == 4 * lanes[k] + byte,
        k >= lanes.len() ==> entry[4 * k + byte] == 0xFF,
{
    assert((4 * k + byte) / 4 == k && (4 * k + byte) % 4 == byte);
}

/// The permutation for one match code.
fn shuffle_entry(code: u8) -> (entry: [u8; 16])
    ensures
        gathers(entry@, set_lanes(code, 4)),
{
    let mut entry: [u8; 16] = [0xFFu8;16];
    let mut out_pos: usize = 0;
    let mut lane: u8 = 0;
    while lane < 4
        invariant
            lane <= 4,
            out_pos == 4 * set_lanes(code, lane as nat).len(),
            set_lanes(code, lane as nat).len() <= lane,
            gathers(entry@, set_lanes(code, lane as nat)),
        decreases 4 - lane,
    {
        if code & (1u8 << lane) != 0 {
            let base: u8 = lane * 4;
            entry[out_pos] = base;
            entry[out_pos + 1] = base + 1;
            entry[out_pos + 2] = base + 2;
            entry[out_pos + 3] = base + 3;
            out_pos += 4;
        }
        lane += 1;
    }
    entry
}

/// The table of permutations, indexed by match code.
pub fn build_shuffle_lut() -> (lut: [[u8; 16]; 16])
    ensures
        forall|code: u8|
            0 <= code < 16 ==> gathers((#[trigger] lut@[code as int])@, set_lanes(code, 4)),
{
    let mut lut: [[u8; 16]; 16] = [[0xFFu8;16];16];
    let mut code: u8 = 0;
    while code < 16
        invariant
            code <= 16,
            forall|c: u8| 0 <= c < code ==> gathers((#[trigger] lut@[c as int])@, set_lanes(c, 4)),
        decreases 16 - code,
    {
        let entry: [u8; 16] = shuffle_entry(code);
        lut[code as usize] = entry;
        code += 1;
    }
    lut
}

/// The table of permutations, built once and used by all calls.
pub struct ShuffleLut {
    entries: [[u8; 16]; 16],
}

impl ShuffleLut {
    #[verifier::type_invariant]
    spec fn wf(self) -> bool {
        forall|code: u8|
            0 <= code < 16 ==> gathers((#[trigger] self.entries@[code as int])@, set_lanes(code, 4))
    }

    /// The permutation for a match code.
    pub closed spec fn entry_of(&self, code: u8) -> Seq<u8> {
        self.entries@[code as int]@
    }

    pub fn new() -> (r: Self)
        ensures
            forall|code: u8| code < 16 ==> gathers(#[trigger] r.entry_of(code), set_lanes(code, 4)),
    {
        ShuffleLut { entries: build_shuffle_lut() }
    }

    /// The permutation for a match code.
    pub fn entry(&self, code: u8) -> (r: [u8; 16])
        requires
            code < 16,
        ensures
            r@ == self.entry_of(code),
            gathers(r@, set_lanes(code, 4)),
    {
        proof {
            use_type_invariant(self);
            assert(gathers(self.entries@[code as int]@, set_lanes(code, 4)));
        }
        self.entries[code as usize]
    }
}

/// Some element of `b[j..j + 4]` equals `x`.
spec fn in_window(b: Seq<u32>, j: int, x: u32) -> bool {
    b[j] == x || b[j + 1] == x || b[j + 2] == x || b[j + 3] == x
}

/// Compares `a[i..i + 4]` with `b[j..j + 4]`, all pairs: bit `lane` of the code tells whether
/// `a[i + lane]` stands in the window of `b`.
fn match_code(a: &[u32], b: &[u32], i: usize, j: usize) -> (code: u8)
    requires
        i + 4 <= a@.len(),
        j + 4 <= b@.len(),
    ensures
        code < 16,
        forall|lane: u8|
            lane < 4 ==> (#[trigger] lane_set(code, lane) <==> in_window(
                b@,
                j as int,
                a@[i + lane],
            )),
{
    let (b0, b1, b2, b3) = (b[j], b[j + 1], b[j + 2], b[j + 3]);
    let (a0, a1, a2, a3) = (a[i], a[i + 1], a[i + 2], a[i + 3]);
    let m0: u8 = (a0 == b0 || a0 == b1 || a0 == b2 || a0 == b3) as u8;
    let m1: u8 = (a1 == b0 || a1 == b1 || a1 == b2 || a1 == b3) as u8;
    let m2: u8 = (a2 == b0 || a2 == b1 || a2 == b2 || a2 == b3) as u8;
    let m3: u8 = (a3 == b0 || a3 == b1 || a3 == b2 || a3 == b3) as u8;
    let code: u8 = m0 + 2 * m1 + 4 * m2 + 8 * m3;
    proof {
        assert(code < 16 && (code & (1u8 << 0u8) != 0 <==> m0 == 1) && (code & (1u8 << 1u8) != 0
            <==> m1 == 1) && (code & (1u8 << 2u8) != 0 <==> m2 == 1) && (code & (1u8 << 3u8) != 0
            <==> m3 == 1)) by (bit_vector)
            requires
                m0 <= 1,
                m1 <= 1,
                m2 <= 1,
                m3 <= 1,
                code == m0 + 2 * m1 + 4 * m2 + 8 * m3,
        ;
        assert forall|lane: u8| lane < 4 implies (#[trigger] lane_set(code, lane) <==> in_window(
            b@,
            j as int,
            a@[i + lane],
        )) by {
            assert(lane == 0 || lane == 1 || lane == 2 || lane == 3);
        }
    }
    code
}

/// What a block comparison finds is what advancing past the block with the smaller maximum meets.
proof fn lemma_block_step(
    a: Seq<u32>,
    b: Seq<u32>,
    i: int,
    j: int,
    code: u8,
    r: Seq<u32>,
    found: Seq<u32>,
)
    requires
        strictly_increasing(a),
        strictly_increasing(b),
        0 <= i,
        i + 4 <= a.len(),
        0 <= j,
        j + 4 <= b.len(),
        forall|lane: u8|
            lane < 4 ==> (#[trigger] lane_set(code, lane) <==> in_window(b, j, a[i + lane])),
        is_met(a, b, i, j, r),
        found.len() == set_lanes(code, 4).len(),
        forall|k: int| 0 <= k < found.len() ==> found[k] == a[i + set_lanes(code, 4)[k]],
    ensures
        is_met(
            a,
            b,
            if a[i + 3] <= b[j + 3] { i + 4 } else { i },
            if a[i + 3] >= b[j + 3] { j + 4 } else { j },
            r + found,
        ),
{
    let i2 = if a[i + 3] <= b[j + 3] { i + 4 } else { i };
    let j2 = if a[i + 3] >= b[j + 3] { j + 4 } else { j };
    let lanes = set_lanes(code, 4);
    lemma_set_lanes(code, 4);
    assert forall|x: u32| #[trigger] found.contains(x) <==> met(a, b, i2, j2, x) && !met(
        a,
        b,
        i,
        j,
        x,
    ) by {
        if found.contains(x) {
            let k = choose|k: int| 0 <= k < found.len() && found[k] == x;
            assert(lanes.contains(lanes[k]));
            assert(in_window(b, j, a[i + lanes[k]]));
            let p = if b[j] == x {
                j
            } else if b[j + 1] == x {
                j + 1
            } else if b[j + 2] == x {
                j + 2
            } else {
                j + 3
            };
            assert(a[i + lanes[k]] == x && b[p] == x);
        }
        if met(a, b, i2, j2, x) && !met(a, b, i, j, x) {
            let (q, p) = choose|q: int, p: int|
                0 <= q < a.len() && 0 <= p < b.len() && (q < i2 || p < j2) && #[trigger] a[q] == x
                    && #[trigger] b[p] == x;
            assert(a[q] == x && b[p] == x);
            assert(q >= i && p >= j);
            assert(q < i + 4 && p < j + 4) by {
                assert(a[i + 3] == a[i + 3] && b[j + 3] == b[j + 3]);
            }
            let lane = (q - i) as u8;
            assert(p == j || p == j + 1 || p == j + 2 || p == j + 3);
            assert(in_window(b, j, a[i + lane]));
            assert(lane_set(code, lane));
            assert(lanes.contains(lane));
            let k = choose|k: int| 0 <= k < lanes.len() && lanes[k] == lane;
            assert(found[k] == x);
        }
    }
    lemma_advance(a, b, i, j, i2, j2, r, found);
}

/// Intersects two balanced lists four elements of each at a time: all pairs of the two blocks are
/// compared, the matching lanes are gathered through the table of permutations, and the block with
/// the smaller maximum is passed (both, where the maxima are equal). A two-finger merge does what is
/// left when one side has fewer than four elements to go.
pub fn block_intersect(a: &[u32], b: &[u32], lut: &ShuffleLut, out: &mut Vec<u32>)
    requires
        strictly_increasing(a@),
        strictly_increasing(b@),
    ensures
        final(out)@ == old(out)@ + pair_intersection(a@, b@),
{
    let ghost base = out@;
    let ghost mut r: Seq<u32> = Seq::empty();
    let mut i: usize = 0;
    let mut j: usize = 0;
    proof {
        lemma_nothing_met(a@, b@);
        assert(base + r =~= base);
    }
    while a.len() - i >= 4 && b.len() - j >= 4
        invariant
            strictly_increasing(a@),
            strictly_increasing(b@),
            i <= a@.len(),
            j <= b@.len(),
            is_met(a@, b@, i as int, j as int, r),
            out@ == base + r,
        decreases a@.len() - i + b@.len() - j,
    {
        let a_max: u32 = a[i + 3];
        let b_max: u32 = b[j + 3];
        let code: u8 = match_code(a, b, i, j);
        let entry: [u8; 16] = lut.entry(code);
        let ghost lanes = set_lanes(code, 4);
        let ghost mut found: Seq<u32> = Seq::empty();
        proof {
            lemma_set_lanes(code, 4);
            assert(base + (r + found) =~= base + r);
        }
        let mut k: usize = 0;
        while k < 4 && entry[4 * k] != 0xFF
            invariant
                i + 4 <= a.len(),
                gathers(entry@, lanes),
                lanes.len() <= 4,
                forall|k: int| 0 <= k < lanes.len() ==> lanes[k] < 4,
                k <= lanes.len(),
                found.len() == k,
                forall|l: int| 0 <= l < k ==> found[l] == a@[i + lanes[l]],
                out@ == base + (r + found),
            decreases 4 - k,
        {
            assert(entry@[4 * k as int] == 4 * lanes[4 * k as int / 4] + (4 * k as int) % 4);
            let lane: usize = (entry[4 * k] / 4) as usize;
            out.push(a[i + lane]);
            proof {
                assert(base + (r + found.push(a@[i + lane])) =~= (base + (r + found)).push(
                    a@[i + lane],
                ));
                found = found.push(a@[i + lane]);
            }
            k += 1;
        }
        proof {
            assert(k == lanes.len());
            lemma_block_step(a@, b@, i as int, j as int, code, r, found);
            r = r + found;
        }
        i += (a_max <= b_max) as usize * 4;
        j += (a_max >= b_max) as usize * 4;
    }
    merge_from(a, b, i, j, out, Ghost(base));
}

/// When one list is more than this many times longer than the other, the kernel gallops on the
/// longer list in place of merging.
pub const GALLOP_RATIO: usize = 16;

/// The least length of both lists for which blocks are compared in place of single elements.
pub const BLOCK_MIN_LEN: usize = 16;

/// `longer > shorter * GALLOP_RATIO`, also where the product exceeds the machine's range.
fn lopsided(shorter: usize, longer: usize) -> (r: bool)
    ensures
        r <==> longer > shorter * GALLOP_RATIO,
{
    shorter <= usize::MAX / GALLOP_RATIO && longer > shorter * GALLOP_RATIO
}

/// Appends what the two lists have in common to `out`, by the algorithm that suits their lengths.
pub fn pairwise_intersect(a: &[u32], b: &[u32], lut: &ShuffleLut, out: &mut Vec<u32>)
    requires
        strictly_increasing(a@),
        strictly_increasing(b@),
    ensures
        final(out)@ == old(out)@ + pair_intersection(a@, b@),
{
    if lopsided(a.len(), b.len()) {
        gallop_intersect(a, b, out);
    } else if lopsided(b.len(), a.len()) {
        proof {
            lemma_pair_symmetric(a@, b@);
        }
        gallop_intersect(b, a, out);
    } else if a.len() >= BLOCK_MIN_LEN && b.len() >= BLOCK_MIN_LEN {
        block_intersect(a, b, lut, out);
    } else {
        scalar_merge_intersect(a, b, out);
    }
}

/// Reusable kernel context: the scratch buffer grows once and is reused across calls, and so is the
/// table of permutations. The calls are kept in a ghost record.
pub struct PostingIntersect {
    scratch: Vec<u32>,
    lut: ShuffleLut,
    done: Ghost<Seq<Seq<Seq<u32>>>>,
}

impl Worker<Seq<Seq<u32>>> for PostingIntersect {
    /// The lists of each call.
    closed spec fn calls(&self) -> Seq<Seq<Seq<u32>>> {
        self.done@
    }
}

impl View for PostingIntersect {
    type V = Seq<u32>;

    /// What the scratch buffer holds; no result depends on it.
    closed spec fn view(&self) -> Seq<u32> {
        self.scratch@
    }
}

impl Default for PostingIntersect {
    fn default() -> (r: Self)
        ensures
            r@.len() == 0,
            r.calls().len() == 0,
    {
        Self::new()
    }
}

impl PostingIntersect {
    pub fn new() -> (r: Self)
        ensures
            r@.len() == 0,
            r.calls().len() == 0,
    {
        PostingIntersect {
            scratch: Vec::new(),
            lut: ShuffleLut::new(),
            done: Ghost(Seq::empty()),
        }
    }

    /// Replaces the contents of `out` by the ids that occur in every list, ascending and without
    /// duplicates. No lists give no ids; a single list is copied.
    pub fn intersect(&mut self, lists: &[&[u32]], out: &mut Vec<u32>)
        requires
            sorted_unique_lists(contents(lists@)),
        ensures
            final(out)@ == intersection(contents(lists@)),
            final(self).calls() == old(self).calls().push(contents(lists@)),
    {
        let ghost all = contents(lists@);
        self.done = Ghost(self.done@.push(all));
        out.clear();
        if lists.len() == 0 {
            return;
        }
        if lists.len() == 1 {
            out.extend_from_slice(lists[0]);
            proof {
                lemma_single(all);
                assert(out@ =~= all[0]);
            }
            return;
        }
        if any_empty(lists) {
            proof {
                lemma_empty_list(all);
            }
            return;
        }
        proof {
            lemma_first_two(all);
        }
        pairwise_intersect(lists[0], lists[1], &self.lut, out);
        assert(out@ =~= pair_intersection(all[0], all[1]));
        let mut k: usize = 2;
        while k < lists.len()
            invariant
                all == contents(lists@),
                sorted_unique_lists(all),
                2 <= k <= lists@.len(),
                out@ == intersection(all.take(k as int)),
                self.calls() == old(self).calls().push(all),
            decreases lists@.len() - k,
        {
            if out.len() == 0 {
                proof {
                    lemma_stays_empty(all, k as int);
                }
                return;
            }
            proof {
                lemma_intersection(all.take(k as int));
                lemma_next_list(all, k as int);
            }
            self.scratch.clear();
            pairwise_intersect(out.as_slice(), lists[k], &self.lut, &mut self.scratch);
            assert(self.scratch@ =~= pair_intersection(
                intersection(all.take(k as int)),
                all[k as int],
            ));
            core::mem::swap(out, &mut self.scratch);
            k += 1;
        }
        assert(all.take(k as int) =~= all);
    }
}

} // verus!
