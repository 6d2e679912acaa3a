//! Squared Euclidean distances between plain vectors.
use vstd::prelude::*;

use crate::pq::distance::lemma_total_same;
use crate::pq::matrix::{lemma_cell, transpose_matrix};
use crate::pq::sums::{
    later, lemma_total_exchange, lemma_total_rows, lemma_total_split, row_sums,
};
use crate::pq::{Arithmetic, ArithmeticModel};

verus! {

/// How many partial sums a distance is accumulated in.
pub const LANES: usize = 16;

/// The summand of a distance for element `i` of two vectors.
pub open spec fn term_at<T>(
    m: ArithmeticModel<T>,
    x: Seq<T>,
    y: Seq<T>,
) -> spec_fn(int) -> T {
    |i: int| m.term(x[i], y[i])
}

/// The summands of a lane: every `lanes`-th, from element `lane` on.
pub open spec fn lane_term<T>(
    m: ArithmeticModel<T>,
    x: Seq<T>,
    y: Seq<T>,
    lanes: int,
    lane: int,
) -> spec_fn(int) -> T {
    |c: int| m.term(x[c * lanes + lane], y[c * lanes + lane])
}

/// The partial sums of the lanes over the first `chunks` chunks.
pub open spec fn lane_sums<T>(
    m: ArithmeticModel<T>,
    x: Seq<T>,
    y: Seq<T>,
    lanes: int,
    chunks: nat,
) -> Seq<T> {
    Seq::new(lanes as nat, |lane: int| m.total(chunks, lane_term(m, x, y, lanes, lane)))
}

/// The elements of a sequence, as summands.
pub open spec fn element<T>(s: Seq<T>) -> spec_fn(int) -> T {
    |i: int| s[i]
}

/// The smaller of two lengths.
pub open spec fn shorter(a: nat, b: nat) -> nat {
    if a <= b {
        a
    } else {
        b
    }
}

/// What stands behind the last full chunk.
pub open spec fn remainder<T>(x: Seq<T>, lanes: int) -> Seq<T> {
    x.skip(x.len() - x.len() as int % lanes)
}

/// The squared distance of two vectors: the summands behind the last full chunk, and to them the
/// sum of the partial sums of the lanes. Of vectors of different lengths, as many chunks and as many
/// elements behind the last chunk are paired as both have.
pub open spec fn l2<T>(
    m: ArithmeticModel<T>,
    x: Seq<T>,
    y: Seq<T>,
    lanes: int,
) -> T {
    let xr = remainder(x, lanes);
    let yr = remainder(y, lanes);
    let chunks = shorter(x.len() / lanes as nat, y.len() / lanes as nat);
    (m.plus)(
        m.total(shorter(xr.len(), yr.len()), term_at(m, xr, yr)),
        m.total(lanes as nat, element(lane_sums(m, x, y, lanes, chunks))),
    )
}

/// The squared distance of two vectors, accumulated in `N` lanes.
pub fn l2_scalar_f32<const N: usize, T: Copy, P: Fn(T, T) -> T, D: Fn(T, T) -> T>(
    from: &[T],
    to: &[T],
    arith: &Arithmetic<T, P, D>,
) -> (r: T)
    requires
        N > 0,
        arith.is_defined(),
    ensures
        forall|m: ArithmeticModel<T>| #[trigger]
            arith.computes(m) ==> r == l2(m, from@, to@, N as int),
        from@.len() == to@.len() ==> forall|m: ArithmeticModel<T>| #[trigger]
            arith.computes(m) && m.is_exact() ==> r == m.total(
                from@.len(),
                |i: int| m.term(from@[i], to@[i]),
            ),
{
    proof {
        vstd::arithmetic::div_mod::lemma_mod_decreases(from@.len(), N as nat);
        vstd::arithmetic::div_mod::lemma_mod_decreases(to@.len(), N as nat);
    }
    let chunks: usize = if from.len() / N <= to.len() / N { from.len() / N } else { to.len() / N };
    let xs: usize = from.len() - from.len() % N;
    let ys: usize = to.len() - to.len() % N;
    let rest: usize = if from.len() % N <= to.len() % N { from.len() % N } else { to.len() % N };
    let ghost xr = remainder(from@, N as int);
    let ghost yr = remainder(to@, N as int);
    let mut s: T = arith.zero;
    let mut k: usize = 0;
    while k < rest
        invariant
            arith.is_defined(),
            k <= rest,
            xs + rest <= from.len(),
            ys + rest <= to.len(),
            xr == from@.skip(xs as int),
            yr == to@.skip(ys as int),
            forall|m: ArithmeticModel<T>| #[trigger]
                arith.computes(m) ==> s == m.total(k as nat, term_at(m, xr, yr)),
        decreases rest - k,
    {
        s = arith.add_to(s, arith.term_of(from[xs + k], to[ys + k]));
        k += 1;
    }
    let sums: Vec<T> = sum_lanes::<N, T, P, D>(from, to, chunks, arith);
    let t: T = sum_all(&sums, arith);
    proof {
        if from@.len() == to@.len() {
            assert forall|m: ArithmeticModel<T>| #[trigger]
                arith.computes(m) && m.is_exact() implies l2(m, from@, to@, N as int) == m.total(
                from@.len(),
                |i: int| m.term(from@[i], to@[i]),
            ) by {
                lemma_l2(m, from@, to@, N as int);
            }
        }
    }
    arith.add_to(s, t)
}

/// The partial sums of the lanes over the first `chunks` chunks.
fn sum_lanes<const N: usize, T: Copy, P: Fn(T, T) -> T, D: Fn(T, T) -> T>(
    from: &[T],
    to: &[T],
    chunks: usize,
    arith: &Arithmetic<T, P, D>,
) -> (sums: Vec<T>)
    requires
        N > 0,
        chunks <= from@.len() / N as nat,
        chunks <= to@.len() / N as nat,
        arith.is_defined(),
    ensures
        sums@.len() == N,
        forall|m: ArithmeticModel<T>| #[trigger]
            arith.computes(m) ==> sums@ == lane_sums(m, from@, to@, N as int, chunks as nat),
{
    let mut sums: Vec<T> = Vec::with_capacity(N);
    while sums.len() < N
        invariant
            sums@.len() <= N,
            forall|i: int| 0 <= i < sums@.len() ==> #[trigger] sums@[i] == arith.zero,
        decreases N - sums@.len(),
    {
        sums.push(arith.zero);
    }
    proof {
        assert forall|m: ArithmeticModel<T>| #[trigger] arith.computes(m) implies sums@
            == lane_sums(m, from@, to@, N as int, 0) by {
            assert(sums@ =~= lane_sums(m, from@, to@, N as int, 0));
        }
    }
    let mut c: usize = 0;
    while c < chunks
        invariant
            arith.is_defined(),
            N > 0,
            c <= chunks,
            chunks <= from.len() / N,
            chunks <= to.len() / N,
            sums@.len() == N,
            forall|m: ArithmeticModel<T>| #[trigger]
                arith.computes(m) ==> sums@ == lane_sums(m, from@, to@, N as int, c as nat),
        decreases chunks - c,
    {
        proof {
            lemma_chunk(from.len() as int, N as int, c as int);
            lemma_chunk(to.len() as int, N as int, c as int);
        }
        let base: usize = c * N;
        let ghost before = sums@;
        let mut i: usize = 0;
        while i < N
            invariant
                arith.is_defined(),
                i <= N,
                base == c * N,
                base + N <= from.len(),
                base + N <= to.len(),
                sums@.len() == N,
                forall|m: ArithmeticModel<T>| #[trigger]
                    arith.computes(m) ==> before == lane_sums(
                        m,
                        from@,
                        to@,
                        N as int,
                        c as nat,
                    ),
                forall|l: int| i <= l < N ==> #[trigger] sums@[l] == before[l],
                forall|m: ArithmeticModel<T>, l: int|
                    #![trigger arith.computes(m), sums@[l]]
                    arith.computes(m) && 0 <= l < i ==> sums@[l] == lane_sums(
                        m,
                        from@,
                        to@,
                        N as int,
                        (c + 1) as nat,
                    )[l],
            decreases N - i,
        {
            let term: T = arith.term_of(from[base + i], to[base + i]);
            let sum: T = arith.add_to(sums[i], term);
            sums[i] = sum;
            i += 1;
        }
        c += 1;
        proof {
            assert forall|m: ArithmeticModel<T>| #[trigger] arith.computes(m) implies sums@
                == lane_sums(m, from@, to@, N as int, c as nat) by {
                assert(sums@ =~= lane_sums(m, from@, to@, N as int, c as nat));
            }
        }
    }
    sums
}

/// The sum of all values, one after the other.
fn sum_all<T: Copy, P: Fn(T, T) -> T, D: Fn(T, T) -> T>(
    values: &Vec<T>,
    arith: &Arithmetic<T, P, D>,
) -> (t: T)
    requires
        arith.is_defined(),
    ensures
        forall|m: ArithmeticModel<T>| #[trigger]
            arith.computes(m) ==> t == m.total(values@.len(), element(values@)),
{
    let mut t: T = arith.zero;
    let mut k: usize = 0;
    while k < values.len()
        invariant
            arith.is_defined(),
            k <= values@.len(),
            forall|m: ArithmeticModel<T>| #[trigger]
                arith.computes(m) ==> t == m.total(k as nat, element(values@)),
        decreases values@.len() - k,
    {
        t = arith.add_to(t, values[k]);
        k += 1;
    }
    t
}

proof fn lemma_chunk(len: int, n: int, c: int)
    requires
        n > 0,
        0 <= c < len / n,
    ensures
        c * n >= 0,
        c * n + n <= len,
{
    assert(c * n + n <= (len / n) * n) by (nonlinear_arith)
        requires
            n > 0,
            0 <= c < len / n,
    ;
    assert(c * n >= 0) by (nonlinear_arith)
        requires
            n > 0,
            0 <= c,
    ;
    vstd::arithmetic::div_mod::lemma_fundamental_div_mod(len, n);
    assert((len / n) * n == n * (len / n)) by (nonlinear_arith);
    vstd::arithmetic::div_mod::lemma_mod_bound(len, n);
}

/// The squared distance of two vectors.
pub fn l2_f32<T: Copy, P: Fn(T, T) -> T, D: Fn(T, T) -> T>(
    from: &[T],
    to: &[T],
    arith: &Arithmetic<T, P, D>,
) -> (r: T)
    requires
        arith.is_defined(),
    ensures
        forall|m: ArithmeticModel<T>| #[trigger]
            arith.computes(m) ==> r == l2(m, from@, to@, LANES as int),
        forall|m: ArithmeticModel<T>| #[trigger]
            arith.computes(m) ==> r == l2(m, from@, to@, 16),
        from@.len() == to@.len() ==> forall|m: ArithmeticModel<T>| #[trigger]
            arith.computes(m) && m.is_exact() ==> r == m.total(
                from@.len(),
                |i: int| m.term(from@[i], to@[i]),
            ),
{
    l2_scalar_f32::<16, T, P, D>(from, to, arith)
}

/// Where order and grouping of the summands make no difference, the distance of two vectors is the
/// sum of the squared differences of the elements that are paired: element by element as far as both
/// have full chunks, and behind their last full chunks as far as both have elements.
pub proof fn lemma_l2_pairs<T>(
    m: ArithmeticModel<T>,
    x: Seq<T>,
    y: Seq<T>,
    lanes: int,
    full: nat,
    rest: nat,
)
    requires
        m.is_exact(),
        lanes > 0,
        full as int % lanes == 0,
        full <= x.len() && full <= y.len(),
        x.len() < full + lanes || y.len() < full + lanes,
        rest <= x.len() as int % lanes && rest <= y.len() as int % lanes,
        rest == x.len() as int % lanes || rest == y.len() as int % lanes,
    ensures
        l2(m, x, y, lanes) == (m.plus)(
            m.total(full, |i: int| m.term(x[i], y[i])),
            m.total(
                rest,
                |i: int|
                    m.term(
                        x[x.len() - x.len() as int % lanes + i],
                        y[y.len() - y.len() as int % lanes + i],
                    ),
            ),
        ),
{
    let chunks = shorter(x.len() / lanes as nat, y.len() / lanes as nat);
    let xr = remainder(x, lanes);
    let yr = remainder(y, lanes);
    vstd::arithmetic::div_mod::lemma_mod_bound(x.len() as int, lanes);
    vstd::arithmetic::div_mod::lemma_mod_bound(y.len() as int, lanes);
    vstd::arithmetic::div_mod::lemma_mod_decreases(x.len(), lanes as nat);
    vstd::arithmetic::div_mod::lemma_mod_decreases(y.len(), lanes as nat);
    vstd::arithmetic::div_mod::lemma_fundamental_div_mod(full as int, lanes);
    assert(full == lanes * (full as int / lanes));
    lemma_full_chunks(x.len() as int, y.len() as int, lanes, full as int / lanes);
    assert(full as int / lanes == chunks);
    let f = |i: int| m.term(x[i], y[i]);
    let behind = |i: int|
        m.term(
            x[x.len() - x.len() as int % lanes + i],
            y[y.len() - y.len() as int % lanes + i],
        );
    assert forall|i: int| 0 <= i < rest implies #[trigger] behind(i) == term_at(m, xr, yr)(i) by {
        assert(xr[i] == x[x.len() - x.len() as int % lanes + i]);
        assert(yr[i] == y[y.len() - y.len() as int % lanes + i]);
    }
    lemma_total_same(m, rest, behind, term_at(m, xr, yr));
    lemma_lanes(m, x, y, lanes, chunks);
    assert(lanes * chunks == chunks * lanes) by (nonlinear_arith);
    let head = m.total(full, f);
    let tail = m.total(rest, behind);
    assert(l2(m, x, y, lanes) == (m.plus)(tail, head));
    assert((m.plus)(tail, head) == (m.plus)(head, tail));
}

/// As many full chunks as both lengths have.
proof fn lemma_full_chunks(a: int, b: int, lanes: int, k: int)
    requires
        lanes > 0,
        lanes * k <= a && lanes * k <= b,
        a < lanes * k + lanes || b < lanes * k + lanes,
    ensures
        k <= a / lanes && k <= b / lanes,
        k == a / lanes || k == b / lanes,
{
    assert(k <= a / lanes && k <= b / lanes) by (nonlinear_arith)
        requires
            lanes > 0,
            lanes * k <= a && lanes * k <= b,
    ;
    assert(k == a / lanes || k == b / lanes) by (nonlinear_arith)
        requires
            lanes > 0,
            lanes * k <= a && lanes * k <= b,
            a < lanes * k + lanes || b < lanes * k + lanes,
    ;
}

/// The partial sums of the lanes add up to the sum over all full chunks.
proof fn lemma_lanes<T>(
    m: ArithmeticModel<T>,
    x: Seq<T>,
    y: Seq<T>,
    lanes: int,
    chunks: nat,
)
    requires
        m.is_exact(),
        lanes > 0,
    ensures
        m.total(lanes as nat, element(lane_sums(m, x, y, lanes, chunks))) == m.total(
            chunks * lanes as nat,
            |i: int| m.term(x[i], y[i]),
        ),
{
    let f = |i: int| m.term(x[i], y[i]);
    let by_lane = |l: int, c: int| f(c * lanes + l);
    let by_chunk = |c: int, l: int| f(c * lanes + l);
    let lane_totals = row_sums(m, chunks, by_lane);
    let sums = element(lane_sums(m, x, y, lanes, chunks));
    assert forall|l: int| 0 <= l < lanes implies #[trigger] sums(l) == lane_totals(l) by {
        let a = lane_term(m, x, y, lanes, l);
        let b = |c: int| by_lane(l, c);
        assert forall|c: int| 0 <= c < chunks implies #[trigger] a(c) == b(c) by {}
        lemma_total_same(m, chunks, a, b);
    }
    lemma_total_same(m, lanes as nat, sums, lane_totals);
    lemma_total_exchange(m, lanes as nat, chunks, by_lane);
    let chunk_totals = row_sums(m, lanes as nat, by_chunk);
    let columns = crate::pq::sums::column_sums(m, lanes as nat, by_lane);
    assert forall|c: int| 0 <= c < chunks implies #[trigger] columns(c) == chunk_totals(c) by {
        let a = |l: int| by_lane(l, c);
        let b = |l: int| by_chunk(c, l);
        assert forall|l: int| 0 <= l < lanes implies #[trigger] a(l) == b(l) by {}
        lemma_total_same(m, lanes as nat, a, b);
    }
    lemma_total_same(m, chunks, columns, chunk_totals);
    lemma_total_rows(m, chunks, lanes as nat, f);
    let rows = row_sums(m, lanes as nat, |r: int, c: int| f(r * (lanes as nat) + c));
    assert forall|c: int| 0 <= c < chunks implies #[trigger] rows(c) == chunk_totals(c) by {
        let a = |l: int| f(c * (lanes as nat) + l);
        let b = |l: int| by_chunk(c, l);
        assert forall|l: int| 0 <= l < lanes implies #[trigger] a(l) == b(l) by {}
        lemma_total_same(m, lanes as nat, a, b);
    }
    lemma_total_same(m, chunks, rows, chunk_totals);
}

/// Where order and grouping of the summands make no difference, the distance of two vectors of the
/// same length is the sum of the squared differences of their elements, each taken once, whatever
/// the number of lanes.
pub proof fn lemma_l2<T>(m: ArithmeticModel<T>, x: Seq<T>, y: Seq<T>, lanes: int)
    requires
        m.is_exact(),
        lanes > 0,
        x.len() == y.len(),
    ensures
        l2(m, x, y, lanes) == m.total(x.len(), |i: int| m.term(x[i], y[i])),
{
    let n = x.len() as int;
    let f = |i: int| m.term(x[i], y[i]);
    let full = (lanes * (n / lanes)) as nat;
    let rest = (n % lanes) as nat;
    vstd::arithmetic::div_mod::lemma_fundamental_div_mod(n, lanes);
    vstd::arithmetic::div_mod::lemma_mod_bound(n, lanes);
    let behind = |i: int| m.term(x[x.len() - n % lanes + i], y[y.len() - n % lanes + i]);
    vstd::arithmetic::div_mod::lemma_mod_multiples_basic(n / lanes, lanes);
    assert((n / lanes) * lanes == lanes * (n / lanes)) by (nonlinear_arith);
    lemma_l2_pairs(m, x, y, lanes, full, rest);
    let tail = later(f, full as int);
    assert forall|i: int| 0 <= i < rest implies #[trigger] behind(i) == tail(i) by {}
    lemma_total_same(m, rest, behind, tail);
    lemma_total_split(m, full, rest, f);
}

/// In which order a distance is summed, in any arithmetic: the elements behind the last full chunk one
/// after the other; each lane by itself, chunk after chunk; the lanes one after the other; and at last
/// the sum of the lanes is added to that of the elements behind.
pub proof fn lemma_l2_order<T>(m: ArithmeticModel<T>, x: Seq<T>, y: Seq<T>, lanes: int)
    requires
        lanes > 0,
        x.len() == y.len(),
    ensures
        l2(m, x, y, lanes) == (m.plus)(
            m.total(
                (x.len() as int % lanes) as nat,
                |i: int|
                    m.term(
                        x[x.len() - x.len() as int % lanes + i],
                        y[x.len() - x.len() as int % lanes + i],
                    ),
            ),
            m.total(
                lanes as nat,
                |lane: int|
                    m.total(
                        (x.len() as int / lanes) as nat,
                        |c: int| m.term(x[c * lanes + lane], y[c * lanes + lane]),
                    ),
            ),
        ),
{
    let n = x.len() as int;
    let rest = (n % lanes) as nat;
    let chunks = (n / lanes) as nat;
    let xr = remainder(x, lanes);
    let yr = remainder(y, lanes);
    vstd::arithmetic::div_mod::lemma_mod_bound(n, lanes);
    vstd::arithmetic::div_mod::lemma_mod_decreases(x.len(), lanes as nat);
    let behind = |i: int|
        m.term(
            x[x.len() - x.len() as int % lanes + i],
            y[x.len() - x.len() as int % lanes + i],
        );
    let f = term_at(m, xr, yr);
    assert forall|i: int| 0 <= i < rest implies #[trigger] behind(i) == f(i) by {
        assert(xr[i] == x[n - n % lanes + i] && yr[i] == y[n - n % lanes + i]);
    }
    lemma_total_same(m, rest, behind, f);
    let by_lane = |lane: int|
        m.total(
            (x.len() as int / lanes) as nat,
            |c: int| m.term(x[c * lanes + lane], y[c * lanes + lane]),
        );
    let sums = element(lane_sums(m, x, y, lanes, chunks));
    assert forall|lane: int| 0 <= lane < lanes implies #[trigger] sums(lane) == by_lane(lane) by {
        let a = lane_term(m, x, y, lanes, lane);
        let b = |c: int| m.term(x[c * lanes + lane], y[c * lanes + lane]);
        assert forall|c: int| 0 <= c < chunks implies #[trigger] a(c) == b(c) by {}
        lemma_total_same(m, chunks, a, b);
    }
    lemma_total_same(m, lanes as nat, sums, by_lane);
}

/// Vector `i` of vectors that stand one behind the other.
pub open spec fn row<T>(vectors: Seq<T>, dimension: int, i: int) -> Seq<T> {
    vectors.subrange(i * dimension, (i + 1) * dimension)
}

/// Element `d` of vector `i` stands behind the elements of the vectors before it.
pub proof fn lemma_row<T>(vectors: Seq<T>, dimension: int, i: int, d: int)
    requires
        0 <= i,
        0 <= d < dimension,
        (i + 1) * dimension <= vectors.len(),
    ensures
        row(vectors, dimension, i).len() == dimension,
        row(vectors, dimension, i)[d] == vectors[i * dimension + d],
{
    assert((i + 1) * dimension == i * dimension + dimension && 0 <= i * dimension)
        by (nonlinear_arith)
        requires
            0 <= i,
            0 < dimension,
    ;
}

/// The squared distances of a vector from vectors that stand one behind the other.
pub open spec fn l2_batch<T>(m: ArithmeticModel<T>, from: Seq<T>, to: Seq<T>) -> Seq<T> {
    let dimension = from.len() as int;
    Seq::new(
        (to.len() as int / dimension) as nat,
        |i: int| l2(m, from, row(to, dimension, i), LANES as int),
    )
}

/// The squared distances of a vector from vectors that stand one behind the other.
pub fn l2_distance_batch<T: Copy, P: Fn(T, T) -> T, D: Fn(T, T) -> T>(
    from: &[T],
    to: &[T],
    dimension: usize,
    arith: &Arithmetic<T, P, D>,
) -> (r: Vec<T>)
    requires
        dimension > 0,
        from@.len() == dimension,
        to@.len() as int % dimension as int == 0,
        arith.is_defined(),
    ensures
        r@.len() == to@.len() as int / dimension as int,
        forall|m: ArithmeticModel<T>| #[trigger]
            arith.computes(m) ==> r@ == l2_batch(m, from@, to@),
{
    let count: usize = to.len() / dimension;
    let mut r: Vec<T> = Vec::with_capacity(count);
    while r.len() < count
        invariant
            dimension > 0,
            from@.len() == dimension,
            arith.is_defined(),
            count == to.len() / dimension,
            r@.len() <= count,
            forall|m: ArithmeticModel<T>, i: int|
                #![trigger arith.computes(m), r@[i]]
                arith.computes(m) && 0 <= i < r@.len() ==> r@[i] == l2(
                    m,
                    from@,
                    row(to@, dimension as int, i),
                    LANES as int,
                ),
        decreases count - r@.len(),
    {
        let i: usize = r.len();
        proof {
            lemma_chunk(to.len() as int, dimension as int, i as int);
            assert((i + 1) * dimension == i * dimension + dimension) by (nonlinear_arith);
        }
        let vector: &[T] = &to[i * dimension..i * dimension + dimension];
        r.push(l2_f32(from, vector, arith));
    }
    proof {
        assert forall|m: ArithmeticModel<T>| #[trigger] arith.computes(m) implies r@ == l2_batch(
            m,
            from@,
            to@,
        ) by {
            assert(r@ =~= l2_batch(m, from@, to@));
        }
    }
    r
}

/// Where order and grouping of the summands make no difference, distance `i` is the sum of the squared
/// differences of the elements of the vector and of vector `i` of the others, each taken once.
pub proof fn lemma_l2_batch<T>(m: ArithmeticModel<T>, from: Seq<T>, to: Seq<T>, i: int)
    requires
        m.is_exact(),
        from.len() > 0,
        0 <= i,
        (i + 1) * from.len() <= to.len(),
    ensures
        l2_batch(m, from, to).len() == to.len() / from.len(),
        i < l2_batch(m, from, to).len(),
        l2_batch(m, from, to)[i] == m.total(
            from.len(),
            |d: int| m.term(from[d], to[i * from.len() + d]),
        ),
{
    let n = from.len() as int;
    assert(i < to.len() as int / n) by (nonlinear_arith)
        requires
            n > 0,
            (i + 1) * n <= to.len(),
    ;
    assert((i + 1) * n == i * n + n && 0 <= i * n) by (nonlinear_arith)
        requires
            0 <= i,
            n > 0,
    ;
    let vector = row(to, n, i);
    lemma_l2(m, from, vector, LANES as int);
    let f = |d: int| m.term(from[d], vector[d]);
    let g = |d: int| m.term(from[d], to[i * from.len() + d]);
    assert forall|d: int| 0 <= d < n implies #[trigger] f(d) == g(d) by {
        assert(vector[d] == to[i * n + d]);
    }
    lemma_total_same(m, from.len(), f, g);
}

/// The distances with the squared differences of one dimension added. Where there are more distances
/// than values, the rest stays as it is.
pub open spec fn accumulated<T>(
    m: ArithmeticModel<T>,
    q: T,
    values: Seq<T>,
    distances: Seq<T>,
) -> Seq<T> {
    Seq::new(
        distances.len(),
        |i: int|
            if i < values.len() {
                (m.plus)(distances[i], m.term(q, values[i]))
            } else {
                distances[i]
            },
    )
}

/// Adds the squared differences of one dimension to the distances of all targets.
pub fn accumulate_l2_dimension<T: Copy, P: Fn(T, T) -> T, D: Fn(T, T) -> T>(
    q: T,
    row: &[T],
    result: &mut [T],
    arith: &Arithmetic<T, P, D>,
)
    requires
        arith.is_defined(),
    ensures
        final(result)@.len() == old(result)@.len(),
        forall|m: ArithmeticModel<T>| #[trigger]
            arith.computes(m) ==> final(result)@ == accumulated(m, q, row@, old(result)@),
        forall|m: ArithmeticModel<T>, i: int|
            #![trigger arith.computes(m), final(result)@[i]]
            arith.computes(m) && 0 <= i < row@.len() && i < old(result)@.len()
                ==> final(result)@[i] == (m.plus)(old(result)@[i], m.term(q, row@[i])),
        forall|i: int|
            row@.len() <= i < old(result)@.len() ==> #[trigger] final(result)@[i] == old(
                result,
            )@[i],
{
    let ghost before = result@;
    let n: usize = if result.len() <= row.len() { result.len() } else { row.len() };
    let mut i: usize = 0;
    while i < n
        invariant
            arith.is_defined(),
            i <= n <= row@.len(),
            n <= before.len(),
            result@.len() == before.len(),
            forall|m: ArithmeticModel<T>, k: int|
                #![trigger arith.computes(m), result@[k]]
                arith.computes(m) && 0 <= k < i ==> result@[k] == accumulated(
                    m,
                    q,
                    row@,
                    before,
                )[k],
            forall|k: int| i <= k < result@.len() ==> #[trigger] result@[k] == before[k],
        decreases n - i,
    {
        let sum: T = arith.add_to(result[i], arith.term_of(q, row[i]));
        result[i] = sum;
        i += 1;
    }
    proof {
        assert forall|m: ArithmeticModel<T>| #[trigger] arith.computes(m) implies result@
            == accumulated(m, q, row@, before) by {
            assert(result@ =~= accumulated(m, q, row@, before));
        }
    }
}

/// The squared distances of a query from targets, over the first `dims` dimensions.
pub open spec fn target_distances<T>(
    m: ArithmeticModel<T>,
    query: Seq<T>,
    targets: Seq<Seq<T>>,
    dims: nat,
) -> Seq<T> {
    Seq::new(targets.len(), |t: int| m.total(dims, term_at(m, query, targets[t])))
}

/// The distance from target `t` is the sum of the squared differences of its elements and those of the
/// query, in order; and where order and grouping of the summands make no difference, it is what the
/// distance of the two vectors is by itself.
pub proof fn lemma_target_distances<T>(
    m: ArithmeticModel<T>,
    query: Seq<T>,
    targets: Seq<Seq<T>>,
    t: int,
)
    requires
        0 <= t < targets.len(),
        targets[t].len() == query.len(),
    ensures
        target_distances(m, query, targets, query.len()).len() == targets.len(),
        target_distances(m, query, targets, query.len())[t] == m.total(
            query.len(),
            |d: int| m.term(query[d], targets[t][d]),
        ),
        m.is_exact() ==> forall|lanes: int|
            lanes > 0 ==> target_distances(m, query, targets, query.len())[t] == #[trigger] l2(
                m,
                query,
                targets[t],
                lanes,
            ),
{
    let f = term_at(m, query, targets[t]);
    let g = |d: int| m.term(query[d], targets[t][d]);
    assert forall|d: int| 0 <= d < query.len() implies #[trigger] f(d) == g(d) by {}
    lemma_total_same(m, query.len(), f, g);
    if m.is_exact() {
        assert forall|lanes: int| lanes > 0 implies target_distances(
            m,
            query,
            targets,
            query.len(),
        )[t] == #[trigger] l2(m, query, targets[t], lanes) by {
            lemma_l2(m, query, targets[t], lanes);
        }
    }
}

/// Target vectors for repeated queries, stored dimension by dimension, so that the distances to all
/// targets are accumulated over contiguous values.
#[derive(Debug)]
pub struct L2Prepared<T> {
    transposed: Vec<T>,
    dimension: usize,
    num_targets: usize,
}

impl<T> L2Prepared<T> {
    #[verifier::type_invariant]
    spec fn wf(self) -> bool {
        self.transposed@.len() == self.dimension * self.num_targets
    }

    /// The number of elements of a target.
    pub closed spec fn dim(&self) -> nat {
        self.dimension as nat
    }

    /// The targets.
    pub closed spec fn targets(&self) -> Seq<Seq<T>> {
        Seq::new(
            self.num_targets as nat,
            |t: int|
                Seq::new(
                    self.dimension as nat,
                    |d: int| self.transposed@[d * self.num_targets + t],
                ),
        )
    }

}

impl<T: Copy> Clone for L2Prepared<T> {
    fn clone(&self) -> (r: Self)
        ensures
            r.dim() == self.dim(),
            r.targets() == self.targets(),
    {
        proof {
            use_type_invariant(self);
        }
        let transposed: Vec<T> = vstd::slice::slice_to_vec(self.transposed.as_slice());
        let r = L2Prepared {
            transposed,
            dimension: self.dimension,
            num_targets: self.num_targets,
        };
        assert(r.targets() =~~= self.targets());
        r
    }
}

impl<T: Copy> L2Prepared<T> {
    /// Takes targets that stand one behind the other.
    pub fn new(targets: &[T], dimension: usize) -> (r: Self)
        requires
            dimension > 0,
            targets@.len() as int % dimension as int == 0,
        ensures
            r.dim() == dimension,
            r.targets() == Seq::new(
                (targets@.len() as int / dimension as int) as nat,
                |t: int| row(targets@, dimension as int, t),
            ),
    {
        let num_targets: usize = targets.len() / dimension;
        proof {
            vstd::arithmetic::div_mod::lemma_fundamental_div_mod(
                targets@.len() as int,
                dimension as int,
            );
            assert(num_targets * dimension == dimension * num_targets) by (nonlinear_arith);
        }
        let transposed: Vec<T> = transpose_matrix(targets, num_targets, dimension);
        let r = L2Prepared { transposed, dimension, num_targets };
        proof {
            assert forall|t: int| 0 <= t < num_targets implies #[trigger] r.targets()[t] == row(
                targets@,
                dimension as int,
                t,
            ) by {
                assert((t + 1) * dimension == t * dimension + dimension) by (nonlinear_arith);
                lemma_cell(num_targets as int, dimension as int, t, dimension - 1);
                lemma_cell(num_targets as int, dimension as int, t, 0);
                assert forall|d: int| 0 <= d < dimension implies #[trigger] r.targets()[t][d]
                    == row(targets@, dimension as int, t)[d] by {
                    lemma_cell(dimension as int, num_targets as int, d, t);
                }
                assert(r.targets()[t] =~= row(targets@, dimension as int, t));
            }
            assert(r.targets() =~= Seq::new(
                (targets@.len() as int / dimension as int) as nat,
                |t: int| row(targets@, dimension as int, t),
            ));
        }
        r
    }

    /// Writes the squared distances of a query from all targets to `out`, each accumulated one
    /// dimension after the other.
    pub fn distances_into<P: Fn(T, T) -> T, D: Fn(T, T) -> T>(
        &self,
        query: &[T],
        out: &mut [T],
        arith: &Arithmetic<T, P, D>,
    )
        requires
            query@.len() == self.dim(),
            old(out)@.len() == self.targets().len(),
            arith.is_defined(),
        ensures
            final(out)@.len() == self.targets().len(),
            forall|m: ArithmeticModel<T>| #[trigger]
                arith.computes(m) ==> final(out)@ == target_distances(
                    m,
                    query@,
                    self.targets(),
                    self.dim(),
                ),
    {
        proof {
            use_type_invariant(self);
        }
        let n: usize = out.len();
        let mut t: usize = 0;
        while t < n
            invariant
                t <= n,
                n == out@.len(),
                forall|u: int| 0 <= u < t ==> #[trigger] out@[u] == arith.zero,
            decreases n - t,
        {
            out[t] = arith.zero;
            t += 1;
        }
        proof {
            assert forall|m: ArithmeticModel<T>| #[trigger] arith.computes(m) implies out@
                == target_distances(m, query@, self.targets(), 0) by {
                assert(out@ =~= target_distances(m, query@, self.targets(), 0));
            }
        }
        let mut d: usize = 0;
        while d < query.len()
            invariant
                d <= query@.len(),
                arith.is_defined(),
                query@.len() == self.dimension,
                self.transposed.len() == self.dimension * self.num_targets,
                n == self.num_targets,
                n == out@.len(),
                forall|m: ArithmeticModel<T>| #[trigger]
                    arith.computes(m) ==> out@ == target_distances(
                        m,
                        query@,
                        self.targets(),
                        d as nat,
                    ),
            decreases query@.len() - d,
        {
            proof {
                assert(0 <= d * n && d * n + n <= self.dimension * n) by (nonlinear_arith)
                    requires
                        0 <= d < self.dimension,
                        0 <= n,
                ;
            }
            let all: &[T] = self.transposed.as_slice();
            let start: usize = d * n;
            let values: &[T] = &all[start..start + n];
            accumulate_l2_dimension(query[d], values, out, arith);
            proof {
                assert forall|m: ArithmeticModel<T>| #[trigger] arith.computes(m) implies out@
                    == target_distances(m, query@, self.targets(), (d + 1) as nat) by {
                    assert forall|u: int| 0 <= u < n implies #[trigger] out@[u]
                        == target_distances(m, query@, self.targets(), (d + 1) as nat)[u] by {
                        assert(values@[u] == self.targets()[u][d as int]);
                    }
                    assert(out@ =~= target_distances(
                        m,
                        query@,
                        self.targets(),
                        (d + 1) as nat,
                    ));
                }
            }
            d += 1;
        }
    }

    pub fn num_targets(&self) -> (r: usize)
        ensures
            r == self.targets().len(),
    {
        self.num_targets
    }

    pub fn dimension(&self) -> (r: usize)
        ensures
            r == self.dim(),
    {
        self.dimension
    }
}

} // verus!
