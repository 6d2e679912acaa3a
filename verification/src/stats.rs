//! Aggregates of timing samples, and bounds on their noise.
//!
//! The geometric mean is the central tendency that is reported; a bootstrap confidence interval on
//! it tells whether two measurements can be told apart. The logarithms of the geometric mean are
//! taken by a function that the caller passes in.
use vstd::laws_cmp::group_laws_cmp;
use vstd::prelude::*;
use vstd::relations::{sorted_by, total_ordering};
use vstd::seq_lib::lemma_sorted_unique;

use crate::prng::{
    draw, lemma_every_value_is_drawn, lemma_some_draw, lemma_state_after_sum, state_after,
    SplitMix64,
};
use crate::sorted::sort_unstable;

verus! {

/// The order of the samples.
pub open spec fn at_most() -> spec_fn(u64, u64) -> bool {
    |a: u64, b: u64| a <= b
}

/// The samples in ascending order.
pub open spec fn in_order(xs: Seq<u64>) -> Seq<u64> {
    xs.sort_by(at_most())
}

/// The samples, with zeros raised to one.
pub open spec fn at_least_one(xs: Seq<u64>) -> Seq<u64> {
    xs.map_values(|x: u64| if x == 0 { 1 } else { x })
}

/// `r` is the geometric mean of the samples as `exp_mean_ln` computes it: zero of no samples,
/// otherwise what that function gives for the samples with zeros raised to one.
pub open spec fn is_geomean<F: Fn(&[u64]) -> u64>(xs: Seq<u64>, exp_mean_ln: F, r: u64) -> bool {
    if xs.len() == 0 {
        r == 0
    } else {
        exists|v: &[u64]| v@ == at_least_one(xs) && #[trigger] exp_mean_ln.ensures((v,), r)
    }
}

/// The function can be applied to any samples.
pub open spec fn accepts_samples<F: Fn(&[u64]) -> u64>(exp_mean_ln: F) -> bool {
    forall|v: &[u64]| v@.len() > 0 ==> #[trigger] exp_mean_ln.requires((v,))
}

/// The geometric mean of the samples; zero of no samples. `exp_mean_ln` is given samples of at
/// least one, and gives the exponential of the mean of their logarithms.
pub fn geomean<F: Fn(&[u64]) -> u64>(xs: &[u64], exp_mean_ln: F) -> (r: u64)
    requires
        accepts_samples(exp_mean_ln),
    ensures
        is_geomean(xs@, exp_mean_ln, r),
{
    mean_of(xs, &exp_mean_ln)
}

pub(crate) fn mean_of<F: Fn(&[u64]) -> u64>(xs: &[u64], exp_mean_ln: &F) -> (r: u64)
    requires
        accepts_samples(*exp_mean_ln),
    ensures
        is_geomean(xs@, *exp_mean_ln, r),
{
    if xs.len() == 0 {
        return 0;
    }
    let mut raised: Vec<u64> = Vec::with_capacity(xs.len());
    let mut k: usize = 0;
    while k < xs.len()
        invariant
            k <= xs@.len(),
            raised@ == at_least_one(xs@.take(k as int)),
        decreases xs@.len() - k,
    {
        let x: u64 = xs[k];
        raised.push(if x == 0 { 1 } else { x });
        k += 1;
        assert(raised@ =~= at_least_one(xs@.take(k as int)));
    }
    assert(xs@.take(k as int) =~= xs@);
    exp_mean_ln(raised.as_slice())
}

proof fn lemma_in_order(xs: Seq<u64>, sorted: Seq<u64>)
    requires
        sorted.to_multiset() == xs.to_multiset(),
        forall|i: int, j: int| 0 <= i < j < sorted.len() ==> sorted[i] <= sorted[j],
    ensures
        sorted == in_order(xs),
        sorted.len() == xs.len(),
{
    assert(total_ordering(at_most()));
    xs.lemma_sort_by_ensures(at_most());
    assert(sorted_by(sorted, at_most()));
    lemma_sorted_unique(sorted, in_order(xs), at_most());
    sorted.to_multiset_ensures();
    xs.to_multiset_ensures();
}

/// The samples in order are the same samples, and none is greater than a later one.
pub proof fn lemma_ascending_order(xs: Seq<u64>)
    ensures
        in_order(xs).len() == xs.len(),
        in_order(xs).to_multiset() == xs.to_multiset(),
        forall|i: int, j: int| 0 <= i < j < xs.len() ==> in_order(xs)[i] <= in_order(xs)[j],
{
    assert(total_ordering(at_most()));
    xs.lemma_sort_by_ensures(at_most());
    xs.to_multiset_ensures();
    in_order(xs).to_multiset_ensures();
    assert forall|i: int, j: int| 0 <= i < j < xs.len() implies in_order(xs)[i] <= in_order(
        xs,
    )[j] by {
        assert(at_most()(in_order(xs)[i], in_order(xs)[j]));
    }
}

/// The samples in ascending order.
fn sort_samples(v: &mut Vec<u64>)
    ensures
        final(v)@ == in_order(old(v)@),
        final(v)@.len() == old(v)@.len(),
{
    broadcast use group_laws_cmp;

    let ghost xs = v@;
    sort_unstable(v);
    proof {
        lemma_in_order(xs, v@);
    }
}

/// The median of the samples; of an even number of samples, the mean of the two in the middle,
/// rounded down. Zero of no samples.
pub open spec fn median_of(xs: Seq<u64>) -> int {
    let sorted = in_order(xs);
    let n = xs.len() as int;
    if n == 0 {
        0
    } else if n % 2 == 0 {
        (sorted[n / 2 - 1] + sorted[n / 2]) / 2
    } else {
        sorted[n / 2] as int
    }
}

/// The median of the samples; of an even number of samples, the mean of the two in the middle,
/// rounded down. Zero of no samples.
pub fn median(xs: &[u64]) -> (r: u64)
    ensures
        r == median_of(xs@),
{
    if xs.len() == 0 {
        return 0;
    }
    let mut sorted: Vec<u64> = vstd::slice::slice_to_vec(xs);
    sort_samples(&mut sorted);
    let n: usize = sorted.len();
    if n % 2 == 0 {
        ((sorted[n / 2 - 1] as u128 + sorted[n / 2] as u128) / 2) as u64
    } else {
        sorted[n / 2]
    }
}

/// The test for lying below `m`.
pub open spec fn below(m: int) -> spec_fn(u64) -> bool {
    |x: u64| x < m
}

/// The test for lying above `m`.
pub open spec fn above(m: int) -> spec_fn(u64) -> bool {
    |x: u64| x > m
}

/// How many samples pass a test does not depend on their order.
proof fn lemma_filter_count(xs: Seq<u64>, ys: Seq<u64>, pred: spec_fn(u64) -> bool)
    requires
        xs.to_multiset() == ys.to_multiset(),
    ensures
        xs.filter(pred).len() == ys.filter(pred).len(),
    decreases xs.len(),
{
    reveal(Seq::filter);
    xs.to_multiset_ensures();
    ys.to_multiset_ensures();
    if xs.len() > 0 {
        let x = xs.last();
        let xs1 = xs.drop_last();
        assert(xs.contains(x));
        assert(ys.to_multiset().count(x) > 0);
        assert(ys.contains(x));
        let j = choose|j: int| 0 <= j < ys.len() && ys[j] == x;
        let ys1 = ys.remove(j);
        assert(xs1 =~= xs.remove(xs.len() - 1));
        assert(xs1.to_multiset() =~= ys1.to_multiset());
        lemma_filter_count(xs1, ys1, pred);
        let head = ys.take(j);
        let tail = ys.skip(j + 1);
        assert(ys =~= head.push(x) + tail);
        assert(ys1 =~= head + tail);
        assert(head.push(x).drop_last() =~= head);
        Seq::filter_distributes_over_add(head.push(x), tail, pred);
        Seq::filter_distributes_over_add(head, tail, pred);
    } else {
        assert(ys.len() == 0);
    }
}

/// At most as many samples pass a test as there are places among which all of them stand.
proof fn lemma_filter_within(s: Seq<u64>, from: int, to: int, pred: spec_fn(u64) -> bool)
    requires
        0 <= from <= to <= s.len(),
        forall|i: int| 0 <= i < s.len() && pred(#[trigger] s[i]) ==> from <= i < to,
    ensures
        s.filter(pred).len() <= to - from,
    decreases s.len(),
{
    reveal(Seq::filter);
    if s.len() > 0 {
        let s1 = s.drop_last();
        let n = s.len() - 1;
        assert forall|i: int| 0 <= i < s1.len() && pred(#[trigger] s1[i]) implies from <= i
            < to by {
            assert(s1[i] == s[i]);
        }
        assert(s.last() == s[n]);
        if to <= n {
            lemma_filter_within(s1, from, to, pred);
        } else if from <= n {
            lemma_filter_within(s1, from, n, pred);
        } else {
            lemma_filter_within(s1, n, n, pred);
        }
    }
}

/// The order of the samples makes no difference to the median. At most half of the samples lie below
/// it, and at most half above; of an odd number of samples it is one of them.
pub proof fn lemma_median(xs: Seq<u64>, ys: Seq<u64>)
    requires
        xs.to_multiset() == ys.to_multiset(),
    ensures
        in_order(ys) == in_order(xs),
        median_of(ys) == median_of(xs),
        xs.filter(below(median_of(xs))).len() <= xs.len() / 2,
        xs.filter(above(median_of(xs))).len() <= xs.len() / 2,
        xs.len() % 2 == 1 ==> xs.contains(median_of(xs) as u64) && 0 <= median_of(xs) <= u64::MAX,
{
    let sorted = in_order(xs);
    let n = xs.len() as int;
    let m = median_of(xs);
    lemma_ascending_order(xs);
    lemma_in_order(ys, sorted);
    lemma_filter_count(xs, sorted, below(m));
    lemma_filter_count(xs, sorted, above(m));
    if n > 0 {
        assert forall|i: int| 0 <= i < sorted.len() && below(m)(#[trigger] sorted[i]) implies 0 <= i
            < n / 2 by {
            if i > n / 2 {
                assert(sorted[n / 2] <= sorted[i]);
            }
            if n % 2 == 0 {
                assert(sorted[n / 2 - 1] <= sorted[n / 2]);
            }
        }
        let from = n - n / 2;
        assert forall|i: int| 0 <= i < sorted.len() && above(m)(#[trigger] sorted[i]) implies from
            <= i < n by {
            if i < from - 1 {
                assert(sorted[i] <= sorted[from - 1]);
            }
            if n % 2 == 0 {
                assert(sorted[n / 2 - 1] <= sorted[n / 2]);
            }
        }
        lemma_filter_within(sorted, 0, n / 2, below(m));
        lemma_filter_within(sorted, from, n, above(m));
        if n % 2 == 1 {
            sorted.to_multiset_ensures();
            xs.to_multiset_ensures();
            assert(sorted.contains(sorted[n / 2]));
            assert(sorted.to_multiset().count(sorted[n / 2]) > 0);
        }
    } else {
        lemma_filter_within(sorted, 0, 0, below(m));
        lemma_filter_within(sorted, 0, 0, above(m));
    }
}

/// The sample that stands at place `k` in order is one of the samples. At most `k` samples lie below
/// it, and at most as many above it as there are places behind `k`.
pub proof fn lemma_order_statistic(xs: Seq<u64>, k: int)
    requires
        0 <= k < xs.len(),
    ensures
        is_at_rank(xs, in_order(xs)[k], k),
{
    let sorted = in_order(xs);
    let v = sorted[k] as int;
    lemma_ascending_order(xs);
    lemma_filter_count(xs, sorted, below(v));
    lemma_filter_count(xs, sorted, above(v));
    assert forall|i: int| 0 <= i < sorted.len() && below(v)(#[trigger] sorted[i]) implies 0 <= i
        < k by {
        if i > k {
            assert(sorted[k] <= sorted[i]);
        }
    }
    assert forall|i: int| 0 <= i < sorted.len() && above(v)(#[trigger] sorted[i]) implies k + 1
        <= i < sorted.len() by {
        if i < k {
            assert(sorted[i] <= sorted[k]);
        }
    }
    lemma_filter_within(sorted, 0, k, below(v));
    lemma_filter_within(sorted, k + 1, sorted.len() as int, above(v));
    let p = lemma_ordered_from(xs, k);
    assert(xs.contains(xs[p]));
}

/// `v` is the sample at rank `k`: one of the samples, with at most `k` of them below it, and at most
/// as many above it as have a higher rank.
pub open spec fn is_at_rank(xs: Seq<u64>, v: u64, k: int) -> bool {
    &&& xs.contains(v)
    &&& xs.filter(below(v as int)).len() <= k
    &&& xs.filter(above(v as int)).len() <= xs.len() - k - 1
}

/// Whatever way the samples are put in ascending order, the median is the one in the middle of an odd
/// number; of an even number it is the mean of the two in the middle, rounded down.
pub proof fn lemma_median_in_the_middle(xs: Seq<u64>, ordered: Seq<u64>)
    requires
        xs.len() > 0,
        ordered.to_multiset() == xs.to_multiset(),
        forall|i: int, j: int| 0 <= i < j < ordered.len() ==> ordered[i] <= ordered[j],
    ensures
        ordered.len() == xs.len(),
        forall|h: int|
            #![trigger ordered[h]]
            2 * h + 1 == xs.len() ==> median_of(xs) == ordered[h],
        forall|h: int|
            #![trigger ordered[h]]
            2 * h == xs.len() ==> 2 * median_of(xs) <= ordered[h - 1] + ordered[h] <= 2 * median_of(
                xs,
            ) + 1,
{
    lemma_in_order(xs, ordered);
}

/// The samples a quarter and three quarters of the way up. Zeros of no samples.
pub fn iqr(xs: &[u64]) -> (r: (u64, u64))
    ensures
        xs@.len() == 0 ==> r == (0u64, 0u64),
        xs@.len() > 0 ==> r == (
            in_order(xs@)[xs@.len() as int / 4],
            in_order(xs@)[(3 * xs@.len() as int) / 4],
        ),
        xs@.len() > 0 ==> is_at_rank(xs@, r.0, xs@.len() as int / 4) && is_at_rank(
            xs@,
            r.1,
            (3 * xs@.len() as int) / 4,
        ),
        r.0 <= r.1,
{
    if xs.len() == 0 {
        return (0, 0);
    }
    let mut sorted: Vec<u64> = vstd::slice::slice_to_vec(xs);
    sort_samples(&mut sorted);
    let n: usize = sorted.len();
    proof {
        lemma_ascending_order(xs@);
        lemma_order_statistic(xs@, n as int / 4);
        lemma_order_statistic(xs@, (3 * n as int) / 4);
    }
    (sorted[n / 4], sorted[n / 4 * 3 + n % 4 * 3 / 4])
}

/// Resample `k`: as many samples as there are, each drawn from all of them.
pub open spec fn resample(xs: Seq<u64>, seed: u64, k: nat) -> Seq<u64> {
    Seq::new(
        xs.len(),
        |i: int| xs[(draw(seed, (k * xs.len() + i) as nat) as usize as int) % (xs.len() as int)],
    )
}

/// `means` holds the geometric means of the resamples.
pub open spec fn are_resampled_means<F: Fn(&[u64]) -> u64>(
    xs: Seq<u64>,
    seed: u64,
    exp_mean_ln: F,
    means: Seq<u64>,
) -> bool {
    forall|k: int|
        0 <= k < means.len() ==> is_geomean(
            resample(xs, seed, k as nat),
            exp_mean_ln,
            #[trigger] means[k],
        )
}

/// The place one twentieth from the start of `n`.
pub open spec fn low_place(n: int) -> int {
    n * 5 / 100
}

/// The place one twentieth from the end of `n`.
pub open spec fn high_place(n: int) -> int {
    if n * 95 / 100 < n {
        n * 95 / 100
    } else {
        n - 1
    }
}

/// The interval spans all but a twentieth of the means of the resamples on either side.
pub open spec fn is_ci<F: Fn(&[u64]) -> u64>(
    xs: Seq<u64>,
    n_resamples: int,
    seed: u64,
    exp_mean_ln: F,
    ci: (u64, u64),
) -> bool {
    if xs.len() == 0 {
        ci == (0u64, 0u64)
    } else {
        exists|means: Seq<u64>|
            {
                &&& means.len() == n_resamples
                &&& #[trigger] are_resampled_means(xs, seed, exp_mean_ln, means)
                &&& ci.0 == in_order(means)[low_place(n_resamples)]
                &&& ci.1 == in_order(means)[high_place(n_resamples)]
            }
    }
}

/// A 90% confidence interval on the geometric mean: of the means of `n_resamples` resamples, those
/// that stand one twentieth from either end. The seed fixes the resamples. Zeros of no samples.
pub fn bootstrap_ci_geomean<F: Fn(&[u64]) -> u64>(
    xs: &[u64],
    n_resamples: usize,
    seed: u64,
    exp_mean_ln: F,
) -> (r: (u64, u64))
    requires
        xs@.len() > 0 ==> n_resamples > 0,
        accepts_samples(exp_mean_ln),
    ensures
        is_ci(xs@, n_resamples as int, seed, exp_mean_ln, r),
        r.0 <= r.1,
{
    ci_of(xs, n_resamples, seed, &exp_mean_ln)
}

/// Where the ends of a 90% confidence interval stand among `n` means in ascending order.
pub fn ci_places(n: usize) -> (r: (usize, usize))
    requires
        n > 0,
    ensures
        r.0 == low_place(n as int),
        r.1 == high_place(n as int),
        20 * r.0 <= n < 20 * (r.0 + 1),
        20 * r.1 <= 19 * n < 20 * (r.1 + 1),
        r.0 <= r.1 < n,
{
    let hi: usize = n / 20 * 19 + n % 20 * 19 / 20;
    (n / 20, if hi < n { hi } else { n - 1 })
}

/// The geometric means of `n_resamples` resamples of the samples. The seed fixes which samples are
/// drawn, so that as many other samples are drawn at the same places.
pub fn resampled_means<F: Fn(&[u64]) -> u64>(
    xs: &[u64],
    n_resamples: usize,
    seed: u64,
    exp_mean_ln: &F,
) -> (means: Vec<u64>)
    requires
        xs@.len() > 0,
        accepts_samples(*exp_mean_ln),
    ensures
        means@.len() == n_resamples,
        are_resampled_means(xs@, seed, *exp_mean_ln, means@),
        forall|k: int|
            0 <= k < n_resamples ==> is_geomean(
                resample(xs@, seed, k as nat),
                *exp_mean_ln,
                #[trigger] means@[k],
            ),
{
    let n: usize = xs.len();
    let mut rng: SplitMix64 = SplitMix64::new(seed);
    let mut means: Vec<u64> = Vec::with_capacity(n_resamples);
    let mut buf: Vec<u64> = Vec::with_capacity(n);
    let mut k: usize = 0;
    while k < n_resamples
        invariant
            n == xs@.len(),
            n > 0,
            k <= n_resamples,
            accepts_samples(*exp_mean_ln),
            rng@ == state_after(seed, (k * n) as nat),
            means@.len() == k,
            are_resampled_means(xs@, seed, *exp_mean_ln, means@),
        decreases n_resamples - k,
    {
        buf.clear();
        let ghost whole = resample(xs@, seed, k as nat);
        while buf.len() < n
            invariant
                n == xs@.len(),
                n > 0,
                buf@.len() <= n,
                whole == resample(xs@, seed, k as nat),
                buf@ == whole.take(buf@.len() as int),
                rng@ == state_after(seed, (k * n + buf@.len()) as nat),
            decreases n - buf@.len(),
        {
            let i: usize = (rng.next_u64() as usize) % n;
            let ghost before = buf@;
            buf.push(xs[i]);
            assert(buf@ =~= whole.take(buf@.len() as int)) by {
                assert(whole[before.len() as int] == xs@[i as int]);
            }
        }
        assert(buf@ =~= whole);
        let mean: u64 = mean_of(buf.as_slice(), exp_mean_ln);
        means.push(mean);
        assert(k * n + n == (k + 1) * n) by (nonlinear_arith);
        k += 1;
    }
    means
}

/// Samples in pairs stay in pairs: where two lists are as long as each other, place `i` of their
/// resamples holds a pair that stands at one place of the lists.
pub proof fn lemma_resampled_in_pairs(xs: Seq<u64>, ys: Seq<u64>, seed: u64, k: nat, i: int)
    requires
        xs.len() == ys.len(),
        0 <= i < xs.len(),
    ensures
        exists|j: int|
            0 <= j < xs.len() && resample(xs, seed, k)[i] == #[trigger] xs[j] && resample(
                ys,
                seed,
                k,
            )[i] == ys[j],
{
    let j = (draw(seed, (k * xs.len() + i) as nat) as usize as int) % (xs.len() as int);
    assert(resample(xs, seed, k)[i] == xs[j]);
}

/// Place `i` of resample `k` holds the sample at place `j`, whatever the `n` samples are.
pub open spec fn is_drawn_at(n: nat, seed: u64, k: nat, i: int, j: int) -> bool {
    &&& 0 <= i < n
    &&& forall|xs: Seq<u64>| xs.len() == n ==> #[trigger] resample(xs, seed, k)[i] == xs[j]
}

/// Every sample can be drawn: for each of `n` samples there are a resample and a place in it that
/// holds this sample, whatever the samples are.
pub proof fn lemma_every_sample_is_drawn(n: nat, seed: u64, j: int)
    requires
        0 <= j < n <= usize::MAX,
    ensures
        exists|k: nat, i: int| #[trigger] is_drawn_at(n, seed, k, i, j),
{
    lemma_every_value_is_drawn(seed, j as u64);
    let t = choose|t: nat| #[trigger] draw(seed, t) == j as u64;
    let k = (t as int / n as int) as nat;
    let i = t as int % n as int;
    vstd::arithmetic::div_mod::lemma_fundamental_div_mod(t as int, n as int);
    vstd::arithmetic::div_mod::lemma_mod_bound(t as int, n as int);
    vstd::arithmetic::div_mod::lemma_div_pos_is_pos(t as int, n as int);
    assert(n * k == k * n) by (nonlinear_arith);
    assert(k * n + i == t);
    assert((j as u64) as usize as int == j);
    vstd::arithmetic::div_mod::lemma_small_mod(j as nat, n);
    assert forall|xs: Seq<u64>| xs.len() == n implies #[trigger] resample(xs, seed, k)[i]
        == xs[j] by {}
    assert(is_drawn_at(n, seed, k, i, j));
}

/// Every place of every resample can hold every sample: there is a seed for which it does.
pub proof fn lemma_any_sample_at_any_place(n: nat, k: nat, i: int, j: int)
    requires
        0 <= i < n,
        0 <= j < n <= usize::MAX,
    ensures
        exists|seed: u64| #[trigger] is_drawn_at(n, seed, k, i, j),
{
    assert(k * n >= 0) by (nonlinear_arith);
    let seed = lemma_some_draw((k * n + i) as nat, j as u64);
    assert((j as u64) as usize as int == j);
    vstd::arithmetic::div_mod::lemma_small_mod(j as nat, n);
    assert forall|xs: Seq<u64>| xs.len() == n implies #[trigger] resample(xs, seed, k)[i]
        == xs[j] by {}
    assert(is_drawn_at(n, seed, k, i, j));
}

/// Resamples are drawn one after the other from one stream of numbers: what comes after `skipped` of
/// them is what a generator draws that has gone as far.
pub proof fn lemma_later_resamples(xs: Seq<u64>, seed: u64, skipped: nat, k: nat)
    ensures
        resample(xs, seed, skipped + k) == resample(
            xs,
            state_after(seed, skipped * xs.len()),
            k,
        ),
{
    let n = xs.len();
    let later = state_after(seed, skipped * n);
    assert((skipped + k) * n == skipped * n + k * n) by (nonlinear_arith);
    let ours = resample(xs, seed, skipped + k);
    let theirs = resample(xs, later, k);
    assert forall|i: int| 0 <= i < n implies #[trigger] ours[i] == theirs[i] by {
        assert(k * n >= 0) by (nonlinear_arith);
        lemma_state_after_sum(seed, skipped * n, (k * n + i + 1) as nat);
        assert((skipped + k) * n + i + 1 == skipped * n + (k * n + i + 1));
        assert(draw(seed, ((skipped + k) * n + i) as nat) == draw(later, (k * n + i) as nat));
    }
    assert(ours =~= theirs);
}

pub(crate) fn ci_of<F: Fn(&[u64]) -> u64>(
    xs: &[u64],
    n_resamples: usize,
    seed: u64,
    exp_mean_ln: &F,
) -> (r: (u64, u64))
    requires
        xs@.len() > 0 ==> n_resamples > 0,
        accepts_samples(*exp_mean_ln),
    ensures
        is_ci(xs@, n_resamples as int, seed, *exp_mean_ln, r),
        r.0 <= r.1,
{
    if xs.len() == 0 {
        return (0, 0);
    }
    let mut means: Vec<u64> = resampled_means(xs, n_resamples, seed, exp_mean_ln);
    let ghost unsorted = means@;
    sort_samples(&mut means);
    let (lo, hi) = ci_places(n_resamples);
    proof {
        lemma_ascending_order(unsorted);
    }
    (means[lo], means[hi])
}

/// What the function returns is what `mean` says of the samples.
pub open spec fn computes_mean<F: Fn(&[u64]) -> u64>(
    exp_mean_ln: F,
    mean: spec_fn(Seq<u64>) -> u64,
) -> bool {
    forall|v: &[u64], r: u64| #[trigger] exp_mean_ln.ensures((v,), r) ==> r == mean(v@)
}

/// The geometric mean is taken of all samples: the function is given as many numbers as there are
/// samples, at each place the sample itself, or one where that is zero.
pub proof fn lemma_geomean_of_all<F: Fn(&[u64]) -> u64>(xs: Seq<u64>, exp_mean_ln: F, r: u64)
    requires
        is_geomean(xs, exp_mean_ln, r),
        xs.len() > 0,
    ensures
        exists|v: &[u64]|
            {
                &&& #[trigger] exp_mean_ln.ensures((v,), r)
                &&& v@.len() == xs.len()
                &&& forall|i: int| 0 <= i < xs.len() && xs[i] > 0 ==> #[trigger] v@[i] == xs[i]
                &&& forall|i: int| 0 <= i < xs.len() && xs[i] == 0 ==> #[trigger] v@[i] == 1
            },
{
    let v = choose|v: &[u64]| v@ == at_least_one(xs) && #[trigger] exp_mean_ln.ensures((v,), r);
    assert(exp_mean_ln.ensures((v,), r));
    assert(v@.len() == xs.len());
}

/// A zero among the samples counts as one. Where the function gives at least one of samples of at
/// least one, only no samples have the mean zero; and where it gives a function of the samples, they
/// have one mean.
pub proof fn lemma_geomean<F: Fn(&[u64]) -> u64>(xs: Seq<u64>, exp_mean_ln: F, r: u64)
    requires
        is_geomean(xs, exp_mean_ln, r),
    ensures
        forall|g: u64|
            #![trigger is_geomean(xs, exp_mean_ln, g)]
            #![trigger is_geomean(at_least_one(xs), exp_mean_ln, g)]
            is_geomean(at_least_one(xs), exp_mean_ln, g) <==> is_geomean(xs, exp_mean_ln, g),
        xs.len() == 0 ==> r == 0,
        (forall|v: &[u64], g: u64|
            v@ == at_least_one(v@) && #[trigger] exp_mean_ln.ensures((v,), g) ==> g > 0) ==> (r == 0
            <==> xs.len() == 0),
        forall|mean: spec_fn(Seq<u64>) -> u64, other: u64| #[trigger]
            computes_mean(exp_mean_ln, mean) && #[trigger] is_geomean(xs, exp_mean_ln, other)
                ==> other == r,
{
    assert(at_least_one(at_least_one(xs)) =~= at_least_one(xs));
}

/// The samples of a resample are samples, as many as there are. Each is the one at the place to which
/// the next number of the generator is reduced.
pub proof fn lemma_resample(xs: Seq<u64>, seed: u64, k: nat)
    requires
        xs.len() > 0,
    ensures
        resample(xs, seed, k).len() == xs.len(),
        forall|i: int| 0 <= i < xs.len() ==> xs.contains(#[trigger] resample(xs, seed, k)[i]),
        forall|i: int|
            0 <= i < xs.len() ==> #[trigger] resample(xs, seed, k)[i] == xs[(draw(
                seed,
                (k * xs.len() + i) as nat,
            ) as usize as int) % (xs.len() as int)],
{
    assert forall|i: int| 0 <= i < xs.len() implies xs.contains(
        #[trigger] resample(xs, seed, k)[i],
    ) by {
        lemma_resampled_in_pairs(xs, xs, seed, k, i);
    }
}

/// The ends of a confidence interval are means of resamples, the lower one no greater than the
/// higher one. No samples have the interval of zeros. Equal samples have an interval of one point,
/// their mean; and the interval is the same each time: the last two where the mean is a function of
/// the samples.
pub proof fn lemma_ci<F: Fn(&[u64]) -> u64>(
    xs: Seq<u64>,
    n_resamples: int,
    seed: u64,
    exp_mean_ln: F,
    mean: spec_fn(Seq<u64>) -> u64,
    ci: (u64, u64),
    other: (u64, u64),
)
    requires
        n_resamples > 0,
        computes_mean(exp_mean_ln, mean),
        is_ci(xs, n_resamples, seed, exp_mean_ln, ci),
        is_ci(xs, n_resamples, seed, exp_mean_ln, other),
    ensures
        ci == other,
        ci.0 <= ci.1,
        xs.len() == 0 ==> ci == (0u64, 0u64),
        xs.len() > 0 ==> exists|k: nat|
            k < n_resamples && is_geomean(
                #[trigger] resample(xs, seed, k),
                exp_mean_ln,
                ci.0,
            ),
        xs.len() > 0 ==> exists|k: nat|
            k < n_resamples && is_geomean(
                #[trigger] resample(xs, seed, k),
                exp_mean_ln,
                ci.1,
            ),
        xs.len() > 0 && (forall|i: int| 0 <= i < xs.len() ==> #[trigger] xs[i] == xs[0]) ==> ci.0
            == ci.1 && is_geomean(xs, exp_mean_ln, ci.0),
{
    if xs.len() > 0 {
        let means = choose|means: Seq<u64>|
            {
                &&& means.len() == n_resamples
                &&& #[trigger] are_resampled_means(xs, seed, exp_mean_ln, means)
                &&& ci.0 == in_order(means)[low_place(n_resamples)]
                &&& ci.1 == in_order(means)[high_place(n_resamples)]
            };
        let others = choose|means: Seq<u64>|
            {
                &&& means.len() == n_resamples
                &&& #[trigger] are_resampled_means(xs, seed, exp_mean_ln, means)
                &&& other.0 == in_order(means)[low_place(n_resamples)]
                &&& other.1 == in_order(means)[high_place(n_resamples)]
            };
        assert forall|k: int| 0 <= k < n_resamples implies means[k] == others[k] by {
            lemma_geomean(resample(xs, seed, k as nat), exp_mean_ln, means[k]);
            assert(is_geomean(resample(xs, seed, k as nat), exp_mean_ln, others[k]));
        }
        assert(means =~= others);
        lemma_ascending_order(means);
        let lo = low_place(n_resamples);
        let hi = high_place(n_resamples);
        assert(0 <= lo <= hi < n_resamples);
        let k0 = lemma_ordered_from(means, lo);
        let k1 = lemma_ordered_from(means, hi);
        assert(is_geomean(resample(xs, seed, k0 as nat), exp_mean_ln, means[k0]));
        assert(is_geomean(resample(xs, seed, k1 as nat), exp_mean_ln, means[k1]));
        if forall|i: int| 0 <= i < xs.len() ==> #[trigger] xs[i] == xs[0] {
            assert forall|k: nat| #[trigger] resample(xs, seed, k) == xs by {
                lemma_resample(xs, seed, k);
                assert(resample(xs, seed, k) =~= xs);
            }
            lemma_geomean(xs, exp_mean_ln, ci.0);
        }
    }
}

/// A confidence interval leaves a twentieth of the means of the resamples below its lower end and a
/// twentieth above its higher end, and no end could be moved inwards without leaving more.
pub proof fn lemma_ci_spans<F: Fn(&[u64]) -> u64>(
    xs: Seq<u64>,
    n_resamples: int,
    seed: u64,
    exp_mean_ln: F,
    ci: (u64, u64),
)
    requires
        xs.len() > 0,
        n_resamples > 0,
        is_ci(xs, n_resamples, seed, exp_mean_ln, ci),
    ensures
        exists|means: Seq<u64>|
            {
                &&& means.len() == n_resamples
                &&& #[trigger] are_resampled_means(xs, seed, exp_mean_ln, means)
                &&& 20 * means.filter(below(ci.0 as int)).len() <= n_resamples
                &&& 20 * (n_resamples - means.filter(above(ci.0 as int)).len()) > n_resamples
                &&& 20 * means.filter(above(ci.1 as int)).len() <= n_resamples
                &&& 20 * (n_resamples - means.filter(below(ci.1 as int)).len()) >= n_resamples
            },
{
    let means = choose|means: Seq<u64>|
        {
            &&& means.len() == n_resamples
            &&& #[trigger] are_resampled_means(xs, seed, exp_mean_ln, means)
            &&& ci.0 == in_order(means)[low_place(n_resamples)]
            &&& ci.1 == in_order(means)[high_place(n_resamples)]
        };
    lemma_order_statistic(means, low_place(n_resamples));
    lemma_order_statistic(means, high_place(n_resamples));
}

/// What stands at a place of the samples in order stands at some place of the samples.
proof fn lemma_ordered_from(xs: Seq<u64>, i: int) -> (k: int)
    requires
        0 <= i < xs.len(),
    ensures
        0 <= k < xs.len(),
        xs[k] == in_order(xs)[i],
{
    lemma_ascending_order(xs);
    let sorted = in_order(xs);
    sorted.to_multiset_ensures();
    xs.to_multiset_ensures();
    assert(sorted.contains(sorted[i]));
    assert(sorted.to_multiset().count(sorted[i]) > 0);
    assert(xs.contains(sorted[i]));
    choose|k: int| 0 <= k < xs.len() && xs[k] == sorted[i]
}

/// The first interval lies entirely below the second.
pub open spec fn lies_below(a_ci: (u64, u64), b_ci: (u64, u64)) -> bool {
    a_ci.1 < b_ci.0
}

/// Of two measurements, at most one is the faster; and what is faster than a faster one is faster.
pub proof fn lemma_faster_is_an_order(a: (u64, u64), b: (u64, u64), c: (u64, u64))
    requires
        a.0 <= a.1,
        b.0 <= b.1,
        c.0 <= c.1,
    ensures
        !(lies_below(a, b) && lies_below(b, a)),
        lies_below(a, b) && lies_below(b, c) ==> lies_below(a, c),
{
}

/// Whether the first measurement is faster than the second: its interval lies entirely below.
pub fn is_statistically_faster(a_ci: (u64, u64), b_ci: (u64, u64)) -> (r: bool)
    ensures
        r <==> lies_below(a_ci, b_ci),
        r <==> a_ci.1 < b_ci.0,
{
    a_ci.1 < b_ci.0
}

} // verus!
