//! Holding the kernel against the reference, and timing it.
use vstd::prelude::*;
use vstd::string::StringExecFns;

use crate::perf::PerfMeasurement;
use crate::posting_intersect::inputs::{
    battery, case_models, correctness_battery, lemma_battery, lemma_workloads, shape_list, shapes,
    workload_models, workloads, CorrectnessCase, DataDistribution, SpeedWorkload, DISTRIBUTIONS,
    SPEED_BATCH,
};
use crate::posting_intersect::kernels::PostingIntersect;
use crate::posting_intersect::reference::{intersect_reference, intersections_diff, is_diff};
use crate::posting_intersect::{contents, intersection, sorted_unique_lists, PostingShape};
use crate::stats::{accepts_samples, is_geomean};
use crate::stopwatch::{Stopwatch, Window, Worker};
use crate::text::{append_decimal, decimal};
use crate::timing::{
    are_combo_means, best_index, chained, combo_means, is_best, is_measured, is_summary, is_worst,
    lemma_chained_at, lemma_repeated, lemma_repeated_at, lemma_stayed, lemma_went_further,
    lemma_went_on, length_before, logged, no_timings, repeated, summarize, went_through,
    worst_index, Plan, Summary, Timings, TimingsModel,
};

verus! {

/// The seeds of the battery and of the workloads.
pub const CORRECTNESS_SEED: u64 = 0xC0FF_EEC0_DEBE_EFFE;

pub const SPEED_SEED: u64 = 0x5EED_F1AC_BABE_FACE;

/// The name of a shape in reports.
pub open spec fn shape_name(shape: PostingShape) -> Seq<char> {
    "K="@ + decimal(shape.num_lists as nat)
}

pub fn format_shape(shape: &PostingShape) -> (r: String)
    ensures
        r@ == shape_name(*shape),
{
    let mut r: String = String::new();
    r.append("K=");
    append_decimal(&mut r, shape.num_lists as u64);
    r
}

/// The name of a distribution in reports.
pub open spec fn dist_name(dist: DataDistribution) -> Seq<char> {
    match dist {
        DataDistribution::Balanced => "balanced"@,
        DataDistribution::Skewed => "skewed"@,
        DataDistribution::Dense => "dense"@,
    }
}

pub fn format_dist(dist: &DataDistribution) -> (r: String)
    ensures
        r@ == dist_name(*dist),
        *dist is Balanced ==> r@ == "balanced"@,
        *dist is Skewed ==> r@ == "skewed"@,
        *dist is Dense ==> r@ == "dense"@,
{
    let name: &str = match dist {
        DataDistribution::Balanced => "balanced",
        DataDistribution::Skewed => "skewed",
        DataDistribution::Dense => "dense",
    };
    name.to_owned()
}

/// The report of a case on which kernel and reference differ.
pub open spec fn failure_report(shape: PostingShape, label: Seq<char>, diff: Seq<char>) -> Seq<
    char,
> {
    "case="@ + shape_name(shape) + "/"@ + label + " "@ + diff
}

pub fn format_failure(shape: &PostingShape, label: &str, diff: &String) -> (r: String)
    ensures
        r@ == failure_report(*shape, label@, diff@),
        r@ == "case="@ + shape_name(*shape) + "/"@ + label@ + " "@ + diff@,
{
    let mut r: String = String::new();
    r.append("case=");
    r.append(format_shape(shape).as_str());
    r.append("/");
    r.append(label);
    r.append(" ");
    r.append(diff.as_str());
    r
}

/// What comes of a case: `Ok` where the two results are equal, otherwise a report that names the
/// case and the first difference.
pub fn verdict(
    shape: &PostingShape,
    label: &str,
    agent: &[u32],
    reference: &[u32],
) -> (r: Result<(), String>)
    ensures
        r is Ok <==> agent@ == reference@,
        r matches Err(report) ==> exists|diff: Seq<char>|
            #[trigger] is_diff(agent@, reference@, Some(diff)) && report@ == failure_report(
                *shape,
                label@,
                diff,
            ),
{
    match intersections_diff(agent, reference) {
        Some(diff) => {
            assert(is_diff(agent@, reference@, Some(diff@)));
            Err(format_failure(shape, label, &diff))
        },
        None => Ok(()),
    }
}

/// Runs kernel and reference on one case. They agree on all sorted lists without duplicates.
pub fn check_case(case: &CorrectnessCase, kernel: &mut PostingIntersect) -> (r: Result<(), String>)
    requires
        sorted_unique_lists(case@.lists),
    ensures
        r is Ok,
        final(kernel).calls() == old(kernel).calls().push(case@.lists),
{
    let slices: Vec<&[u32]> = case.set.as_slices();
    let mut agent_out: Vec<u32> = Vec::new();
    let mut ref_out: Vec<u32> = Vec::new();
    kernel.intersect(slices.as_slice(), &mut agent_out);
    intersect_reference(slices.as_slice(), &mut ref_out);
    verdict(&case.shape, case.label, agent_out.as_slice(), ref_out.as_slice())
}

/// Runs kernel and reference on the whole battery. They agree on every case.
pub fn run_correctness() -> (r: Result<(), String>)
    ensures
        r is Ok,
{
    let cases: Vec<CorrectnessCase> = correctness_battery(CORRECTNESS_SEED);
    let mut kernel: PostingIntersect = PostingIntersect::new();
    proof {
        lemma_battery(CORRECTNESS_SEED);
    }
    let mut k: usize = 0;
    while k < cases.len()
        invariant
            k <= cases@.len(),
            case_models(cases@) == battery(CORRECTNESS_SEED),
            battery(CORRECTNESS_SEED).len() == 19,
            forall|i: int|
                0 <= i < 19 ==> sorted_unique_lists(
                    (#[trigger] battery(CORRECTNESS_SEED)[i]).lists,
                ),
        decreases cases@.len() - k,
    {
        assert(case_models(cases@)[k as int] == cases@[k as int]@);
        assert(battery(CORRECTNESS_SEED)[k as int] == cases@[k as int]@);
        check_case(&cases[k], &mut kernel)?;
        k += 1;
    }
    Ok(())
}

/// The report of one workload.
pub struct ComboReport {
    pub shape: PostingShape,
    pub dist: DataDistribution,
    pub geomean_ns: u64,
}

/// The report of a speed run: the figures over all workloads, the slowest and the fastest workload,
/// and every workload by itself.
pub struct SpeedReport {
    pub summary: Summary,
    pub worst_ns: u64,
    pub worst_shape: PostingShape,
    pub worst_dist: DataDistribution,
    pub best_ns: u64,
    pub best_shape: PostingShape,
    pub best_dist: DataDistribution,
    pub per_combo: Vec<ComboReport>,
}

/// The lists of every instance are sorted ascending without duplicates.
pub open spec fn sorted_instances(loads: Seq<SpeedWorkload>) -> bool {
    forall|i: int, k: int|
        0 <= i < loads.len() && 0 <= k < loads[i].instances@.len() ==> sorted_unique_lists(
            (#[trigger] loads[i].instances@[k])@,
        )
}

/// The generated workloads can be timed: their lists are sorted ascending without duplicates.
pub proof fn lemma_workloads_sorted(loads: Seq<SpeedWorkload>, seed: u64)
    requires
        workload_models(loads) == workloads(seed, 9),
    ensures
        sorted_instances(loads),
{
    lemma_workloads(seed);
    assert forall|i: int, k: int|
        0 <= i < loads.len() && 0 <= k < loads[i].instances@.len() implies sorted_unique_lists(
        (#[trigger] loads[i].instances@[k])@,
    ) by {
        assert(workload_models(loads)[i] == loads[i]@);
        assert(loads[i]@ == workloads(seed, 9)[i]);
        assert(loads[i]@.instances[k] == loads[i].instances@[k]@);
    }
}

/// The calls of timing window `w` of a workload: the intersections of `SPEED_BATCH` instances.
pub open spec fn window_calls(load: SpeedWorkload, w: int) -> Seq<Seq<Seq<u32>>> {
    Seq::new(SPEED_BATCH as nat, |k: int| load.instances@[w * SPEED_BATCH + k]@)
}

/// The timing windows of workload `combo`: one for every `SPEED_BATCH` instances.
pub open spec fn window_plan(load: SpeedWorkload, combo: int) -> Plan<Seq<Seq<u32>>> {
    Seq::new(
        load.instances@.len() / SPEED_BATCH as nat,
        |w: int| (combo, window_calls(load, w)),
    )
}

/// The timing windows of a run: in each pass those of all workloads, one after the other.
pub open spec fn speed_plan(loads: Seq<SpeedWorkload>, passes: nat) -> Plan<Seq<Seq<u32>>> {
    repeated(chained(window_plans(loads)), passes)
}

/// The timing windows of each workload.
pub open spec fn window_plans(loads: Seq<SpeedWorkload>) -> Seq<Plan<Seq<Seq<u32>>>> {
    Seq::new(loads.len(), |i: int| window_plan(loads[i], i))
}

/// Every instance of a workload is timed exactly once, in order, as far as full windows go: instance
/// `k` is call `k % SPEED_BATCH` of window `k / SPEED_BATCH`, all windows are of this workload and as
/// long as each other, and fewer instances than a window takes are left over.
pub proof fn lemma_every_instance_is_timed(load: SpeedWorkload, combo: int, w: int, k: int)
    requires
        0 <= w,
        0 <= k < SPEED_BATCH,
        (w + 1) * SPEED_BATCH <= load.instances@.len(),
    ensures
        window_plan(load, combo).len() * SPEED_BATCH <= load.instances@.len() < (window_plan(
            load,
            combo,
        ).len() + 1) * SPEED_BATCH,
        w < window_plan(load, combo).len(),
        window_plan(load, combo)[w].0 == combo,
        window_plan(load, combo)[w].1.len() == SPEED_BATCH,
        window_plan(load, combo)[w].1[k] == load.instances@[w * SPEED_BATCH + k]@,
{
}

/// A run goes through every window of every workload once in each pass: in a pass, the windows of a
/// workload come in order behind those of the workloads before it.
pub proof fn lemma_speed_plan(
    loads: Seq<SpeedWorkload>,
    passes: nat,
    pass: int,
    w: int,
    i: int,
)
    requires
        0 <= pass < passes,
        0 <= w < loads.len(),
        0 <= i < window_plan(loads[w], w).len(),
    ensures
        speed_plan(loads, passes).len() == passes * length_before(
            window_plans(loads),
            loads.len(),
        ),
        0 <= pass * length_before(window_plans(loads), loads.len()) + length_before(
            window_plans(loads),
            w as nat,
        ) + i < speed_plan(loads, passes).len(),
        speed_plan(loads, passes)[pass * length_before(window_plans(loads), loads.len())
            + length_before(window_plans(loads), w as nat) + i] == window_plan(loads[w], w)[i],
{
    let plans = window_plans(loads);
    assert(plans[w] == window_plan(loads[w], w));
    lemma_chained_at(plans, w, i);
    lemma_repeated(chained(plans), passes);
    lemma_repeated_at(
        chained(plans),
        passes,
        pass,
        length_before(plans, w as nat) + i,
    );
}

/// The slices of every instance.
fn instance_slices(load: &SpeedWorkload) -> (r: Vec<Vec<&[u32]>>)
    ensures
        r@.len() == load.instances@.len(),
        forall|k: int|
            0 <= k < r@.len() ==> contents((#[trigger] r@[k])@) == load.instances@[k]@,
{
    let mut r: Vec<Vec<&[u32]>> = Vec::with_capacity(load.instances.len());
    let mut k: usize = 0;
    while k < load.instances.len()
        invariant
            k <= load.instances@.len(),
            r@.len() == k,
            forall|i: int| 0 <= i < k ==> contents((#[trigger] r@[i])@) == load.instances@[i]@,
        decreases load.instances@.len() - k,
    {
        r.push(load.instances[k].as_slices());
        k += 1;
    }
    r
}

/// The lists of `count` instances from `base` on.
spec fn lists_from(slices: Seq<Vec<&[u32]>>, base: int, count: nat) -> Seq<Seq<Seq<u32>>> {
    Seq::new(count, |k: int| contents(slices[base + k]@))
}

/// Times one window: the intersections of `SPEED_BATCH` instances from `base` on, and nothing else,
/// are carried out between start and stop. The last of them is left in `out`.
fn time_window(
    kernel: &mut PostingIntersect,
    slices: &Vec<Vec<&[u32]>>,
    base: usize,
    out: &mut Vec<u32>,
    watch: &mut Stopwatch<Seq<Seq<u32>>>,
) -> (m: PerfMeasurement)
    requires
        base + SPEED_BATCH <= slices@.len(),
        forall|k: int|
            0 <= k < slices@.len() ==> sorted_unique_lists(contents((#[trigger] slices@[k])@)),
    ensures
        final(out)@ == intersection(contents(slices@[base + SPEED_BATCH - 1]@)),
        final(kernel).calls() == old(kernel).calls() + lists_from(
            slices@,
            base as int,
            SPEED_BATCH as nat,
        ),
        final(watch).windows() == old(watch).windows().push(
            Window {
                work: lists_from(slices@, base as int, SPEED_BATCH as nat),
                measurement: m,
            },
        ),
        final(watch).counters().history() == old(watch).counters().history().push(m),
        final(watch).counts() == old(watch).counts(),
        !old(watch).counts() ==> m.instructions is None && m.cycles is None,
{
    let ghost done = kernel.calls();
    watch.start(kernel);
    let mut k: usize = 0;
    assert(done + lists_from(slices@, base as int, 0) =~= done);
    while k < SPEED_BATCH
        invariant
            k <= SPEED_BATCH,
            base + SPEED_BATCH <= slices.len(),
            kernel.calls() == done + lists_from(slices@, base as int, k as nat),
            k > 0 ==> out@ == intersection(contents(slices@[base + k - 1]@)),
            forall|k: int|
                0 <= k < slices@.len() ==> sorted_unique_lists(
                    contents((#[trigger] slices@[k])@),
                ),
        decreases SPEED_BATCH - k,
    {
        kernel.intersect(slices[base + k].as_slice(), out);
        std::hint::black_box(&*out);
        k += 1;
        assert(kernel.calls() =~= done + lists_from(slices@, base as int, k as nat));
    }
    let m: PerfMeasurement = watch.stop(kernel);
    assert(kernel.calls().skip(done.len() as int) =~= lists_from(
        slices@,
        base as int,
        SPEED_BATCH as nat,
    ));
    m
}

/// Times one pass over a workload, after an untimed pass that warms the caches up.
fn time_workload(
    load: &SpeedWorkload,
    combo: usize,
    timings: &mut Timings,
    watch: &mut Stopwatch<Seq<Seq<u32>>>,
)
    requires
        combo < old(timings)@.per_combo.len(),
        forall|k: int|
            0 <= k < load.instances@.len() ==> sorted_unique_lists(
                (#[trigger] load.instances@[k])@,
            ),
    ensures
        went_through(
            window_plan(*load, combo as int),
            old(watch).counts(),
            old(timings)@,
            final(timings)@,
            old(watch).windows(),
            final(watch).windows(),
        ),
        final(timings)@.per_combo.len() == old(timings)@.per_combo.len(),
        final(watch).counts() == old(watch).counts(),
{
    let ghost before = timings@;
    let ghost pmc = watch.counts();
    let mut kernel: PostingIntersect = PostingIntersect::new();
    let mut out: Vec<u32> = Vec::new();
    let slices: Vec<Vec<&[u32]>> = instance_slices(load);
    let mut k: usize = 0;
    while k < slices.len()
        invariant
            k <= slices@.len(),
            forall|k: int|
                0 <= k < slices@.len() ==> sorted_unique_lists(
                    contents((#[trigger] slices@[k])@),
                ),
        decreases slices@.len() - k,
    {
        kernel.intersect(slices[k].as_slice(), &mut out);
        std::hint::black_box(&out);
        k += 1;
    }
    let n_windows: usize = slices.len() / SPEED_BATCH;
    let ghost plan = window_plan(*load, combo as int);
    let ghost timed = watch.windows();
    proof {
        lemma_stayed(pmc, before, timed);
        assert(plan.take(0) =~= Seq::empty());
    }
    let mut w: usize = 0;
    while w < n_windows
        invariant
            w <= n_windows,
            n_windows * SPEED_BATCH <= slices.len(),
            combo < before.per_combo.len(),
            forall|k: int|
                0 <= k < slices@.len() ==> sorted_unique_lists(
                    contents((#[trigger] slices@[k])@),
                ),
            slices@.len() == load.instances@.len(),
            forall|k: int|
                0 <= k < slices@.len() ==> contents((#[trigger] slices@[k])@)
                    == load.instances@[k]@,
            plan == window_plan(*load, combo as int),
            plan.len() == n_windows,
            timings@.per_combo.len() == before.per_combo.len(),
            went_through(plan.take(w as int), pmc, before, timings@, timed, watch.windows()),
            watch.counts() == pmc,
        decreases n_windows - w,
    {
        let ghost t = timings@;
        let ghost h = watch.windows();
        let m: PerfMeasurement = time_window(
            &mut kernel,
            &slices,
            w * SPEED_BATCH,
            &mut out,
            watch,
        );
        timings.record(combo, SPEED_BATCH as u64, m);
        proof {
            let calls = window_calls(*load, w as int);
            assert(lists_from(slices@, w * SPEED_BATCH, SPEED_BATCH as nat) =~= calls);
            let window = Window { work: calls, measurement: m };
            lemma_went_on(pmc, t, h, combo as int, window);
            lemma_went_further(
                plan.take(w as int),
                seq![(combo as int, calls)],
                pmc,
                (before, t, timings@),
                (timed, h, watch.windows()),
            );
            assert(plan.take(w + 1) =~= plan.take(w as int) + seq![(combo as int, calls)]);
        }
        w += 1;
    }
    assert(plan.take(w as int) =~= plan);
}

/// Times `passes` passes over the workloads with the given stopwatch. What is collected are the
/// measurements of its windows, which are those of the plan.
pub fn measure(
    workloads: &[SpeedWorkload],
    passes: usize,
    watch: &mut Stopwatch<Seq<Seq<u32>>>,
) -> (r: Timings)
    requires
        sorted_instances(workloads@),
    ensures
        went_through(
            speed_plan(workloads@, passes as nat),
            old(watch).counts(),
            no_timings(workloads@.len()),
            r@,
            old(watch).windows(),
            final(watch).windows(),
        ),
        r@.per_combo.len() == workloads@.len(),
        final(watch).counts() == old(watch).counts(),
{
    let mut timings: Timings = Timings::new(workloads.len());
    let ghost pmc = watch.counts();
    let ghost plans = window_plans(workloads@);
    let ghost start = timings@;
    let ghost timed = watch.windows();
    let mut pass: usize = 0;
    proof {
        lemma_stayed(pmc, start, timed);
    }
    while pass < passes
        invariant
            pass <= passes,
            sorted_instances(workloads@),
            plans == window_plans(workloads@),
            timings@.per_combo.len() == workloads@.len(),
            went_through(
                repeated(chained(plans), pass as nat),
                pmc,
                start,
                timings@,
                timed,
                watch.windows(),
            ),
            watch.counts() == pmc,
        decreases passes - pass,
    {
        let ghost before = timings@;
        let ghost before_timed = watch.windows();
        proof {
            lemma_stayed(pmc, before, before_timed);
            assert(chained(plans.take(0)) =~= Seq::empty());
        }
        let mut wi: usize = 0;
        while wi < workloads.len()
            invariant
                wi <= workloads@.len(),
                sorted_instances(workloads@),
                plans == window_plans(workloads@),
                timings@.per_combo.len() == workloads@.len(),
                went_through(
                    chained(plans.take(wi as int)),
                    pmc,
                    before,
                    timings@,
                    before_timed,
                    watch.windows(),
                ),
                watch.counts() == pmc,
            decreases workloads@.len() - wi,
        {
            let ghost t = timings@;
            let ghost h = watch.windows();
            time_workload(&workloads[wi], wi, &mut timings, watch);
            proof {
                lemma_went_further(
                    chained(plans.take(wi as int)),
                    plans[wi as int],
                    pmc,
                    (before, t, timings@),
                    (before_timed, h, watch.windows()),
                );
                assert(plans.take(wi + 1).drop_last() =~= plans.take(wi as int));
            }
            wi += 1;
        }
        proof {
            assert(plans.take(wi as int) =~= plans);
            lemma_went_further(
                repeated(chained(plans), pass as nat),
                chained(plans),
                pmc,
                (start, before, timings@),
                (timed, before_timed, watch.windows()),
            );
        }
        pass += 1;
    }
    timings
}

/// The workload that is named as the slowest: the first with the largest mean, or the first of all
/// combinations where no mean is above zero.
pub open spec fn is_worst_combo(
    loads: Seq<SpeedWorkload>,
    means: Seq<u64>,
    ns: u64,
    shape: PostingShape,
    dist: DataDistribution,
) -> bool {
    ||| exists|i: int| #[trigger]
        is_worst(means, i) && ns == means[i] && shape == loads[i].shape && dist
            == loads[i].distribution
    ||| (forall|i: int| 0 <= i < means.len() ==> means[i] == 0) && ns == 0 && shape
        == shape_list()[0] && dist == DISTRIBUTIONS@[0]
}

/// The workload that is named as the fastest: the first with the smallest mean, or the first of all
/// combinations where every mean is the largest number there is.
pub open spec fn is_best_combo(
    loads: Seq<SpeedWorkload>,
    means: Seq<u64>,
    ns: u64,
    shape: PostingShape,
    dist: DataDistribution,
) -> bool {
    ||| exists|i: int| #[trigger]
        is_best(means, i) && ns == means[i] && shape == loads[i].shape && dist
            == loads[i].distribution
    ||| (forall|i: int| 0 <= i < means.len() ==> means[i] == u64::MAX) && ns == u64::MAX && shape
        == shape_list()[0] && dist == DISTRIBUTIONS@[0]
}

/// The report gives the figures of the measurements.
pub open spec fn is_report<F: Fn(&[u64]) -> u64>(
    loads: Seq<SpeedWorkload>,
    t: TimingsModel,
    pmc: bool,
    exp_mean_ln: F,
    r: SpeedReport,
) -> bool {
    let means = Seq::new(r.per_combo@.len(), |i: int| r.per_combo@[i].geomean_ns);
    &&& is_summary(t, pmc, exp_mean_ln, r.summary)
    &&& are_combo_means(t, exp_mean_ln, means)
    &&& forall|i: int|
        0 <= i < r.per_combo@.len() ==> (#[trigger] r.per_combo@[i]).shape == loads[i].shape
            && r.per_combo@[i].dist == loads[i].distribution
    &&& is_worst_combo(loads, means, r.worst_ns, r.worst_shape, r.worst_dist)
    &&& is_best_combo(loads, means, r.best_ns, r.best_shape, r.best_dist)
}

/// A report has one line for each workload, with its shape, its distribution and the mean of its
/// times. No workload has a mean above the worst one or below the best one, and the two are named
/// with their workloads.
pub proof fn lemma_report<F: Fn(&[u64]) -> u64>(
    loads: Seq<SpeedWorkload>,
    t: TimingsModel,
    pmc: bool,
    exp_mean_ln: F,
    r: SpeedReport,
    i: int,
)
    requires
        is_report(loads, t, pmc, exp_mean_ln, r),
        t.per_combo.len() == loads.len(),
        0 <= i < loads.len(),
    ensures
        r.per_combo@.len() == loads.len(),
        r.per_combo@[i].shape == loads[i].shape,
        r.per_combo@[i].dist == loads[i].distribution,
        is_geomean(t.per_combo[i], exp_mean_ln, r.per_combo@[i].geomean_ns),
        r.best_ns <= r.per_combo@[i].geomean_ns <= r.worst_ns,
        r.worst_ns > 0 ==> exists|w: int|
            0 <= w < loads.len() && (#[trigger] r.per_combo@[w]).geomean_ns == r.worst_ns
                && loads[w].shape == r.worst_shape && loads[w].distribution == r.worst_dist,
        r.best_ns < u64::MAX ==> exists|b: int|
            0 <= b < loads.len() && (#[trigger] r.per_combo@[b]).geomean_ns == r.best_ns
                && loads[b].shape == r.best_shape && loads[b].distribution == r.best_dist,
        is_geomean(t.all, exp_mean_ln, r.summary.geomean_ns),
{
    let means = Seq::new(r.per_combo@.len(), |i: int| r.per_combo@[i].geomean_ns);
    assert(is_geomean(t.per_combo[i], exp_mean_ln, means[i]));
    if r.worst_ns > 0 {
        let w = choose|w: int| #[trigger]
            is_worst(means, w) && r.worst_ns == means[w] && r.worst_shape == loads[w].shape
                && r.worst_dist == loads[w].distribution;
        assert(r.per_combo@[w].geomean_ns == means[w]);
    }
    if r.best_ns < u64::MAX {
        let b = choose|b: int| #[trigger]
            is_best(means, b) && r.best_ns == means[b] && r.best_shape == loads[b].shape
                && r.best_dist == loads[b].distribution;
        assert(r.per_combo@[b].geomean_ns == means[b]);
    }
}

/// Draws the report up from the measurements. `pmc` tells whether there were hardware counters.
pub fn speed_report<F: Fn(&[u64]) -> u64>(
    workloads: &[SpeedWorkload],
    timings: &Timings,
    pmc: bool,
    exp_mean_ln: &F,
) -> (r: SpeedReport)
    requires
        accepts_samples(*exp_mean_ln),
        timings@.per_combo.len() == workloads@.len(),
    ensures
        is_report(workloads@, timings@, pmc, *exp_mean_ln, r),
        r.worst_ns == 0 ==> r.worst_shape == shape_list()[0] && r.worst_dist == DISTRIBUTIONS@[0],
        r.best_ns == u64::MAX ==> r.best_shape == shape_list()[0] && r.best_dist == DISTRIBUTIONS@[0],
        workloads@.len() == 0 ==> r.worst_ns == 0 && r.best_ns == u64::MAX,
{
    let means: Vec<u64> = combo_means(timings, exp_mean_ln);
    let mut per_combo: Vec<ComboReport> = Vec::with_capacity(workloads.len());
    let mut k: usize = 0;
    while k < workloads.len()
        invariant
            k <= workloads@.len(),
            means@.len() == workloads@.len(),
            per_combo@.len() == k,
            forall|i: int|
                0 <= i < k ==> (#[trigger] per_combo@[i]).shape == workloads@[i].shape
                    && per_combo@[i].dist == workloads@[i].distribution && per_combo@[i].geomean_ns
                    == means@[i],
        decreases workloads@.len() - k,
    {
        per_combo.push(
            ComboReport {
                shape: workloads[k].shape,
                dist: workloads[k].distribution,
                geomean_ns: means[k],
            },
        );
        k += 1;
    }
    assert(Seq::new(per_combo@.len(), |i: int| per_combo@[i].geomean_ns) =~= means@);
    let shapes: [PostingShape; 3] = shapes();
    let (worst_ns, worst_shape, worst_dist) = match worst_index(means.as_slice()) {
        Some(i) => (means[i], workloads[i].shape, workloads[i].distribution),
        None => (0, shapes[0], DISTRIBUTIONS[0]),
    };
    let (best_ns, best_shape, best_dist) = match best_index(means.as_slice()) {
        Some(i) => (means[i], workloads[i].shape, workloads[i].distribution),
        None => (u64::MAX, shapes[0], DISTRIBUTIONS[0]),
    };
    let summary: Summary = summarize(timings, pmc, exp_mean_ln);
    SpeedReport {
        summary,
        worst_ns,
        worst_shape,
        worst_dist,
        best_ns,
        best_shape,
        best_dist,
        per_combo,
    }
}

/// Times `passes` passes over the workloads with the given stopwatch, and reports. Each window of the
/// plan is timed once in each pass, its calls and no others between start and stop, and the report
/// gives the figures of what the measurements come to per call.
pub fn run_speed_with<F: Fn(&[u64]) -> u64>(
    workloads: &[SpeedWorkload],
    passes: usize,
    exp_mean_ln: F,
    watch: &mut Stopwatch<Seq<Seq<u32>>>,
) -> (r: SpeedReport)
    requires
        sorted_instances(workloads@),
        accepts_samples(exp_mean_ln),
    ensures
        old(watch).windows().is_prefix_of(final(watch).windows()),
        is_measured(
            speed_plan(workloads@, passes as nat),
            old(watch).counts(),
            final(watch).windows().skip(old(watch).windows().len() as int),
        ),
        is_report(
            workloads@,
            logged(
                no_timings(workloads@.len()),
                speed_plan(workloads@, passes as nat),
                final(watch).windows().skip(old(watch).windows().len() as int),
            ),
            old(watch).counts(),
            exp_mean_ln,
            r,
        ),
        final(watch).counts() == old(watch).counts(),
{
    let pmc: bool = watch.has_pmc();
    let timings: Timings = measure(workloads, passes, watch);
    speed_report(workloads, &timings, pmc, &exp_mean_ln)
}

/// Times `passes` passes over the workloads with a new stopwatch, and reports. There are
/// measurements of the windows of the plan, whose figures the report gives; which these are, and
/// whether there are counts among them, is up to the machine.
pub fn run_speed<F: Fn(&[u64]) -> u64>(
    workloads: &[SpeedWorkload],
    passes: usize,
    exp_mean_ln: F,
) -> (r: SpeedReport)
    requires
        sorted_instances(workloads@),
        accepts_samples(exp_mean_ln),
    ensures
        exists|ws: Seq<Window<Seq<Seq<u32>>>>, pmc: bool| #[trigger]
            is_measured(speed_plan(workloads@, passes as nat), pmc, ws) && is_report(
                workloads@,
                logged(
                    no_timings(workloads@.len()),
                    speed_plan(workloads@, passes as nat),
                    ws,
                ),
                pmc,
                exp_mean_ln,
                r,
            ),
{
    let mut watch: Stopwatch<Seq<Seq<u32>>> = Stopwatch::new();
    run_speed_with(workloads, passes, exp_mean_ln, &mut watch)
}

} // verus!
