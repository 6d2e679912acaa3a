//! Holding the kernel against the reference, and timing it.
use vstd::prelude::*;
use vstd::string::StringExecFns;

use crate::perf::PerfMeasurement;
use crate::posting_seek::inputs::{
    correctness_battery, is_seek, replay, shape_list, shapes, CorrectnessCase, SeekOp, SeekPattern,
    SpeedWorkload, PATTERNS,
};
use crate::posting_seek::kernels::{PostingSeek, SeekCall};
use crate::posting_seek::reference::{is_diff, seek_results_diff, PostingSeekReference};
use crate::posting_seek::{seek_to, PostingShape};
use crate::stats::{accepts_samples, is_geomean};
use crate::stopwatch::{Stopwatch, Window, Worker};
use crate::text::{append_decimal, decimal};
use crate::timing::{
    are_combo_means, best_index, chained, combo_means, is_best, is_measured, is_summary, is_worst,
    lemma_chained_at, lemma_chained_first, lemma_repeated, lemma_repeated_at, lemma_stayed,
    lemma_went_further, lemma_went_on, length_before, logged, no_timings, repeated, summarize,
    went_through, worst_index, Plan, Summary, Timings, TimingsModel,
};

verus! {

/// The seeds of the battery and of the workloads.
pub const CORRECTNESS_SEED: u64 = 0xC0FF_EEC0_DEBE_EFFE;

pub const SPEED_SEED: u64 = 0x5EED_F1AC_BABE_FACE;

/// How many seeks one timing window spans at most.
pub const BATCH: usize = 32;

/// The name of a shape in reports.
pub open spec fn shape_name(shape: PostingShape) -> Seq<char> {
    if shape.num_blocks == 100 {
        "Small"@
    } else if shape.num_blocks == 10_000 {
        "Medium"@
    } else if shape.num_blocks == 80_000 {
        "Large"@
    } else {
        "blocks="@ + decimal(shape.num_blocks as nat)
    }
}

pub fn format_shape(shape: &PostingShape) -> (r: String)
    ensures
        r@ == shape_name(*shape),
        shape.num_blocks == 100 ==> r@ == "Small"@,
        shape.num_blocks == 10_000 ==> r@ == "Medium"@,
        shape.num_blocks == 80_000 ==> r@ == "Large"@,
        shape.num_blocks != 100 && shape.num_blocks != 10_000 && shape.num_blocks != 80_000 ==> r@
            == "blocks="@ + decimal(shape.num_blocks as nat),
{
    if shape.num_blocks == 100 {
        "Small".to_owned()
    } else if shape.num_blocks == 10_000 {
        "Medium".to_owned()
    } else if shape.num_blocks == 80_000 {
        "Large".to_owned()
    } else {
        let mut r: String = String::new();
        r.append("blocks=");
        append_decimal(&mut r, shape.num_blocks as u64);
        r
    }
}

/// The name of a pattern in reports.
pub open spec fn pattern_name(pattern: SeekPattern) -> Seq<char> {
    match pattern {
        SeekPattern::Sequential => "sequential"@,
        SeekPattern::SkipShallow => "skip_shallow"@,
        SeekPattern::SkipDeep => "skip_deep"@,
    }
}

pub fn format_pattern(pattern: &SeekPattern) -> (r: String)
    ensures
        r@ == pattern_name(*pattern),
        *pattern is Sequential ==> r@ == "sequential"@,
        *pattern is SkipShallow ==> r@ == "skip_shallow"@,
        *pattern is SkipDeep ==> r@ == "skip_deep"@,
{
    let name: &str = match pattern {
        SeekPattern::Sequential => "sequential",
        SeekPattern::SkipShallow => "skip_shallow",
        SeekPattern::SkipDeep => "skip_deep",
    };
    name.to_owned()
}

/// The report of a case on which kernel and reference differ.
pub open spec fn failure_report(shape: PostingShape, label: Seq<char>, diff: Seq<char>) -> Seq<
    char,
> {
    "case="@ + shape_name(shape) + "/"@ + label + " "@ + diff
}

pub fn format_failure(shape: &PostingShape, label: &str, diff: &String) -> (r: String)
    ensures
        r@ == failure_report(*shape, label@, diff@),
        r@ == "case="@ + shape_name(*shape) + "/"@ + label@ + " "@ + diff@,
{
    let mut r: String = String::new();
    r.append("case=");
    r.append(format_shape(shape).as_str());
    r.append("/");
    r.append(label);
    r.append(" ");
    r.append(diff.as_str());
    r
}

/// What comes of a case: `Ok` where the two sequences of results are equal, otherwise a report that
/// names the case and the first difference.
pub fn verdict(
    shape: &PostingShape,
    label: &str,
    agent: &[Option<u32>],
    reference: &[Option<u32>],
) -> (r: Result<(), String>)
    ensures
        r is Ok <==> agent@ == reference@,
        r matches Err(report) ==> exists|diff: Seq<char>|
            #[trigger] is_diff(agent@, reference@, Some(diff)) && report@ == failure_report(
                *shape,
                label@,
                diff,
            ),
{
    match seek_results_diff(agent, reference) {
        Some(diff) => {
            assert(is_diff(agent@, reference@, Some(diff@)));
            Err(format_failure(shape, label, &diff))
        },
        None => Ok(()),
    }
}

/// Carries out the operations with the kernel and with the reference, and gives the results of
/// both.
pub fn replay_both(case: &CorrectnessCase) -> (r: (Vec<Option<u32>>, Vec<Option<u32>>))
    ensures
        r.0@ == replay(case@.docs, case@.ops).0,
        r.1@ == replay(case@.docs, case@.ops).0,
{
    let mut agent: PostingSeek = PostingSeek::new(&case.list);
    let mut reference: PostingSeekReference = PostingSeekReference::new(&case.list);
    let mut agent_results: Vec<Option<u32>> = Vec::new();
    let mut ref_results: Vec<Option<u32>> = Vec::new();
    let mut k: usize = 0;
    while k < case.ops.len()
        invariant
            k <= case.ops@.len(),
            agent.docs() == case.list@,
            reference.docs() == case.list@,
            agent_results@ == replay(case.list@, case.ops@.take(k as int)).0,
            agent.position() == replay(case.list@, case.ops@.take(k as int)).1,
            ref_results@ == replay(case.list@, case.ops@.take(k as int)).0,
            reference.position() == replay(case.list@, case.ops@.take(k as int)).1,
        decreases case.ops@.len() - k,
    {
        assert(case.ops@.take(k + 1).drop_last() =~= case.ops@.take(k as int));
        match case.ops[k] {
            SeekOp::Reset => {
                agent.reset();
                reference.reset();
            },
            SeekOp::Seek(least_id) => {
                agent_results.push(agent.next(least_id));
                ref_results.push(reference.next(least_id));
            },
        }
        k += 1;
    }
    assert(case.ops@.take(k as int) =~= case.ops@);
    (agent_results, ref_results)
}

/// Runs kernel and reference on the whole battery. They agree on every case.
pub fn run_correctness() -> (r: Result<(), String>)
    ensures
        r is Ok,
{
    let cases: Vec<CorrectnessCase> = correctness_battery(CORRECTNESS_SEED);
    let mut k: usize = 0;
    while k < cases.len()
        invariant
            k <= cases@.len(),
        decreases cases@.len() - k,
    {
        let (agent, reference) = replay_both(&cases[k]);
        verdict(&cases[k].shape, cases[k].label, agent.as_slice(), reference.as_slice())?;
        k += 1;
    }
    Ok(())
}

/// The next seek from `from` on.
pub open spec fn first_seek(ops: Seq<SeekOp>, from: int) -> int
    decreases ops.len() - from,
{
    if from >= ops.len() || ops[from] is Seek {
        from
    } else {
        first_seek(ops, from + 1)
    }
}

/// Where a batch ends that begins at `from`: before the next reset, or after `room` seeks.
pub open spec fn batch_end(ops: Seq<SeekOp>, from: int, room: nat) -> int
    decreases room,
{
    if from >= ops.len() || room == 0 || ops[from] is Reset {
        from
    } else {
        batch_end(ops, from + 1, (room - 1) as nat)
    }
}

/// The targets of the seeks from `from` to `to`.
pub open spec fn targets(ops: Seq<SeekOp>, from: int, to: int) -> Seq<u32> {
    Seq::new((to - from) as nat, |i: int| ops[from + i]->Seek_0)
}

/// Collects the targets of the next batch of at most [`BATCH`] seeks. Resets before the batch are
/// passed over, and a reset ends it. Gives the place behind the batch, and whether there was a
/// reset before it.
pub fn next_batch(ops: &[SeekOp], from: usize, batch: &mut Vec<u32>) -> (r: (usize, bool))
    requires
        from <= ops@.len(),
    ensures
        ({
            let begin = first_seek(ops@, from as int);
            let end = batch_end(ops@, begin, BATCH as nat);
            &&& from <= begin <= end <= ops@.len()
            &&& r.0 == end
            &&& r.1 <==> begin > from
            &&& final(batch)@ == targets(ops@, begin, end)
            &&& begin < ops@.len() ==> end > begin
        }),
        ({
            let begin = r.0 - final(batch)@.len();
            &&& from <= begin <= r.0 <= ops@.len()
            &&& final(batch)@.len() <= BATCH
            &&& forall|k: int| from <= k < begin ==> #[trigger] ops@[k] is Reset
            &&& forall|k: int|
                begin <= k < r.0 ==> #[trigger] ops@[k] == SeekOp::Seek(final(batch)@[k - begin])
            &&& final(batch)@.len() == BATCH || r.0 == ops@.len() || ops@[r.0 as int] is Reset
            &&& final(batch)@.len() == 0 ==> r.0 == ops@.len()
            &&& r.1 <==> begin > from
        }),
{
    batch.clear();
    let mut i: usize = from;
    while i < ops.len() && is_reset(&ops[i])
        invariant
            from <= i <= ops@.len(),
            first_seek(ops@, from as int) == first_seek(ops@, i as int),
            forall|k: int| from <= k < i ==> #[trigger] ops@[k] is Reset,
        decreases ops@.len() - i,
    {
        i += 1;
    }
    let begin: usize = i;
    let ghost end = batch_end(ops@, begin as int, BATCH as nat);
    while i < ops.len() && batch.len() < BATCH && !is_reset(&ops[i])
        invariant
            begin <= i <= ops@.len(),
            batch@.len() == i - begin,
            batch@.len() <= BATCH,
            batch@ == targets(ops@, begin as int, i as int),
            forall|k: int| begin <= k < i ==> #[trigger] ops@[k] is Seek,
            end == batch_end(ops@, i as int, (BATCH - (i - begin)) as nat),
        decreases ops@.len() - i,
    {
        if let SeekOp::Seek(id) = ops[i] {
            batch.push(id);
        }
        i += 1;
        assert(batch@ =~= targets(ops@, begin as int, i as int));
    }
    (i, begin > from)
}

fn is_reset(op: &SeekOp) -> (r: bool)
    ensures
        r <==> *op is Reset,
{
    match op {
        SeekOp::Reset => true,
        SeekOp::Seek(_) => false,
    }
}

/// The seeks from `begin` to `end` of a cursor that carries out the operations from the first on.
pub open spec fn batch_calls(docs: Seq<u32>, ops: Seq<SeekOp>, begin: int, end: int) -> Seq<
    SeekCall,
> {
    Seq::new(
        (end - begin) as nat,
        |i: int|
            SeekCall {
                docs,
                from: replay(docs, ops.take(begin + i)).1,
                least_id: ops[begin + i]->Seek_0,
            },
    )
}

/// The timing windows from `from` on, of workload `combo`: one for each batch.
pub open spec fn batch_plan(docs: Seq<u32>, ops: Seq<SeekOp>, from: int, combo: int) -> Plan<
    SeekCall,
>
    decreases ops.len() - from,
{
    let begin = first_seek(ops, from);
    let end = batch_end(ops, begin, BATCH as nat);
    if begin < ops.len() && from < end <= ops.len() {
        seq![(combo, batch_calls(docs, ops, begin, end))] + batch_plan(docs, ops, end, combo)
    } else {
        Seq::empty()
    }
}

/// The seeks from place `from` on of a cursor that carries out the operations from the first on: each
/// from where the operations before it have led.
pub open spec fn calls_from(docs: Seq<u32>, ops: Seq<SeekOp>, from: int) -> Seq<SeekCall>
    decreases ops.len() - from,
{
    if from >= ops.len() {
        Seq::empty()
    } else {
        match ops[from] {
            SeekOp::Reset => calls_from(docs, ops, from + 1),
            SeekOp::Seek(least_id) => seq![
                SeekCall { docs, from: replay(docs, ops.take(from)).1, least_id },
            ] + calls_from(docs, ops, from + 1),
        }
    }
}

/// The calls of the windows of a plan.
pub open spec fn timed_calls(plan: Plan<SeekCall>) -> Seq<Seq<SeekCall>> {
    Seq::new(plan.len(), |i: int| plan[i].1)
}

/// There are as many calls as there are seeks among the operations.
proof fn lemma_calls_from(docs: Seq<u32>, ops: Seq<SeekOp>, from: int)
    requires
        0 <= from <= ops.len(),
    ensures
        calls_from(docs, ops, from).len() == ops.skip(from).filter(is_seek()).len(),
    decreases ops.len() - from,
{
    reveal(Seq::filter);
    let rest = ops.skip(from);
    if from < ops.len() {
        lemma_calls_from(docs, ops, from + 1);
        let head = seq![ops[from]];
        let tail = ops.skip(from + 1);
        assert(rest =~= head + tail);
        Seq::filter_distributes_over_add(head, tail, is_seek());
        assert(head.drop_last() =~= Seq::empty());
        assert(head.drop_last().filter(is_seek()) =~= Seq::empty());
        if ops[from] is Seek {
            assert(head.filter(is_seek()).len() == 1);
        } else {
            assert(head.filter(is_seek()).len() == 0);
        }
    }
}

proof fn lemma_calls_of_batch(docs: Seq<u32>, ops: Seq<SeekOp>, begin: int, end: int)
    requires
        0 <= begin <= end <= ops.len(),
        forall|k: int| begin <= k < end ==> #[trigger] ops[k] is Seek,
    ensures
        calls_from(docs, ops, begin) == batch_calls(docs, ops, begin, end) + calls_from(
            docs,
            ops,
            end,
        ),
    decreases end - begin,
{
    let batch = batch_calls(docs, ops, begin, end);
    if begin < end {
        lemma_calls_of_batch(docs, ops, begin + 1, end);
        assert(ops[begin] is Seek);
        let rest = batch_calls(docs, ops, begin + 1, end);
        assert(batch =~= seq![batch[0]] + rest);
        assert((seq![batch[0]] + rest) + calls_from(docs, ops, end) =~= seq![batch[0]] + (rest
            + calls_from(docs, ops, end)));
    } else {
        assert(batch + calls_from(docs, ops, end) =~= calls_from(docs, ops, end));
    }
}

proof fn lemma_calls_past_resets(docs: Seq<u32>, ops: Seq<SeekOp>, from: int)
    requires
        0 <= from <= ops.len(),
    ensures
        from <= first_seek(ops, from) <= ops.len(),
        calls_from(docs, ops, from) == calls_from(docs, ops, first_seek(ops, from)),
        first_seek(ops, from) < ops.len() ==> ops[first_seek(ops, from)] is Seek,
    decreases ops.len() - from,
{
    if from < ops.len() && ops[from] is Reset {
        lemma_calls_past_resets(docs, ops, from + 1);
    }
}

proof fn lemma_batches(docs: Seq<u32>, ops: Seq<SeekOp>, from: int, combo: int)
    requires
        0 <= from <= ops.len(),
    ensures
        chained(timed_calls(batch_plan(docs, ops, from, combo))) == calls_from(docs, ops, from),
        forall|i: int|
            0 <= i < batch_plan(docs, ops, from, combo).len() ==> (#[trigger] batch_plan(
                docs,
                ops,
                from,
                combo,
            )[i]).0 == combo && 0 < batch_plan(docs, ops, from, combo)[i].1.len() <= BATCH,
    decreases ops.len() - from,
{
    let begin = first_seek(ops, from);
    let end = batch_end(ops, begin, BATCH as nat);
    let plan = batch_plan(docs, ops, from, combo);
    lemma_calls_past_resets(docs, ops, from);
    lemma_batch(ops, begin, BATCH as nat);
    lemma_batch_room(ops, begin, BATCH as nat);
    if begin < ops.len() {
        assert(from < end <= ops.len());
        lemma_batches(docs, ops, end, combo);
        lemma_calls_of_batch(docs, ops, begin, end);
        let rest = batch_plan(docs, ops, end, combo);
        let calls = batch_calls(docs, ops, begin, end);
        assert(timed_calls(plan) =~= seq![calls] + timed_calls(rest));
        lemma_chained_first(calls, timed_calls(rest));
        assert forall|i: int| 0 <= i < plan.len() implies (#[trigger] plan[i]).0 == combo && 0
            < plan[i].1.len() <= BATCH by {
            if i > 0 {
                assert(plan[i] == rest[i - 1]);
            }
        }
    } else {
        assert(timed_calls(plan) =~= Seq::empty());
    }
}

proof fn lemma_batch_room(ops: Seq<SeekOp>, from: int, room: nat)
    requires
        0 <= from <= ops.len(),
    ensures
        batch_end(ops, from, room) <= from + room,
        from < ops.len() && room > 0 && ops[from] is Seek ==> batch_end(ops, from, room) > from,
    decreases room,
{
    if from < ops.len() && room > 0 && ops[from] is Seek {
        lemma_batch_room(ops, from + 1, (room - 1) as nat);
        lemma_batch(ops, from + 1, (room - 1) as nat);
    }
}

/// Every seek of a workload is timed exactly once, in order and from where the operations before it
/// have led: the calls of the windows, one behind the other, are the seeks. Every window is of this
/// workload and spans a seek at least and a batch at most.
pub proof fn lemma_every_seek_is_timed(docs: Seq<u32>, ops: Seq<SeekOp>, combo: int)
    ensures
        chained(timed_calls(batch_plan(docs, ops, 0, combo))) == calls_from(docs, ops, 0),
        calls_from(docs, ops, 0).len() == ops.filter(is_seek()).len(),
        forall|i: int|
            0 <= i < batch_plan(docs, ops, 0, combo).len() ==> (#[trigger] batch_plan(
                docs,
                ops,
                0,
                combo,
            )[i]).0 == combo && 0 < batch_plan(docs, ops, 0, combo)[i].1.len() <= BATCH,
{
    lemma_batches(docs, ops, 0, combo);
    lemma_calls_from(docs, ops, 0);
    assert(ops.skip(0) =~= ops);
}

/// The report of one workload.
pub struct ComboReport {
    pub shape: PostingShape,
    pub pattern: SeekPattern,
    pub geomean_ns: u64,
}

/// The report of a speed run: the figures over all workloads, the slowest and the fastest workload,
/// and every workload by itself.
pub struct SpeedReport {
    pub summary: Summary,
    pub worst_ns: u64,
    pub worst_shape: PostingShape,
    pub worst_pattern: SeekPattern,
    pub best_ns: u64,
    pub best_shape: PostingShape,
    pub best_pattern: SeekPattern,
    pub per_combo: Vec<ComboReport>,
}

/// The timing windows of each workload.
pub open spec fn window_plans(loads: Seq<SpeedWorkload>) -> Seq<Plan<SeekCall>> {
    Seq::new(loads.len(), |i: int| batch_plan(loads[i].list@, loads[i].ops@, 0, i))
}

/// The timing windows of a run: in each pass those of all workloads, one after the other.
pub open spec fn speed_plan(loads: Seq<SpeedWorkload>, passes: nat) -> Plan<SeekCall> {
    repeated(chained(window_plans(loads)), passes)
}

/// A run goes through every window of every workload once in each pass: in a pass, the windows of a
/// workload come in order behind those of the workloads before it.
pub proof fn lemma_speed_plan(
    loads: Seq<SpeedWorkload>,
    passes: nat,
    pass: int,
    w: int,
    i: int,
)
    requires
        0 <= pass < passes,
        0 <= w < loads.len(),
        0 <= i < batch_plan(loads[w].list@, loads[w].ops@, 0, w).len(),
    ensures
        speed_plan(loads, passes).len() == passes * length_before(
            window_plans(loads),
            loads.len(),
        ),
        0 <= pass * length_before(window_plans(loads), loads.len()) + length_before(
            window_plans(loads),
            w as nat,
        ) + i < speed_plan(loads, passes).len(),
        speed_plan(loads, passes)[pass * length_before(window_plans(loads), loads.len())
            + length_before(window_plans(loads), w as nat) + i] == batch_plan(
            loads[w].list@,
            loads[w].ops@,
            0,
            w,
        )[i],
{
    let plans = window_plans(loads);
    assert(plans[w] == batch_plan(loads[w].list@, loads[w].ops@, 0, w));
    lemma_chained_at(plans, w, i);
    lemma_repeated(chained(plans), passes);
    lemma_repeated_at(
        chained(plans),
        passes,
        pass,
        length_before(plans, w as nat) + i,
    );
}

/// Where a cursor arrives that stands at `from` and seeks the ids one after the other.
pub open spec fn seek_all(docs: Seq<u32>, from: int, ids: Seq<u32>) -> int
    decreases ids.len(),
{
    if ids.len() == 0 {
        from
    } else {
        seek_to(docs, seek_all(docs, from, ids.drop_last()), ids.last())
    }
}

/// The seeks of a cursor that stands at `from` and seeks the ids one after the other.
pub open spec fn seeks(docs: Seq<u32>, from: int, ids: Seq<u32>) -> Seq<SeekCall> {
    Seq::new(
        ids.len(),
        |i: int| SeekCall { docs, from: seek_all(docs, from, ids.take(i)), least_id: ids[i] },
    )
}

/// Passing over resets, and not seeking at all, leads to the start or leaves the cursor where it is.
proof fn lemma_resets(docs: Seq<u32>, ops: Seq<SeekOp>, from: int)
    requires
        0 <= from <= ops.len(),
    ensures
        from <= first_seek(ops, from) <= ops.len(),
        replay(docs, ops.take(first_seek(ops, from))).1 == if first_seek(ops, from) > from {
            0
        } else {
            replay(docs, ops.take(from)).1
        },
    decreases ops.len() - from,
{
    if from < ops.len() && ops[from] is Reset {
        lemma_resets(docs, ops, from + 1);
        assert(ops.take(from + 1).drop_last() =~= ops.take(from));
        assert(replay(docs, ops.take(from + 1)).1 == 0);
    }
}

/// A batch consists of seeks.
proof fn lemma_batch(ops: Seq<SeekOp>, from: int, room: nat)
    requires
        0 <= from <= ops.len(),
    ensures
        from <= batch_end(ops, from, room) <= ops.len(),
        forall|i: int| from <= i < batch_end(ops, from, room) ==> #[trigger] ops[i] is Seek,
    decreases room,
{
    if from < ops.len() && room > 0 && ops[from] is Seek {
        lemma_batch(ops, from + 1, (room - 1) as nat);
    }
}

/// Seeking the targets of operations leads where the operations lead.
proof fn lemma_seek_all(docs: Seq<u32>, ops: Seq<SeekOp>, begin: int, end: int, i: int)
    requires
        0 <= begin <= begin + i <= end <= ops.len(),
        0 <= i,
        forall|k: int| begin <= k < end ==> #[trigger] ops[k] is Seek,
    ensures
        seek_all(
            docs,
            replay(docs, ops.take(begin)).1,
            targets(ops, begin, end).take(i),
        ) == replay(docs, ops.take(begin + i)).1,
    decreases i,
{
    if i > 0 {
        lemma_seek_all(docs, ops, begin, end, i - 1);
        let ids = targets(ops, begin, end).take(i);
        assert(ids.drop_last() =~= targets(ops, begin, end).take(i - 1));
        assert(ops.take(begin + i).drop_last() =~= ops.take(begin + i - 1));
        assert(ops[begin + i - 1] is Seek);
    }
}

/// Times one window: the seeks of a batch, and nothing else, are carried out between start and stop.
/// They move the cursor on.
fn time_window(
    kernel: &mut PostingSeek,
    batch: &Vec<u32>,
    watch: &mut Stopwatch<SeekCall>,
) -> (m: PerfMeasurement)
    ensures
        final(kernel).docs() == old(kernel).docs(),
        final(kernel).position() == seek_all(
            old(kernel).docs(),
            old(kernel).position(),
            batch@,
        ),
        final(kernel).calls() == old(kernel).calls() + seeks(
            old(kernel).docs(),
            old(kernel).position(),
            batch@,
        ),
        final(watch).windows() == old(watch).windows().push(
            Window {
                work: seeks(old(kernel).docs(), old(kernel).position(), batch@),
                measurement: m,
            },
        ),
        final(watch).counters().history() == old(watch).counters().history().push(m),
        final(watch).counts() == old(watch).counts(),
        !old(watch).counts() ==> m.instructions is None && m.cycles is None,
{
    let ghost docs = kernel.docs();
    let ghost from = kernel.position();
    let ghost done = kernel.calls();
    watch.start(kernel);
    let mut k: usize = 0;
    assert(done + seeks(docs, from, batch@.take(0)) =~= done);
    while k < batch.len()
        invariant
            k <= batch@.len(),
            kernel.docs() == docs,
            kernel.position() == seek_all(docs, from, batch@.take(k as int)),
            kernel.calls() == done + seeks(docs, from, batch@.take(k as int)),
        decreases batch@.len() - k,
    {
        proof {
            let ids = batch@.take(k as int);
            let more = batch@.take(k + 1);
            assert(more.drop_last() =~= ids);
            let call = SeekCall { docs, from: kernel.position(), least_id: batch@[k as int] };
            assert(more.take(k as int) =~= ids);
            assert forall|i: int| 0 <= i < k implies more.take(i) == #[trigger] ids.take(i) by {
                assert(more.take(i) =~= ids.take(i));
            }
            assert(seeks(docs, from, more) =~= seeks(docs, from, ids).push(call));
            assert((done + seeks(docs, from, ids)).push(call) =~= done + seeks(docs, from, more));
        }
        std::hint::black_box(kernel.next(batch[k]));
        k += 1;
    }
    assert(batch@.take(k as int) =~= batch@);
    let m: PerfMeasurement = watch.stop(kernel);
    assert(kernel.calls().skip(done.len() as int) =~= seeks(docs, from, batch@));
    m
}

/// Times one pass over a workload, after an untimed pass that warms the caches up. Resets happen
/// between the windows.
fn time_workload(
    load: &SpeedWorkload,
    combo: usize,
    timings: &mut Timings,
    watch: &mut Stopwatch<SeekCall>,
)
    requires
        combo < old(timings)@.per_combo.len(),
    ensures
        went_through(
            batch_plan(load.list@, load.ops@, 0, combo as int),
            old(watch).counts(),
            old(timings)@,
            final(timings)@,
            old(watch).windows(),
            final(watch).windows(),
        ),
        final(timings)@.per_combo.len() == old(timings)@.per_combo.len(),
        final(watch).counts() == old(watch).counts(),
{
    let ghost before = timings@;
    let ghost pmc = watch.counts();
    let ghost docs = load.list@;
    let ghost ops = load.ops@;
    let mut kernel: PostingSeek = PostingSeek::new(&load.list);
    let mut k: usize = 0;
    while k < load.ops.len()
        invariant
            k <= load.ops@.len(),
            kernel.docs() == docs,
        decreases load.ops@.len() - k,
    {
        match load.ops[k] {
            SeekOp::Reset => kernel.reset(),
            SeekOp::Seek(id) => {
                std::hint::black_box(kernel.next(id));
            },
        }
        k += 1;
    }
    kernel.reset();
    let mut batch: Vec<u32> = Vec::with_capacity(BATCH);
    let ghost whole = batch_plan(docs, ops, 0, combo as int);
    let ghost mut plan: Plan<SeekCall> = Seq::empty();
    let ghost timed = watch.windows();
    proof {
        lemma_stayed(pmc, before, timed);
        assert(plan + whole =~= whole);
    }
    let mut i: usize = 0;
    while i < load.ops.len()
        invariant
            i <= load.ops@.len(),
            docs == load.list@,
            ops == load.ops@,
            kernel.docs() == docs,
            kernel.position() == replay(docs, ops.take(i as int)).1,
            combo < before.per_combo.len(),
            timings@.per_combo.len() == before.per_combo.len(),
            plan + batch_plan(docs, ops, i as int, combo as int) == whole,
            went_through(plan, pmc, before, timings@, timed, watch.windows()),
            watch.counts() == pmc,
        decreases load.ops@.len() - i,
    {
        let (end, reset) = next_batch(load.ops.as_slice(), i, &mut batch);
        let ghost begin = first_seek(ops, i as int);
        proof {
            lemma_resets(docs, ops, i as int);
            lemma_batch(ops, begin, BATCH as nat);
            lemma_seek_all(docs, ops, begin, end as int, end - begin);
            assert(batch@.take(batch@.len() as int) =~= batch@);
        }
        if reset {
            kernel.reset();
        }
        if batch.len() > 0 {
            let ghost t = timings@;
            let ghost h = watch.windows();
            let ghost calls = batch_calls(docs, ops, begin, end as int);
            proof {
                let made = seeks(docs, kernel.position(), batch@);
                assert forall|k: int| 0 <= k < made.len() implies #[trigger] made[k]
                    == calls[k] by {
                    lemma_seek_all(docs, ops, begin, end as int, k);
                }
                assert(made =~= calls);
            }
            let m: PerfMeasurement = time_window(&mut kernel, &batch, watch);
            timings.record(combo, batch.len() as u64, m);
            proof {
                lemma_went_on(pmc, t, h, combo as int, Window { work: calls, measurement: m });
                let window = seq![(combo as int, calls)];
                lemma_went_further(
                    plan,
                    window,
                    pmc,
                    (before, t, timings@),
                    (timed, h, watch.windows()),
                );
                let rest = batch_plan(docs, ops, end as int, combo as int);
                assert(plan + (window + rest) =~= (plan + window) + rest);
                plan = plan + window;
            }
        }
        i = end;
    }
    proof {
        assert(batch_plan(docs, ops, i as int, combo as int) =~= Seq::empty());
        assert(plan =~= whole);
    }
}

/// Times `passes` passes over the workloads with the given stopwatch. What is collected are the
/// measurements of its windows, which are those of the plan.
pub fn measure(
    workloads: &[SpeedWorkload],
    passes: usize,
    watch: &mut Stopwatch<SeekCall>,
) -> (r: Timings)
    ensures
        went_through(
            speed_plan(workloads@, passes as nat),
            old(watch).counts(),
            no_timings(workloads@.len()),
            r@,
            old(watch).windows(),
            final(watch).windows(),
        ),
        r@.per_combo.len() == workloads@.len(),
        final(watch).counts() == old(watch).counts(),
{
    let mut timings: Timings = Timings::new(workloads.len());
    let ghost pmc = watch.counts();
    let ghost plans = window_plans(workloads@);
    let ghost start = timings@;
    let ghost timed = watch.windows();
    let mut pass: usize = 0;
    proof {
        lemma_stayed(pmc, start, timed);
    }
    while pass < passes
        invariant
            pass <= passes,
            plans == window_plans(workloads@),
            timings@.per_combo.len() == workloads@.len(),
            went_through(
                repeated(chained(plans), pass as nat),
                pmc,
                start,
                timings@,
                timed,
                watch.windows(),
            ),
            watch.counts() == pmc,
        decreases passes - pass,
    {
        let ghost before = timings@;
        let ghost before_timed = watch.windows();
        proof {
            lemma_stayed(pmc, before, before_timed);
            assert(chained(plans.take(0)) =~= Seq::empty());
        }
        let mut wi: usize = 0;
        while wi < workloads.len()
            invariant
                wi <= workloads@.len(),
                plans == window_plans(workloads@),
                timings@.per_combo.len() == workloads@.len(),
                went_through(
                    chained(plans.take(wi as int)),
                    pmc,
                    before,
                    timings@,
                    before_timed,
                    watch.windows(),
                ),
                watch.counts() == pmc,
            decreases workloads@.len() - wi,
        {
            let ghost t = timings@;
            let ghost h = watch.windows();
            time_workload(&workloads[wi], wi, &mut timings, watch);
            proof {
                lemma_went_further(
                    chained(plans.take(wi as int)),
                    plans[wi as int],
                    pmc,
                    (before, t, timings@),
                    (before_timed, h, watch.windows()),
                );
                assert(plans.take(wi + 1).drop_last() =~= plans.take(wi as int));
            }
            wi += 1;
        }
        proof {
            assert(plans.take(wi as int) =~= plans);
            lemma_went_further(
                repeated(chained(plans), pass as nat),
                chained(plans),
                pmc,
                (start, before, timings@),
                (timed, before_timed, watch.windows()),
            );
        }
        pass += 1;
    }
    timings
}

/// The workload that is named as the slowest: the first with the largest mean, or the first of all
/// combinations where no mean is above zero.
pub open spec fn is_worst_combo(
    loads: Seq<SpeedWorkload>,
    means: Seq<u64>,
    ns: u64,
    shape: PostingShape,
    pattern: SeekPattern,
) -> bool {
    ||| exists|i: int| #[trigger]
        is_worst(means, i) && ns == means[i] && shape == loads[i].shape && pattern
            == loads[i].pattern
    ||| (forall|i: int| 0 <= i < means.len() ==> means[i] == 0) && ns == 0 && shape
        == shape_list()[0] && pattern == PATTERNS@[0]
}

/// The workload that is named as the fastest: the first with the smallest mean, or the first of all
/// combinations where every mean is the largest number there is.
pub open spec fn is_best_combo(
    loads: Seq<SpeedWorkload>,
    means: Seq<u64>,
    ns: u64,
    shape: PostingShape,
    pattern: SeekPattern,
) -> bool {
    ||| exists|i: int| #[trigger]
        is_best(means, i) && ns == means[i] && shape == loads[i].shape && pattern
            == loads[i].pattern
    ||| (forall|i: int| 0 <= i < means.len() ==> means[i] == u64::MAX) && ns == u64::MAX && shape
        == shape_list()[0] && pattern == PATTERNS@[0]
}

/// The report gives the figures of the measurements.
pub open spec fn is_report<F: Fn(&[u64]) -> u64>(
    loads: Seq<SpeedWorkload>,
    t: TimingsModel,
    pmc: bool,
    exp_mean_ln: F,
    r: SpeedReport,
) -> bool {
    let means = Seq::new(r.per_combo@.len(), |i: int| r.per_combo@[i].geomean_ns);
    &&& is_summary(t, pmc, exp_mean_ln, r.summary)
    &&& are_combo_means(t, exp_mean_ln, means)
    &&& forall|i: int|
        0 <= i < r.per_combo@.len() ==> (#[trigger] r.per_combo@[i]).shape == loads[i].shape
            && r.per_combo@[i].pattern == loads[i].pattern
    &&& is_worst_combo(loads, means, r.worst_ns, r.worst_shape, r.worst_pattern)
    &&& is_best_combo(loads, means, r.best_ns, r.best_shape, r.best_pattern)
}

/// A report has one line for each workload, with its shape, its pattern and the mean of its times. No
/// workload has a mean above the worst one or below the best one, and the two are named with their
/// workloads.
pub proof fn lemma_report<F: Fn(&[u64]) -> u64>(
    loads: Seq<SpeedWorkload>,
    t: TimingsModel,
    pmc: bool,
    exp_mean_ln: F,
    r: SpeedReport,
    i: int,
)
    requires
        is_report(loads, t, pmc, exp_mean_ln, r),
        t.per_combo.len() == loads.len(),
        0 <= i < loads.len(),
    ensures
        r.per_combo@.len() == loads.len(),
        r.per_combo@[i].shape == loads[i].shape,
        r.per_combo@[i].pattern == loads[i].pattern,
        is_geomean(t.per_combo[i], exp_mean_ln, r.per_combo@[i].geomean_ns),
        r.best_ns <= r.per_combo@[i].geomean_ns <= r.worst_ns,
        r.worst_ns > 0 ==> exists|w: int|
            0 <= w < loads.len() && (#[trigger] r.per_combo@[w]).geomean_ns == r.worst_ns
                && loads[w].shape == r.worst_shape && loads[w].pattern == r.worst_pattern,
        r.best_ns < u64::MAX ==> exists|b: int|
            0 <= b < loads.len() && (#[trigger] r.per_combo@[b]).geomean_ns == r.best_ns
                && loads[b].shape == r.best_shape && loads[b].pattern == r.best_pattern,
        is_geomean(t.all, exp_mean_ln, r.summary.geomean_ns),
{
    let means = Seq::new(r.per_combo@.len(), |i: int| r.per_combo@[i].geomean_ns);
    assert(is_geomean(t.per_combo[i], exp_mean_ln, means[i]));
    if r.worst_ns > 0 {
        let w = choose|w: int| #[trigger]
            is_worst(means, w) && r.worst_ns == means[w] && r.worst_shape == loads[w].shape
                && r.worst_pattern == loads[w].pattern;
        assert(r.per_combo@[w].geomean_ns == means[w]);
    }
    if r.best_ns < u64::MAX {
        let b = choose|b: int| #[trigger]
            is_best(means, b) && r.best_ns == means[b] && r.best_shape == loads[b].shape
                && r.best_pattern == loads[b].pattern;
        assert(r.per_combo@[b].geomean_ns == means[b]);
    }
}

/// Draws the report up from the measurements. `pmc` tells whether there were hardware counters.
pub fn speed_report<F: Fn(&[u64]) -> u64>(
    workloads: &[SpeedWorkload],
    timings: &Timings,
    pmc: bool,
    exp_mean_ln: &F,
) -> (r: SpeedReport)
    requires
        accepts_samples(*exp_mean_ln),
        timings@.per_combo.len() == workloads@.len(),
    ensures
        is_report(workloads@, timings@, pmc, *exp_mean_ln, r),
        r.worst_ns == 0 ==> r.worst_shape == shape_list()[0] && r.worst_pattern == PATTERNS@[0],
        r.best_ns == u64::MAX ==> r.best_shape == shape_list()[0] && r.best_pattern == PATTERNS@[0],
        workloads@.len() == 0 ==> r.worst_ns == 0 && r.best_ns == u64::MAX,
{
    let means: Vec<u64> = combo_means(timings, exp_mean_ln);
    let mut per_combo: Vec<ComboReport> = Vec::with_capacity(workloads.len());
    let mut k: usize = 0;
    while k < workloads.len()
        invariant
            k <= workloads@.len(),
            means@.len() == workloads@.len(),
            per_combo@.len() == k,
            forall|i: int|
                0 <= i < k ==> (#[trigger] per_combo@[i]).shape == workloads@[i].shape
                    && per_combo@[i].pattern == workloads@[i].pattern && per_combo@[i].geomean_ns
                    == means@[i],
        decreases workloads@.len() - k,
    {
        per_combo.push(
            ComboReport {
                shape: workloads[k].shape,
                pattern: workloads[k].pattern,
                geomean_ns: means[k],
            },
        );
        k += 1;
    }
    assert(Seq::new(per_combo@.len(), |i: int| per_combo@[i].geomean_ns) =~= means@);
    let shapes: [PostingShape; 3] = shapes();
    let (worst_ns, worst_shape, worst_pattern) = match worst_index(means.as_slice()) {
        Some(i) => (means[i], workloads[i].shape, workloads[i].pattern),
        None => (0, shapes[0], PATTERNS[0]),
    };
    let (best_ns, best_shape, best_pattern) = match best_index(means.as_slice()) {
        Some(i) => (means[i], workloads[i].shape, workloads[i].pattern),
        None => (u64::MAX, shapes[0], PATTERNS[0]),
    };
    let summary: Summary = summarize(timings, pmc, exp_mean_ln);
    SpeedReport {
        summary,
        worst_ns,
        worst_shape,
        worst_pattern,
        best_ns,
        best_shape,
        best_pattern,
        per_combo,
    }
}

/// Times `passes` passes over the workloads with the given stopwatch, and reports. Each window of the
/// plan is timed once in each pass, its calls and no others between start and stop, and the report
/// gives the figures of what the measurements come to per call.
pub fn run_speed_with<F: Fn(&[u64]) -> u64>(
    workloads: &[SpeedWorkload],
    passes: usize,
    exp_mean_ln: F,
    watch: &mut Stopwatch<SeekCall>,
) -> (r: SpeedReport)
    requires
        accepts_samples(exp_mean_ln),
    ensures
        old(watch).windows().is_prefix_of(final(watch).windows()),
        is_measured(
            speed_plan(workloads@, passes as nat),
            old(watch).counts(),
            final(watch).windows().skip(old(watch).windows().len() as int),
        ),
        is_report(
            workloads@,
            logged(
                no_timings(workloads@.len()),
                speed_plan(workloads@, passes as nat),
                final(watch).windows().skip(old(watch).windows().len() as int),
            ),
            old(watch).counts(),
            exp_mean_ln,
            r,
        ),
        final(watch).counts() == old(watch).counts(),
{
    let pmc: bool = watch.has_pmc();
    let timings: Timings = measure(workloads, passes, watch);
    speed_report(workloads, &timings, pmc, &exp_mean_ln)
}

/// Times `passes` passes over the workloads with a new stopwatch, and reports. There are
/// measurements of the windows of the plan, whose figures the report gives; which these are, and
/// whether there are counts among them, is up to the machine.
pub fn run_speed<F: Fn(&[u64]) -> u64>(
    workloads: &[SpeedWorkload],
    passes: usize,
    exp_mean_ln: F,
) -> (r: SpeedReport)
    requires
        accepts_samples(exp_mean_ln),
    ensures
        exists|ws: Seq<Window<SeekCall>>, pmc: bool| #[trigger]
            is_measured(speed_plan(workloads@, passes as nat), pmc, ws) && is_report(
                workloads@,
                logged(
                    no_timings(workloads@.len()),
                    speed_plan(workloads@, passes as nat),
                    ws,
                ),
                pmc,
                exp_mean_ln,
                r,
            ),
{
    let mut watch: Stopwatch<SeekCall> = Stopwatch::new();
    run_speed_with(workloads, passes, exp_mean_ln, &mut watch)
}

} // verus!
