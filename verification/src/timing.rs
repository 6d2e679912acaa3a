//! Collecting measurements per workload, and summing them up.
use vstd::prelude::*;

use crate::perf::PerfMeasurement;
use crate::stopwatch::Window;
use crate::stats::{
    accepts_samples, are_resampled_means, ci_of, is_ci, is_geomean, mean_of, median, median_of,
    resampled_means,
};

verus! {

/// `std::hint::black_box`. Trusted: the function is the identity, as its documentation says; it only
/// keeps the compiler from dropping the work that led to its argument.
pub assume_specification<T>[ std::hint::black_box::<T> ](dummy: T) -> (r: T)
    ensures
        r == dummy,
;

/// The seed and the number of resamples of the confidence interval.
pub const BOOTSTRAP_SEED: u64 = 0xB007_57AA_C1C1_DEAD;

pub const BOOTSTRAP_RESAMPLES: usize = 1000;

/// Measurements per call: all of them in order, and those of each workload.
pub struct Timings {
    pub all: Vec<u64>,
    pub cycles: Vec<u64>,
    pub instructions: Vec<u64>,
    pub per_combo: Vec<Vec<u64>>,
}

/// What a collection of measurements holds.
pub struct TimingsModel {
    pub all: Seq<u64>,
    pub cycles: Seq<u64>,
    pub instructions: Seq<u64>,
    pub per_combo: Seq<Seq<u64>>,
}

impl View for Timings {
    type V = TimingsModel;

    open spec fn view(&self) -> TimingsModel {
        TimingsModel {
            all: self.all@,
            cycles: self.cycles@,
            instructions: self.instructions@,
            per_combo: self.per_combo@.map_values(|v: Vec<u64>| v@),
        }
    }
}

/// What falls to each of the calls of a window.
pub open spec fn per_call(total: u64, calls: u64) -> u64 {
    if calls == 0 {
        0
    } else {
        total / calls
    }
}

/// The counts with one more, if there is one, divided by the number of calls.
pub open spec fn with_count(counts: Seq<u64>, count: Option<u64>, calls: u64) -> Seq<u64> {
    match count {
        Some(c) => counts.push(per_call(c, calls)),
        None => counts,
    }
}

/// The collection with one more measurement, of a window of `calls` calls of workload `combo`.
pub open spec fn recorded(
    t: TimingsModel,
    combo: int,
    calls: u64,
    m: PerfMeasurement,
) -> TimingsModel {
    let ns = per_call(m.wall_clock_ns, calls);
    TimingsModel {
        all: t.all.push(ns),
        cycles: with_count(t.cycles, m.cycles, calls),
        instructions: with_count(t.instructions, m.instructions, calls),
        per_combo: t.per_combo.update(combo, t.per_combo[combo].push(ns)),
    }
}

/// `each` is the share of one of `calls` calls in `total`, rounded down.
pub open spec fn is_share(each: u64, total: u64, calls: int) -> bool {
    each * calls <= total < (each + 1) * calls
}

/// `after` is `before` and behind it the share of one call in the count, where there is one.
pub open spec fn adds_share(
    before: Seq<u64>,
    after: Seq<u64>,
    count: Option<u64>,
    calls: int,
) -> bool {
    match count {
        Some(total) => {
            &&& after.len() == before.len() + 1
            &&& after.drop_last() == before
            &&& is_share(after.last(), total, calls)
        },
        None => after == before,
    }
}

proof fn lemma_share(total: u64, calls: u64)
    requires
        calls > 0,
    ensures
        is_share(per_call(total, calls), total, calls as int),
{
    let each = per_call(total, calls);
    assert(each * calls <= total < (each + 1) * calls) by (nonlinear_arith)
        requires
            calls > 0,
            each == total / calls,
    ;
}

/// A window adds to the times, and to those of its workload, its wall clock divided by the number of
/// its calls; to the cycles and instructions it adds its counts, divided alike. The times of the
/// other workloads stay as they are.
pub proof fn lemma_recorded(t: TimingsModel, combo: int, calls: u64, m: PerfMeasurement)
    requires
        0 <= combo < t.per_combo.len(),
        calls > 0,
    ensures
        adds_share(
            t.all,
            recorded(t, combo, calls, m).all,
            Some(m.wall_clock_ns),
            calls as int,
        ),
        adds_share(
            t.per_combo[combo],
            recorded(t, combo, calls, m).per_combo[combo],
            Some(m.wall_clock_ns),
            calls as int,
        ),
        recorded(t, combo, calls, m).per_combo.len() == t.per_combo.len(),
        forall|other: int|
            0 <= other < t.per_combo.len() && other != combo ==> #[trigger] recorded(
                t,
                combo,
                calls,
                m,
            ).per_combo[other] == t.per_combo[other],
        adds_share(t.cycles, recorded(t, combo, calls, m).cycles, m.cycles, calls as int),
        adds_share(
            t.instructions,
            recorded(t, combo, calls, m).instructions,
            m.instructions,
            calls as int,
        ),
{
    let ns = per_call(m.wall_clock_ns, calls);
    lemma_share(m.wall_clock_ns, calls);
    assert(t.all.push(ns).drop_last() =~= t.all);
    assert(t.per_combo[combo].push(ns).drop_last() =~= t.per_combo[combo]);
    if let Some(total) = m.cycles {
        lemma_share(total, calls);
        assert(t.cycles.push(per_call(total, calls)).drop_last() =~= t.cycles);
    }
    if let Some(total) = m.instructions {
        lemma_share(total, calls);
        assert(t.instructions.push(per_call(total, calls)).drop_last() =~= t.instructions);
    }
}

/// No measurements yet, of `combos` workloads.
pub open spec fn no_timings(combos: nat) -> TimingsModel {
    TimingsModel {
        all: Seq::empty(),
        cycles: Seq::empty(),
        instructions: Seq::empty(),
        per_combo: Seq::new(combos, |i: int| Seq::empty()),
    }
}

/// The windows that a run goes through: the workload of each, and the calls that it times.
pub type Plan<C> = Seq<(int, Seq<C>)>;

/// The collection with the measurements of the windows of a plan, in order.
pub open spec fn logged<C>(t: TimingsModel, plan: Plan<C>, ws: Seq<Window<C>>) -> TimingsModel
    decreases plan.len(),
{
    if plan.len() == 0 {
        t
    } else {
        recorded(
            logged(t, plan.drop_last(), ws.drop_last()),
            plan.last().0,
            plan.last().1.len() as u64,
            ws.last().measurement,
        )
    }
}

/// The plan names only workloads below `combos`.
pub open spec fn names_only<C>(plan: Plan<C>, combos: nat) -> bool {
    forall|i: int| 0 <= i < plan.len() ==> 0 <= (#[trigger] plan[i]).0 < combos
}

/// None of the measurements has counts.
pub open spec fn uncounted<C>(ws: Seq<Window<C>>) -> bool {
    forall|i: int|
        0 <= i < ws.len() ==> (#[trigger] ws[i]).measurement.cycles is None
            && ws[i].measurement.instructions is None
}

/// The windows of the plan were timed: between start and stop of each, exactly its calls were
/// carried out. There are counts only where there are hardware counters.
pub open spec fn is_measured<C>(plan: Plan<C>, pmc: bool, ws: Seq<Window<C>>) -> bool {
    &&& ws.len() == plan.len()
    &&& forall|i: int| 0 <= i < plan.len() ==> (#[trigger] ws[i]).work == plan[i].1
    &&& !pmc ==> uncounted(ws)
}

/// The plan was gone through: the stopwatch, which had timed the windows `timed` before, has timed
/// those of the plan, and exactly their measurements are what `after` holds beyond `before`.
pub open spec fn went_through<C>(
    plan: Plan<C>,
    pmc: bool,
    before: TimingsModel,
    after: TimingsModel,
    timed: Seq<Window<C>>,
    windows: Seq<Window<C>>,
) -> bool {
    let ws = windows.skip(timed.len() as int);
    &&& timed.is_prefix_of(windows)
    &&& is_measured(plan, pmc, ws)
    &&& after == logged(before, plan, ws)
}

/// Nothing is needed to go through no windows.
pub proof fn lemma_stayed<C>(pmc: bool, t: TimingsModel, timed: Seq<Window<C>>)
    ensures
        went_through(Seq::empty(), pmc, t, t, timed, timed),
{
}

/// Recording the next measurement goes through one window.
pub proof fn lemma_went_on<C>(
    pmc: bool,
    t: TimingsModel,
    timed: Seq<Window<C>>,
    combo: int,
    w: Window<C>,
)
    requires
        !pmc ==> w.measurement.cycles is None && w.measurement.instructions is None,
    ensures
        went_through(
            seq![(combo, w.work)],
            pmc,
            t,
            recorded(t, combo, w.work.len() as u64, w.measurement),
            timed,
            timed.push(w),
        ),
{
    let plan: Plan<C> = seq![(combo, w.work)];
    assert(timed.push(w).skip(timed.len() as int) =~= seq![w]);
    assert(plan.drop_last() =~= Seq::empty());
    assert(logged(t, plan.drop_last(), seq![w].drop_last()) == t);
}

/// Two stretches without counts are one.
pub proof fn lemma_uncounted<C>(a: Seq<Window<C>>, b: Seq<Window<C>>)
    requires
        uncounted(a),
        uncounted(b),
    ensures
        uncounted(a + b),
{
    let ws = a + b;
    assert forall|i: int| 0 <= i < ws.len() implies (#[trigger] ws[i]).measurement.cycles is None
        && ws[i].measurement.instructions is None by {
        if i < a.len() {
            assert(ws[i] == a[i]);
        } else {
            assert(ws[i] == b[i - a.len()]);
        }
    }
}

/// Going through one plan and then another is going through both.
pub proof fn lemma_went_further<C>(
    first: Plan<C>,
    second: Plan<C>,
    pmc: bool,
    t: (TimingsModel, TimingsModel, TimingsModel),
    w: (Seq<Window<C>>, Seq<Window<C>>, Seq<Window<C>>),
)
    requires
        went_through(first, pmc, t.0, t.1, w.0, w.1),
        went_through(second, pmc, t.1, t.2, w.1, w.2),
    ensures
        went_through(first + second, pmc, t.0, t.2, w.0, w.2),
{
    let a = w.1.skip(w.0.len() as int);
    let b = w.2.skip(w.1.len() as int);
    let ws = w.2.skip(w.0.len() as int);
    assert(ws =~= a + b);
    lemma_logged_more(t.0, first, a, second, b);
    if !pmc {
        lemma_uncounted(a, b);
    }
}

/// The parts one behind the other.
pub open spec fn chained<A>(parts: Seq<Seq<A>>) -> Seq<A>
    decreases parts.len(),
{
    if parts.len() == 0 {
        Seq::empty()
    } else {
        chained(parts.drop_last()) + parts.last()
    }
}

/// The same sequence `times` times.
pub open spec fn repeated<A>(s: Seq<A>, times: nat) -> Seq<A>
    decreases times,
{
    if times == 0 {
        Seq::empty()
    } else {
        repeated(s, (times - 1) as nat) + s
    }
}

/// A sequence that is repeated is as often as long.
pub proof fn lemma_repeated<A>(s: Seq<A>, times: nat)
    ensures
        repeated(s, times).len() == times * s.len(),
    decreases times,
{
    if times > 0 {
        lemma_repeated(s, (times - 1) as nat);
        assert(times * s.len() == (times - 1) * s.len() + s.len()) by (nonlinear_arith)
            requires
                times > 0,
        ;
    } else {
        assert(0 * s.len() == 0);
    }
}

/// Every round of a sequence that is repeated is the sequence.
pub proof fn lemma_repeated_at<A>(s: Seq<A>, times: nat, round: int, i: int)
    requires
        0 <= round < times,
        0 <= i < s.len(),
    ensures
        0 <= round * s.len() + i < repeated(s, times).len(),
        repeated(s, times)[round * s.len() + i] == s[i],
    decreases times,
{
    let n = s.len() as int;
    let k = (times - 1) as nat;
    lemma_repeated(s, times);
    lemma_repeated(s, k);
    assert(0 <= round * n && round * n + n <= times * n) by (nonlinear_arith)
        requires
            0 <= round < times,
            0 < n,
    ;
    if round < k {
        lemma_repeated_at(s, k, round, i);
    }
}

/// How long the first `k` parts are together.
pub open spec fn length_before<A>(parts: Seq<Seq<A>>, k: nat) -> nat
    decreases k,
{
    if k == 0 {
        0
    } else {
        length_before(parts, (k - 1) as nat) + parts[k - 1].len()
    }
}

/// Parts one behind the other hold all elements of each part, in order, behind those of the parts
/// before it, and nothing else.
pub proof fn lemma_chained_at<A>(parts: Seq<Seq<A>>, k: int, i: int)
    requires
        0 <= k < parts.len(),
        0 <= i < parts[k].len(),
    ensures
        chained(parts).len() == length_before(parts, parts.len()),
        0 <= length_before(parts, k as nat) + i < chained(parts).len(),
        chained(parts)[length_before(parts, k as nat) + i] == parts[k][i],
    decreases parts.len(),
{
    let front = parts.drop_last();
    lemma_chained_len(parts);
    lemma_chained_len(front);
    lemma_length_before(front, parts, front.len());
    if k < front.len() {
        lemma_chained_at(front, k, i);
        lemma_length_before(front, parts, k as nat);
    }
}

/// The first part can be taken off.
pub proof fn lemma_chained_first<A>(first: Seq<A>, parts: Seq<Seq<A>>)
    ensures
        chained(seq![first] + parts) == first + chained(parts),
    decreases parts.len(),
{
    let all = seq![first] + parts;
    if parts.len() == 0 {
        assert(all.drop_last() =~= Seq::empty());
        assert(chained(all.drop_last()) =~= Seq::empty());
        assert(Seq::empty() + first =~= first);
        assert(first + chained(parts) =~= first);
    } else {
        lemma_chained_first(first, parts.drop_last());
        assert(all.drop_last() =~= seq![first] + parts.drop_last());
        assert((first + chained(parts.drop_last())) + parts.last() =~= first + (chained(
            parts.drop_last(),
        ) + parts.last()));
    }
}

/// Parts one behind the other are as long as the parts together.
pub proof fn lemma_chained_len<A>(parts: Seq<Seq<A>>)
    ensures
        chained(parts).len() == length_before(parts, parts.len()),
    decreases parts.len(),
{
    if parts.len() > 0 {
        let front = parts.drop_last();
        lemma_chained_len(front);
        lemma_length_before(front, parts, front.len());
    }
}

proof fn lemma_length_before<A>(front: Seq<Seq<A>>, parts: Seq<Seq<A>>, k: nat)
    requires
        k <= front.len(),
        front.is_prefix_of(parts),
    ensures
        length_before(front, k) == length_before(parts, k),
    decreases k,
{
    if k > 0 {
        lemma_length_before(front, parts, (k - 1) as nat);
        assert(front[k - 1] == parts[k - 1]);
    }
}

/// A plan in two parts is gone through one part after the other.
pub proof fn lemma_logged_more<C>(
    t: TimingsModel,
    first: Plan<C>,
    first_ws: Seq<Window<C>>,
    second: Plan<C>,
    second_ws: Seq<Window<C>>,
)
    requires
        first.len() == first_ws.len(),
        second.len() == second_ws.len(),
    ensures
        logged(logged(t, first, first_ws), second, second_ws) == logged(
            t,
            first + second,
            first_ws + second_ws,
        ),
    decreases second.len(),
{
    if second.len() == 0 {
        assert(first + second =~= first);
        assert(first_ws + second_ws =~= first_ws);
    } else {
        lemma_logged_more(t, first, first_ws, second.drop_last(), second_ws.drop_last());
        assert((first + second).drop_last() =~= first + second.drop_last());
        assert((first_ws + second_ws).drop_last() =~= first_ws + second_ws.drop_last());
    }
}

/// The time that falls to each call of window `i`.
pub open spec fn window_ns<C>(plan: Plan<C>, ws: Seq<Window<C>>, i: int) -> u64 {
    per_call(ws[i].measurement.wall_clock_ns, plan[i].1.len() as u64)
}

/// Going through a plan adds one time for each window: its wall clock over the number of its calls.
/// Without counts in the measurements, none are added.
pub proof fn lemma_logged<C>(t: TimingsModel, plan: Plan<C>, ws: Seq<Window<C>>)
    requires
        plan.len() == ws.len(),
        names_only(plan, t.per_combo.len()),
    ensures
        logged(t, plan, ws).all == t.all + Seq::new(plan.len(), |i: int| window_ns(plan, ws, i)),
        logged(t, plan, ws).per_combo.len() == t.per_combo.len(),
        uncounted(ws) ==> logged(t, plan, ws).cycles == t.cycles && logged(
            t,
            plan,
            ws,
        ).instructions == t.instructions,
    decreases plan.len(),
{
    let times = Seq::new(plan.len(), |i: int| window_ns(plan, ws, i));
    if plan.len() == 0 {
        assert(t.all + times =~= t.all);
    } else {
        let plan1 = plan.drop_last();
        let ws1 = ws.drop_last();
        assert(plan.last() == plan[plan.len() - 1]);
        assert forall|i: int| 0 <= i < plan1.len() implies 0 <= (#[trigger] plan1[i]).0
            < t.per_combo.len() by {
            assert(plan1[i] == plan[i]);
        }
        lemma_logged(t, plan1, ws1);
        let times1 = Seq::new(plan1.len(), |i: int| window_ns(plan1, ws1, i));
        assert(times =~= times1.push(times.last()));
        assert(t.all + times =~= (t.all + times1).push(times.last()));
        if uncounted(ws) {
            assert(ws.last() == ws[ws.len() - 1]);
            assert forall|i: int| 0 <= i < ws1.len() implies (
            #[trigger] ws1[i]).measurement.cycles is None
                && ws1[i].measurement.instructions is None by {
                assert(ws1[i] == ws[i]);
            }
        }
    }
}

/// What a run adds for window `i`: one time, which is the wall clock of the window divided by the
/// number of its calls; and where every measurement has counts, one number of cycles and one of
/// instructions, divided alike.
pub proof fn lemma_logged_window<C>(t: TimingsModel, plan: Plan<C>, ws: Seq<Window<C>>, i: int)
    requires
        plan.len() == ws.len(),
        names_only(plan, t.per_combo.len()),
        forall|k: int| 0 <= k < plan.len() ==> 0 < (#[trigger] plan[k]).1.len() <= u64::MAX,
        0 <= i < plan.len(),
    ensures
        logged(t, plan, ws).all.len() == t.all.len() + plan.len(),
        is_share(
            logged(t, plan, ws).all[t.all.len() + i],
            ws[i].measurement.wall_clock_ns,
            plan[i].1.len() as int,
        ),
        (forall|k: int| 0 <= k < ws.len() ==> (#[trigger] ws[k]).measurement.cycles is Some)
            ==> logged(t, plan, ws).cycles.len() == t.cycles.len() + plan.len() && is_share(
            logged(t, plan, ws).cycles[t.cycles.len() + i],
            ws[i].measurement.cycles->Some_0,
            plan[i].1.len() as int,
        ),
        (forall|k: int| 0 <= k < ws.len() ==> (#[trigger] ws[k]).measurement.instructions is Some)
            ==> logged(t, plan, ws).instructions.len() == t.instructions.len() + plan.len()
            && is_share(
            logged(t, plan, ws).instructions[t.instructions.len() + i],
            ws[i].measurement.instructions->Some_0,
            plan[i].1.len() as int,
        ),
    decreases plan.len(),
{
    let plan1 = plan.drop_last();
    let ws1 = ws.drop_last();
    let last = plan.len() - 1;
    assert(plan.last() == plan[last]);
    assert(ws.last() == ws[last]);
    assert forall|k: int| 0 <= k < plan1.len() implies 0 <= (#[trigger] plan1[k]).0
        < t.per_combo.len() && 0 < plan1[k].1.len() <= u64::MAX by {
        assert(plan1[k] == plan[k]);
    }
    assert forall|k: int| 0 <= k < ws1.len() implies #[trigger] ws1[k] == ws[k] by {}
    lemma_logged(t, plan1, ws1);
    let before = logged(t, plan1, ws1);
    lemma_recorded(before, plan[last].0, plan[last].1.len() as u64, ws[last].measurement);
    if last > 0 {
        lemma_logged_window(t, plan1, ws1, if i < last { i } else { 0 });
        let after = logged(t, plan, ws);
        assert(before.all == after.all.drop_last());
    }
}

/// What going through a plan means for window `i`: it was timed, exactly its calls were carried out in
/// it, and what the collection holds for it is its wall clock divided by the number of its calls.
pub proof fn lemma_went_through<C>(
    plan: Plan<C>,
    pmc: bool,
    before: TimingsModel,
    after: TimingsModel,
    timed: Seq<Window<C>>,
    windows: Seq<Window<C>>,
    i: int,
)
    requires
        went_through(plan, pmc, before, after, timed, windows),
        names_only(plan, before.per_combo.len()),
        forall|k: int| 0 <= k < plan.len() ==> 0 < (#[trigger] plan[k]).1.len() <= u64::MAX,
        0 <= i < plan.len(),
    ensures
        windows.len() == timed.len() + plan.len(),
        windows[timed.len() + i].work == plan[i].1,
        after.all.len() == before.all.len() + plan.len(),
        is_share(
            after.all[before.all.len() + i],
            windows[timed.len() + i].measurement.wall_clock_ns,
            plan[i].1.len() as int,
        ),
        !pmc ==> windows[timed.len() + i].measurement.cycles is None && windows[timed.len()
            + i].measurement.instructions is None && after.cycles == before.cycles
            && after.instructions == before.instructions,
{
    let ws = windows.skip(timed.len() as int);
    assert(ws[i] == windows[timed.len() + i]);
    lemma_logged_window(before, plan, ws, i);
    lemma_logged(before, plan, ws);
}

/// How many of the first `n` windows are of workload `combo`.
pub open spec fn windows_before<C>(plan: Plan<C>, combo: int, n: nat) -> nat
    decreases n,
{
    if n == 0 {
        0
    } else {
        windows_before(plan, combo, (n - 1) as nat) + if plan[n - 1].0 == combo {
            1nat
        } else {
            0nat
        }
    }
}

/// The times of a workload are those of its windows, each once and in order: that of window `i` stands
/// behind those of the windows of the workload before it.
pub proof fn lemma_times_of<C>(plan: Plan<C>, ws: Seq<Window<C>>, combo: int, i: int)
    requires
        plan.len() == ws.len(),
        0 <= i < plan.len(),
        plan[i].0 == combo,
        0 < plan[i].1.len() <= u64::MAX,
    ensures
        times_of(plan, ws, combo).len() == windows_before(plan, combo, plan.len()),
        0 <= windows_before(plan, combo, i as nat) < times_of(plan, ws, combo).len(),
        is_share(
            times_of(plan, ws, combo)[windows_before(plan, combo, i as nat) as int],
            ws[i].measurement.wall_clock_ns,
            plan[i].1.len() as int,
        ),
    decreases plan.len(),
{
    let plan1 = plan.drop_last();
    let ws1 = ws.drop_last();
    lemma_times_len(plan, ws, combo);
    lemma_times_len(plan1, ws1, combo);
    lemma_windows_before(plan1, plan, combo, plan1.len());
    if i < plan1.len() {
        assert(plan1[i] == plan[i] && ws1[i] == ws[i]);
        lemma_times_of(plan1, ws1, combo, i);
        lemma_windows_before(plan1, plan, combo, i as nat);
    } else {
        lemma_share(ws[i].measurement.wall_clock_ns, plan[i].1.len() as u64);
    }
}

proof fn lemma_times_len<C>(plan: Plan<C>, ws: Seq<Window<C>>, combo: int)
    ensures
        times_of(plan, ws, combo).len() == windows_before(plan, combo, plan.len()),
    decreases plan.len(),
{
    if plan.len() > 0 {
        let plan1 = plan.drop_last();
        lemma_times_len(plan1, ws.drop_last(), combo);
        lemma_windows_before(plan1, plan, combo, plan1.len());
    }
}

proof fn lemma_windows_before<C>(front: Plan<C>, plan: Plan<C>, combo: int, n: nat)
    requires
        n <= front.len(),
        front.is_prefix_of(plan),
    ensures
        windows_before(front, combo, n) == windows_before(plan, combo, n),
    decreases n,
{
    if n > 0 {
        lemma_windows_before(front, plan, combo, (n - 1) as nat);
        assert(front[n - 1] == plan[n - 1]);
    }
}

/// The times of a workload are those of its windows among all times, in order.
pub proof fn lemma_logged_combo<C>(
    combos: nat,
    plan: Plan<C>,
    ws: Seq<Window<C>>,
    combo: int,
)
    requires
        plan.len() == ws.len(),
        0 <= combo < combos,
        names_only(plan, combos),
    ensures
        logged(no_timings(combos), plan, ws).per_combo[combo] == times_of(plan, ws, combo),
    decreases plan.len(),
{
    if plan.len() > 0 {
        let plan1 = plan.drop_last();
        assert(plan.last() == plan[plan.len() - 1]);
        assert forall|i: int| 0 <= i < plan1.len() implies 0 <= (#[trigger] plan1[i]).0
            < combos by {
            assert(plan1[i] == plan[i]);
        }
        lemma_logged(no_timings(combos), plan1, ws.drop_last());
        lemma_logged_combo(combos, plan1, ws.drop_last(), combo);
    }
}

/// The times per call of the windows of one workload.
pub open spec fn times_of<C>(plan: Plan<C>, ws: Seq<Window<C>>, combo: int) -> Seq<u64>
    decreases plan.len(),
{
    if plan.len() == 0 {
        Seq::empty()
    } else {
        let before = times_of(plan.drop_last(), ws.drop_last(), combo);
        if plan.last().0 == combo {
            before.push(window_ns(plan, ws, plan.len() - 1))
        } else {
            before
        }
    }
}

impl Timings {
    /// No measurements yet, of `combos` workloads.
    pub fn new(combos: usize) -> (r: Self)
        ensures
            r@ == no_timings(combos as nat),
            r@.all.len() == 0 && r@.cycles.len() == 0 && r@.instructions.len() == 0,
            r@.per_combo.len() == combos,
            forall|i: int| 0 <= i < combos ==> (#[trigger] r@.per_combo[i]).len() == 0,
    {
        let mut per_combo: Vec<Vec<u64>> = Vec::with_capacity(combos);
        let mut k: usize = 0;
        while k < combos
            invariant
                k <= combos,
                per_combo@.len() == k,
                forall|i: int| 0 <= i < k ==> (#[trigger] per_combo@[i])@.len() == 0,
            decreases combos - k,
        {
            per_combo.push(Vec::new());
            k += 1;
        }
        let r = Timings {
            all: Vec::new(),
            cycles: Vec::new(),
            instructions: Vec::new(),
            per_combo,
        };
        assert(r@.per_combo =~~= no_timings(combos as nat).per_combo);
        r
    }

    /// Adds a measurement of a window of `calls` calls of workload `combo`.
    pub fn record(&mut self, combo: usize, calls: u64, m: PerfMeasurement)
        requires
            combo < old(self)@.per_combo.len(),
            calls > 0,
        ensures
            final(self)@ == recorded(old(self)@, combo as int, calls, m),
            adds_share(
                old(self)@.all,
                final(self)@.all,
                Some(m.wall_clock_ns),
                calls as int,
            ),
            adds_share(
                old(self)@.per_combo[combo as int],
                final(self)@.per_combo[combo as int],
                Some(m.wall_clock_ns),
                calls as int,
            ),
            adds_share(old(self)@.cycles, final(self)@.cycles, m.cycles, calls as int),
            adds_share(
                old(self)@.instructions,
                final(self)@.instructions,
                m.instructions,
                calls as int,
            ),
    {
        let ghost before = self@;
        let per_call_ns: u64 = m.wall_clock_ns / calls;
        self.all.push(per_call_ns);
        self.per_combo[combo].push(per_call_ns);
        if let Some(c) = m.cycles {
            self.cycles.push(c / calls);
        }
        if let Some(i) = m.instructions {
            self.instructions.push(i / calls);
        }
        proof {
            assert(self@.per_combo =~= recorded(before, combo as int, calls, m).per_combo);
            lemma_recorded(before, combo as int, calls, m);
        }
    }
}

/// The figures over all workloads. The counts are absent without hardware counters.
pub struct Summary {
    pub geomean_ns: u64,
    pub geomean_ns_ci: (u64, u64),
    pub median_ns: u64,
    pub geomean_cycles: Option<u64>,
    pub geomean_instructions: Option<u64>,
}

/// The geometric mean of the counts where there are hardware counters, and nothing otherwise.
pub open spec fn is_count_mean<F: Fn(&[u64]) -> u64>(
    counts: Seq<u64>,
    pmc: bool,
    exp_mean_ln: F,
    mean: Option<u64>,
) -> bool {
    match mean {
        Some(g) => pmc && is_geomean(counts, exp_mean_ln, g),
        None => !pmc,
    }
}

/// The summary gives the figures of the measurements.
pub open spec fn is_summary<F: Fn(&[u64]) -> u64>(
    t: TimingsModel,
    pmc: bool,
    exp_mean_ln: F,
    s: Summary,
) -> bool {
    &&& is_geomean(t.all, exp_mean_ln, s.geomean_ns)
    &&& is_ci(
        t.all,
        BOOTSTRAP_RESAMPLES as int,
        BOOTSTRAP_SEED,
        exp_mean_ln,
        s.geomean_ns_ci,
    )
    &&& s.median_ns == median_of(t.all)
    &&& is_count_mean(t.cycles, pmc, exp_mean_ln, s.geomean_cycles)
    &&& is_count_mean(t.instructions, pmc, exp_mean_ln, s.geomean_instructions)
}

/// Sums the measurements up. `pmc` tells whether there were hardware counters.
pub fn summarize<F: Fn(&[u64]) -> u64>(
    timings: &Timings,
    pmc: bool,
    exp_mean_ln: &F,
) -> (r: Summary)
    requires
        accepts_samples(*exp_mean_ln),
    ensures
        is_summary(timings@, pmc, *exp_mean_ln, r),
        is_geomean(timings@.all, *exp_mean_ln, r.geomean_ns),
        is_ci(
            timings@.all,
            BOOTSTRAP_RESAMPLES as int,
            BOOTSTRAP_SEED,
            *exp_mean_ln,
            r.geomean_ns_ci,
        ),
        is_ci(
            timings@.all,
            1000,
            0xB007_57AA_C1C1_DEAD,
            *exp_mean_ln,
            r.geomean_ns_ci,
        ),
        r.geomean_ns_ci.0 <= r.geomean_ns_ci.1,
        r.median_ns == median_of(timings@.all),
        r.geomean_cycles is Some <==> pmc,
        r.geomean_instructions is Some <==> pmc,
        r.geomean_cycles matches Some(g) ==> is_geomean(timings@.cycles, *exp_mean_ln, g),
        r.geomean_instructions matches Some(g) ==> is_geomean(
            timings@.instructions,
            *exp_mean_ln,
            g,
        ),
{
    let geomean_ns: u64 = mean_of(timings.all.as_slice(), exp_mean_ln);
    let geomean_ns_ci: (u64, u64) = ci_of(
        timings.all.as_slice(),
        BOOTSTRAP_RESAMPLES,
        BOOTSTRAP_SEED,
        exp_mean_ln,
    );
    let median_ns: u64 = median(timings.all.as_slice());
    let geomean_cycles: Option<u64> = if pmc {
        Some(mean_of(timings.cycles.as_slice(), exp_mean_ln))
    } else {
        None
    };
    let geomean_instructions: Option<u64> = if pmc {
        Some(mean_of(timings.instructions.as_slice(), exp_mean_ln))
    } else {
        None
    };
    Summary { geomean_ns, geomean_ns_ci, median_ns, geomean_cycles, geomean_instructions }
}

/// The means of the resamples of the confidence interval; none where there are no samples.
pub open spec fn are_bootstrap_means<F: Fn(&[u64]) -> u64>(
    xs: Seq<u64>,
    exp_mean_ln: F,
    means: Seq<u64>,
) -> bool {
    &&& means.len() == if xs.len() == 0 {
        0
    } else {
        BOOTSTRAP_RESAMPLES as int
    }
    &&& are_resampled_means(xs, BOOTSTRAP_SEED, exp_mean_ln, means)
}

/// The means of the resamples of the confidence interval; none where there are no samples.
pub fn bootstrap_means<F: Fn(&[u64]) -> u64>(xs: &[u64], exp_mean_ln: &F) -> (means: Vec<u64>)
    requires
        accepts_samples(*exp_mean_ln),
    ensures
        are_bootstrap_means(xs@, *exp_mean_ln, means@),
        xs@.len() == 0 ==> means@.len() == 0,
        xs@.len() > 0 ==> means@.len() == BOOTSTRAP_RESAMPLES,
        are_resampled_means(xs@, BOOTSTRAP_SEED, *exp_mean_ln, means@),
{
    if xs.len() == 0 {
        Vec::new()
    } else {
        resampled_means(xs, BOOTSTRAP_RESAMPLES, BOOTSTRAP_SEED, exp_mean_ln)
    }
}

/// `i` is the first of the largest numbers, and that is not zero.
pub open spec fn is_worst(ns: Seq<u64>, i: int) -> bool {
    &&& 0 <= i < ns.len()
    &&& ns[i] > 0
    &&& forall|j: int| 0 <= j < i ==> ns[j] < ns[i]
    &&& forall|j: int| i < j < ns.len() ==> ns[j] <= ns[i]
}

/// `i` is the first of the smallest numbers, and that is not the largest number there is.
pub open spec fn is_best(ns: Seq<u64>, i: int) -> bool {
    &&& 0 <= i < ns.len()
    &&& ns[i] < u64::MAX
    &&& forall|j: int| 0 <= j < i ==> ns[j] > ns[i]
    &&& forall|j: int| i < j < ns.len() ==> ns[j] >= ns[i]
}

/// The first of the largest numbers; `None` where there is nothing above zero.
pub fn worst_index(ns: &[u64]) -> (r: Option<usize>)
    ensures
        match r {
            Some(i) => is_worst(ns@, i as int),
            None => forall|j: int| 0 <= j < ns@.len() ==> ns@[j] == 0,
        },
        r matches Some(i) ==> i < ns@.len() && forall|j: int|
            0 <= j < ns@.len() ==> #[trigger] ns@[j] <= ns@[i as int] && (j < i ==> ns@[j]
                < ns@[i as int]),
{
    let mut worst: Option<usize> = None;
    let mut worst_ns: u64 = 0;
    let mut k: usize = 0;
    while k < ns.len()
        invariant
            k <= ns@.len(),
            match worst {
                Some(i) => is_worst(ns@.take(k as int), i as int) && worst_ns == ns@[i as int],
                None => worst_ns == 0 && forall|j: int| 0 <= j < k ==> ns@[j] == 0,
            },
        decreases ns@.len() - k,
    {
        if ns[k] > worst_ns {
            worst = Some(k);
            worst_ns = ns[k];
        }
        k += 1;
    }
    assert(ns@.take(k as int) =~= ns@);
    worst
}

/// The first of the smallest numbers; `None` where there is nothing below the largest number.
pub fn best_index(ns: &[u64]) -> (r: Option<usize>)
    ensures
        match r {
            Some(i) => is_best(ns@, i as int),
            None => forall|j: int| 0 <= j < ns@.len() ==> ns@[j] == u64::MAX,
        },
        r matches Some(i) ==> i < ns@.len() && forall|j: int|
            0 <= j < ns@.len() ==> #[trigger] ns@[j] >= ns@[i as int] && (j < i ==> ns@[j]
                > ns@[i as int]),
{
    let mut best: Option<usize> = None;
    let mut best_ns: u64 = u64::MAX;
    let mut k: usize = 0;
    while k < ns.len()
        invariant
            k <= ns@.len(),
            match best {
                Some(i) => is_best(ns@.take(k as int), i as int) && best_ns == ns@[i as int],
                None => best_ns == u64::MAX && forall|j: int|
                    0 <= j < k ==> ns@[j] == u64::MAX,
            },
        decreases ns@.len() - k,
    {
        if ns[k] < best_ns {
            best = Some(k);
            best_ns = ns[k];
        }
        k += 1;
    }
    assert(ns@.take(k as int) =~= ns@);
    best
}

/// The geometric means of the workloads, in order.
pub fn combo_means<F: Fn(&[u64]) -> u64>(timings: &Timings, exp_mean_ln: &F) -> (r: Vec<u64>)
    requires
        accepts_samples(*exp_mean_ln),
    ensures
        are_combo_means(timings@, *exp_mean_ln, r@),
        r@.len() == timings@.per_combo.len(),
        forall|i: int|
            0 <= i < r@.len() ==> is_geomean(
                timings@.per_combo[i],
                *exp_mean_ln,
                #[trigger] r@[i],
            ),
{
    let mut r: Vec<u64> = Vec::with_capacity(timings.per_combo.len());
    let mut k: usize = 0;
    while k < timings.per_combo.len()
        invariant
            accepts_samples(*exp_mean_ln),
            k <= timings.per_combo@.len(),
            r@.len() == k,
            forall|i: int|
                0 <= i < k ==> is_geomean(
                    timings@.per_combo[i],
                    *exp_mean_ln,
                    #[trigger] r@[i],
                ),
        decreases timings.per_combo@.len() - k,
    {
        let mean: u64 = mean_of(timings.per_combo[k].as_slice(), exp_mean_ln);
        assert(timings@.per_combo[k as int] == timings.per_combo@[k as int]@);
        r.push(mean);
        k += 1;
    }
    r
}

/// The numbers are the geometric means of the workloads.
pub open spec fn are_combo_means<F: Fn(&[u64]) -> u64>(
    t: TimingsModel,
    exp_mean_ln: F,
    means: Seq<u64>,
) -> bool {
    &&& means.len() == t.per_combo.len()
    &&& forall|i: int|
        0 <= i < means.len() ==> is_geomean(t.per_combo[i], exp_mean_ln, #[trigger] means[i])
}

} // verus!
