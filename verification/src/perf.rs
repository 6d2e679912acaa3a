//! Counters of one measurement: the wall clock always, and the hardware counters for retired
//! instructions and cycles where the kernel grants access to them.
use vstd::prelude::*;

use crate::clock::Clock;
use crate::counter::{
    all_granted, is_opening, Answer, CountedEvent, KernelRequests, RecordedCounter,
};

verus! {

/// One measurement. The counts are absent where there are no hardware counters.
#[derive(Clone, Copy, Debug)]
pub struct PerfMeasurement {
    pub wall_clock_ns: u64,
    pub instructions: Option<u64>,
    pub cycles: Option<u64>,
}

impl Default for PerfMeasurement {
    fn default() -> (r: Self)
        ensures
            r.wall_clock_ns == 0,
            r.instructions is None,
            r.cycles is None,
    {
        PerfMeasurement { wall_clock_ns: 0, instructions: None, cycles: None }
    }
}

/// The count since a baseline: never below zero, and absent where the reading is.
pub open spec fn delta(reading: Option<u64>, baseline: u64) -> Option<u64> {
    match reading {
        Some(v) => Some(if v >= baseline { (v - baseline) as u64 } else { 0 }),
        None => None,
    }
}

/// The count since a baseline: never below zero, and absent where the reading is.
pub fn counter_delta(reading: Option<u64>, baseline: u64) -> (r: Option<u64>)
    ensures
        r == delta(reading, baseline),
        r is Some <==> reading is Some,
        reading matches Some(v) ==> (v >= baseline ==> r->Some_0 + baseline == v) && (v < baseline
            ==> r->Some_0 == 0),
{
    match reading {
        Some(v) => Some(v.saturating_sub(baseline)),
        None => None,
    }
}

/// The measurement of a window: the time that passed, of which the lower 64 bits are kept, or none
/// where the clock was not running; and the counts.
pub fn measured(
    elapsed_ns: Option<u128>,
    counts: (Option<u64>, Option<u64>),
) -> (m: PerfMeasurement)
    ensures
        m.wall_clock_ns == match elapsed_ns {
            Some(ns) => ns as u64,
            None => 0,
        },
        m.instructions == counts.0,
        m.cycles == counts.1,
{
    let wall_clock_ns: u64 = match elapsed_ns {
        Some(ns) => ns as u64,
        None => 0,
    };
    PerfMeasurement { wall_clock_ns, instructions: counts.0, cycles: counts.1 }
}

/// The measurement of no window at all. Counts are absent without hardware counters.
pub open spec fn nothing_measured(pmc: bool) -> PerfMeasurement {
    let count = if pmc {
        Some(0u64)
    } else {
        None
    };
    PerfMeasurement { wall_clock_ns: 0, instructions: count, cycles: count }
}

/// The baseline that a reading gives: zero where it failed.
pub open spec fn baseline_of(reading: Option<u64>) -> u64 {
    match reading {
        Some(v) => v,
        None => 0,
    }
}

/// What was read of the counter of instructions and of that of cycles.
pub type Counts = (Option<u64>, Option<u64>);

/// The two hardware counters, with the counts that they had at the start of the measurement.
pub struct Pmc {
    instructions: RecordedCounter,
    cycles: RecordedCounter,
    instr_start: u64,
    cycles_start: u64,
}

impl Pmc {
    /// The baselines of instructions and of cycles.
    pub closed spec fn baselines(&self) -> (u64, u64) {
        (self.instr_start, self.cycles_start)
    }

    /// The counters of instructions and of cycles.
    pub closed spec fn counters(&self) -> (RecordedCounter, RecordedCounter) {
        (self.instructions, self.cycles)
    }

    /// What the two counters count.
    pub open spec fn events(&self) -> (CountedEvent, CountedEvent) {
        (self.counters().0.event(), self.counters().1.event())
    }

    /// Both counters were enabled.
    pub open spec fn enabled(&self) -> bool {
        self.counters().0.enabled() && self.counters().1.enabled()
    }

    /// The counts that were read of either counter, in order.
    pub open spec fn readings(&self) -> (Seq<Option<u64>>, Seq<Option<u64>>) {
        (self.counters().0.readings(), self.counters().1.readings())
    }

    /// Each counter was read once more than `before`, with these counts. Nothing else was done to
    /// them.
    pub open spec fn has_read(&self, before: Pmc, counts: Counts) -> bool {
        &&& self.readings() == (
            before.readings().0.push(counts.0),
            before.readings().1.push(counts.1),
        )
        &&& self.events() == before.events()
        &&& self.counters().0.enabled() == before.counters().0.enabled()
        &&& self.counters().1.enabled() == before.counters().1.enabled()
    }

    /// The counts that were read last.
    pub open spec fn last_counts(&self) -> Counts {
        (self.readings().0.last(), self.readings().1.last())
    }

    /// Nothing has been read, and the baselines are zero.
    pub open spec fn is_fresh(&self) -> bool {
        &&& self.baselines() == (0u64, 0u64)
        &&& self.readings().0.len() == 0
        &&& self.readings().1.len() == 0
    }

    /// One counter counts instructions and one cycles, both are enabled, and nothing has been read.
    pub open spec fn is_open(&self) -> bool {
        &&& self.events() == (CountedEvent::Instructions, CountedEvent::Cycles)
        &&& self.enabled()
        &&& self.is_fresh()
    }

    /// Opens and enables both counters; `None` where any of this is denied.
    pub fn try_new() -> (r: Option<Self>)
        ensures
            r matches Some(pmc) ==> pmc.is_open(),
    {
        let mut requests: KernelRequests = KernelRequests::new();
        Self::open(&mut requests)
    }

    /// Asks the kernel for both counters and to enable them, until it denies something. There are
    /// counters if and only if it grants everything.
    pub fn open(requests: &mut KernelRequests) -> (r: Option<Self>)
        ensures
            old(requests).answers().is_prefix_of(final(requests).answers()),
            is_opening(
                final(requests).answers().skip(old(requests).answers().len() as int),
            ),
            r is Some <==> all_granted(
                final(requests).answers().skip(old(requests).answers().len() as int),
            ),
            r matches Some(pmc) ==> pmc.is_open(),
    {
        let ghost n = requests.answers().len() as int;
        let mut instructions: Option<RecordedCounter> = requests.open_instructions();
        let mut cycles: Option<RecordedCounter> = if instructions.is_some() {
            requests.open_cycles()
        } else {
            None
        };
        match &mut instructions {
            Some(first) => match &mut cycles {
                Some(second) => {
                    if requests.enable(first) {
                        requests.enable(second);
                    }
                },
                None => {},
            },
            None => {},
        }
        let r: Option<Self> = Self::from_opened(instructions, cycles);
        proof {
            let answers = requests.answers().skip(n);
            assert(answers.len() >= 1 && answers[0].granted == instructions is Some);
            if answers.len() >= 2 {
                assert(answers[1].granted == cycles is Some);
            }
            assert(answers.last() == answers[answers.len() - 1]);
        }
        r
    }

    /// Takes what opening the two counters gave: `None` where a counter is missing or not enabled.
    pub fn from_opened(
        instructions: Option<RecordedCounter>,
        cycles: Option<RecordedCounter>,
    ) -> (r: Option<Self>)
        ensures
            r is Some <==> {
                &&& instructions matches Some(i) && i.enabled()
                &&& cycles matches Some(c) && c.enabled()
            },
            r matches Some(pmc) ==> pmc.counters() == (instructions->0, cycles->0)
                && pmc.baselines() == (0u64, 0u64),
    {
        match (instructions, cycles) {
            (Some(instructions), Some(cycles)) => {
                if instructions.is_enabled() && cycles.is_enabled() {
                    Some(Self::with_counters(instructions, cycles))
                } else {
                    None
                }
            },
            _ => None,
        }
    }

    /// Takes two counters.
    pub fn with_counters(instructions: RecordedCounter, cycles: RecordedCounter) -> (r: Self)
        ensures
            r.counters() == (instructions, cycles),
            r.baselines() == (0u64, 0u64),
    {
        Pmc { instructions, cycles, instr_start: 0, cycles_start: 0 }
    }

    /// Takes two readings as the new baselines.
    pub fn set_baselines(&mut self, instructions: Option<u64>, cycles: Option<u64>)
        ensures
            final(self).baselines() == (baseline_of(instructions), baseline_of(cycles)),
            instructions matches Some(v) ==> final(self).baselines().0 == v,
            cycles matches Some(v) ==> final(self).baselines().1 == v,
            instructions is None ==> final(self).baselines().0 == 0,
            cycles is None ==> final(self).baselines().1 == 0,
            final(self).counters() == old(self).counters(),
    {
        self.instr_start = match instructions {
            Some(v) => v,
            None => 0,
        };
        self.cycles_start = match cycles {
            Some(v) => v,
            None => 0,
        };
    }

    /// Reads both counters, each once.
    fn read(&mut self) -> (counts: Counts)
        ensures
            final(self).has_read(*old(self), counts),
            final(self).baselines() == old(self).baselines(),
    {
        let instructions: Option<u64> = self.instructions.read();
        let cycles: Option<u64> = self.cycles.read();
        (instructions, cycles)
    }

    /// Reads both counters as the new baselines.
    pub fn snapshot_start(&mut self)
        ensures
            final(self).has_read(*old(self), final(self).last_counts()),
            final(self).baselines() == (
                baseline_of(final(self).last_counts().0),
                baseline_of(final(self).last_counts().1),
            ),
    {
        let (instructions, cycles) = self.read();
        self.set_baselines(instructions, cycles);
    }

    /// Reads both counters, and gives what they counted since the baselines.
    pub fn delta_since_start(&mut self) -> (r: Counts)
        ensures
            final(self).has_read(*old(self), final(self).last_counts()),
            final(self).baselines() == old(self).baselines(),
            r == (
                delta(final(self).last_counts().0, old(self).baselines().0),
                delta(final(self).last_counts().1, old(self).baselines().1),
            ),
    {
        let (instructions, cycles) = self.read();
        (
            counter_delta(instructions, self.instr_start),
            counter_delta(cycles, self.cycles_start),
        )
    }
}

/// The counters of a measurement window.
pub struct PerfCounters {
    clock: Clock,
    pmc: Option<Pmc>,
    taken: Ghost<Seq<PerfMeasurement>>,
    asked: Ghost<Seq<Answer>>,
}

/// A measurement was started: the wall clock was read and runs from there, and the hardware counters
/// were read, which gave their new baselines.
pub open spec fn has_started(before: PerfCounters, after: PerfCounters) -> bool {
    &&& after.running()
    &&& after.wall_clock().starts() == before.wall_clock().starts().push(
        after.wall_clock().begun()->0,
    )
    &&& after.wall_clock().laps() == before.wall_clock().laps()
    &&& after.hardware() is Some <==> before.hardware() is Some
    &&& after.hardware() matches Some(pmc) ==> pmc.has_read(
        before.hardware()->0,
        pmc.last_counts(),
    ) && pmc.baselines() == (
        baseline_of(pmc.last_counts().0),
        baseline_of(pmc.last_counts().1),
    )
    &&& after.history() == before.history()
    &&& after.opening() == before.opening()
}

/// A measurement was stopped, which gave `m`. Where one was running, the wall clock was read, and `m`
/// has the time since the latest start; and the hardware counters were read, and `m` has what they
/// counted beyond their baselines. Where none was running, nothing was read, and all of `m` is zero.
pub open spec fn has_stopped(
    before: PerfCounters,
    after: PerfCounters,
    m: PerfMeasurement,
) -> bool {
    &&& !after.running()
    &&& after.history() == before.history().push(m)
    &&& after.opening() == before.opening()
    &&& after.wall_clock().starts() == before.wall_clock().starts()
    &&& after.hardware() is Some <==> before.hardware() is Some
    &&& before.hardware() is None ==> m.instructions is None && m.cycles is None
    &&& if before.running() {
        let lap = after.wall_clock().laps().last();
        &&& after.wall_clock().laps() == before.wall_clock().laps().push(lap)
        &&& lap.0 == before.wall_clock().begun()->0
        &&& m.wall_clock_ns == lap.1 as u64
        &&& before.hardware() is Some ==> {
            let old_pmc = before.hardware()->0;
            let pmc = after.hardware()->0;
            &&& pmc.has_read(old_pmc, pmc.last_counts())
            &&& pmc.baselines() == old_pmc.baselines()
            &&& m.instructions == delta(pmc.last_counts().0, old_pmc.baselines().0)
            &&& m.cycles == delta(pmc.last_counts().1, old_pmc.baselines().1)
        }
    } else {
        &&& m == nothing_measured(before.hardware() is Some)
        &&& after.wall_clock().laps() == before.wall_clock().laps()
        &&& after.hardware() == before.hardware()
    }
}

/// A stop gives the time since the latest start, and what each hardware counter reads beyond what it
/// read at that start. Earlier starts and stops do not matter.
pub proof fn lemma_latest_start(
    before: PerfCounters,
    started: PerfCounters,
    stopped: PerfCounters,
    m: PerfMeasurement,
)
    requires
        has_started(before, started),
        has_stopped(started, stopped, m),
    ensures
        stopped.wall_clock().laps() == before.wall_clock().laps().push(
            stopped.wall_clock().laps().last(),
        ),
        stopped.wall_clock().laps().last().0 == stopped.wall_clock().starts().last(),
        m.wall_clock_ns == stopped.wall_clock().laps().last().1 as u64,
        before.hardware() is None ==> m.instructions is None && m.cycles is None,
        before.hardware() is Some ==> {
            let first = started.hardware()->0.last_counts();
            let second = stopped.hardware()->0.last_counts();
            &&& m.instructions == delta(second.0, baseline_of(first.0))
            &&& m.cycles == delta(second.1, baseline_of(first.1))
        },
{
}

/// What a measurement holds, in numbers: the time since the latest start, as long as it fits; and of
/// each counter the reading at the stop less the reading at the start. Where the start could not be
/// read it counts as zero; where the counter went backwards there is nothing; and where the stop could
/// not be read there is no count.
pub proof fn lemma_counted(
    before: PerfCounters,
    started: PerfCounters,
    stopped: PerfCounters,
    m: PerfMeasurement,
)
    requires
        has_started(before, started),
        has_stopped(started, stopped, m),
    ensures
        stopped.wall_clock().laps().last().1 <= u64::MAX ==> m.wall_clock_ns
            == stopped.wall_clock().laps().last().1,
        before.hardware() is Some ==> {
            let first = started.hardware()->0.last_counts();
            let second = stopped.hardware()->0.last_counts();
            &&& is_difference(first.0, second.0, m.instructions)
            &&& is_difference(first.1, second.1, m.cycles)
        },
{
}

/// `count` is what a counter went on from the first reading to the second.
pub open spec fn is_difference(
    first: Option<u64>,
    second: Option<u64>,
    count: Option<u64>,
) -> bool {
    match (first, second, count) {
        (Some(from), Some(to), Some(n)) => from + n == to || to < from && n == 0,
        (None, Some(to), Some(n)) => n == to,
        (_, None, None) => true,
        _ => false,
    }
}

/// Starting and stopping leaves it at that whether there are hardware counters: after any of it they
/// are there if and only if the kernel granted and enabled both, and count what they counted before.
pub proof fn lemma_has_pmc(before: PerfCounters, after: PerfCounters, m: PerfMeasurement)
    requires
        has_started(before, after) || has_stopped(before, after, m),
        before.hardware() is Some <==> all_granted(before.opening()),
    ensures
        after.hardware() is Some <==> before.hardware() is Some,
        after.hardware() is Some <==> all_granted(after.opening()),
        after.hardware() matches Some(pmc) ==> pmc.events() == before.hardware()->0.events()
            && pmc.enabled() == before.hardware()->0.enabled(),
{
}

impl Default for PerfCounters {
    fn default() -> (r: Self)
        ensures
            r.is_fresh(),
            r.is_opened(),
    {
        Self::new()
    }
}

impl PerfCounters {
    /// The wall clock.
    pub closed spec fn wall_clock(&self) -> Clock {
        self.clock
    }

    /// Whether a measurement has been started and not stopped.
    pub open spec fn running(&self) -> bool {
        self.wall_clock().begun() is Some
    }

    /// The hardware counters.
    pub closed spec fn hardware(&self) -> Option<Pmc> {
        self.pmc
    }

    /// All measurements that were taken, in order: one for each stop.
    pub closed spec fn history(&self) -> Seq<PerfMeasurement> {
        self.taken@
    }

    /// What the kernel said when it was asked for hardware counters; nothing where it was not asked.
    pub closed spec fn opening(&self) -> Seq<Answer> {
        self.asked@
    }

    /// The kernel was asked for hardware counters, and there are some, as they come from it, if and
    /// only if it granted and enabled both.
    pub open spec fn is_opened(&self) -> bool {
        &&& is_opening(self.opening())
        &&& self.hardware() is Some <==> all_granted(self.opening())
        &&& self.hardware() matches Some(pmc) ==> pmc.is_open()
    }

    /// The clock is not running, and nothing has been read of it or measured.
    pub open spec fn is_fresh(&self) -> bool {
        &&& !self.running()
        &&& self.wall_clock().starts().len() == 0
        &&& self.wall_clock().laps().len() == 0
        &&& self.history().len() == 0
    }

    /// Counters that are not running, with hardware counters where they can be had.
    pub fn new() -> (r: Self)
        ensures
            r.is_fresh(),
            r.is_opened(),
    {
        let mut requests: KernelRequests = KernelRequests::new();
        let ghost before = requests.answers();
        let pmc: Option<Pmc> = Pmc::open(&mut requests);
        assert(requests.answers().skip(before.len() as int) =~= requests.answers());
        PerfCounters {
            clock: Clock::new(),
            pmc,
            taken: Ghost(Seq::empty()),
            asked: Ghost(requests.answers()),
        }
    }

    /// Counters that are not running, with the given hardware counters or without any.
    pub fn with_pmc(pmc: Option<Pmc>) -> (r: Self)
        ensures
            r.is_fresh(),
            r.hardware() == pmc,
            r.opening().len() == 0,
    {
        PerfCounters {
            clock: Clock::new(),
            pmc,
            taken: Ghost(Seq::empty()),
            asked: Ghost(Seq::empty()),
        }
    }

    /// Whether there are hardware counters.
    pub fn has_pmc(&self) -> (r: bool)
        ensures
            r <==> self.hardware() is Some,
    {
        self.pmc.is_some()
    }

    /// Starts a measurement: the wall clock is read and runs from there, and the hardware counters
    /// are read, which gives their new baselines.
    pub fn start(&mut self)
        ensures
            has_started(*old(self), *final(self)),
    {
        self.clock.start();
        match &mut self.pmc {
            Some(pmc) => pmc.snapshot_start(),
            None => {},
        }
    }

    /// Stops a measurement, and gives what was measured since the latest start: the time that the
    /// clock reads now, and what the hardware counters have counted beyond their baselines when they
    /// are read now. Without a start nothing is read, and all of it is zero.
    pub fn stop(&mut self) -> (m: PerfMeasurement)
        ensures
            has_stopped(*old(self), *final(self), m),
    {
        let elapsed_ns: Option<u128> = self.clock.stop();
        let counts: Counts = match elapsed_ns {
            Some(_) => match &mut self.pmc {
                Some(pmc) => pmc.delta_since_start(),
                None => (None, None),
            },
            None => if self.pmc.is_some() {
                (Some(0), Some(0))
            } else {
                (None, None)
            },
        };
        let m: PerfMeasurement = measured(elapsed_ns, counts);
        self.taken = Ghost(self.taken@.push(m));
        m
    }
}

} // verus!
