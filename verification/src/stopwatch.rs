//! Measuring the work that is done between a start and a stop.
use vstd::prelude::*;

use crate::perf::{has_started, has_stopped, PerfCounters, PerfMeasurement};

verus! {

/// What is timed: it keeps a ghost record of the calls that it has carried out.
pub trait Worker<C> {
    /// The calls so far, in order.
    spec fn calls(&self) -> Seq<C>;
}

/// A window that was timed: the calls that the worker carried out between start and stop, and what
/// was measured.
pub struct Window<C> {
    pub work: Seq<C>,
    pub measurement: PerfMeasurement,
}

/// Counters that keep a ghost record of the windows that they time.
#[verifier::reject_recursive_types(C)]
pub struct Stopwatch<C> {
    perf: PerfCounters,
    done_before: Ghost<Seq<C>>,
    timed: Ghost<Seq<Window<C>>>,
}

impl<C> Stopwatch<C> {
    /// The counters.
    pub closed spec fn counters(&self) -> PerfCounters {
        self.perf
    }

    /// Whether there are hardware counters.
    pub open spec fn counts(&self) -> bool {
        self.counters().hardware() is Some
    }

    /// The calls that the worker had carried out at the latest start.
    pub closed spec fn begun(&self) -> Seq<C> {
        self.done_before@
    }

    /// The windows that were timed, in order.
    pub closed spec fn windows(&self) -> Seq<Window<C>> {
        self.timed@
    }

    /// A stopwatch that has timed nothing yet, with hardware counters where they can be had.
    pub fn new() -> (r: Self)
        ensures
            r.counters().is_fresh(),
            r.counters().is_opened(),
            r.windows().len() == 0,
    {
        Self::with_counters(PerfCounters::new())
    }

    /// A stopwatch that has timed nothing yet, with the given counters.
    pub fn with_counters(perf: PerfCounters) -> (r: Self)
        ensures
            r.counters() == perf,
            r.windows().len() == 0,
    {
        Stopwatch { perf, done_before: Ghost(Seq::empty()), timed: Ghost(Seq::empty()) }
    }

    /// Whether there are hardware counters.
    pub fn has_pmc(&self) -> (r: bool)
        ensures
            r <==> self.counts(),
    {
        self.perf.has_pmc()
    }

    /// Starts a window. What the worker has done up to now lies outside it.
    pub fn start<W: Worker<C>>(&mut self, worker: &W)
        ensures
            has_started(old(self).counters(), final(self).counters()),
            final(self).begun() == worker.calls(),
            final(self).windows() == old(self).windows(),
            final(self).counts() == old(self).counts(),
    {
        self.perf.start();
        self.done_before = Ghost(worker.calls());
    }

    /// Ends the window that is running. What the worker has done since the start is its work.
    pub fn stop<W: Worker<C>>(&mut self, worker: &W) -> (m: PerfMeasurement)
        requires
            old(self).counters().running(),
            old(self).begun().is_prefix_of(worker.calls()),
        ensures
            has_stopped(old(self).counters(), final(self).counters(), m),
            final(self).windows() == old(self).windows().push(
                Window {
                    work: worker.calls().skip(old(self).begun().len() as int),
                    measurement: m,
                },
            ),
            final(self).counts() == old(self).counts(),
            !old(self).counts() ==> m.instructions is None && m.cycles is None,
    {
        let m: PerfMeasurement = self.perf.stop();
        self.timed = Ghost(
            self.timed@.push(
                Window {
                    work: worker.calls().skip(self.done_before@.len() as int),
                    measurement: m,
                },
            ),
        );
        m
    }
}

} // verus!
