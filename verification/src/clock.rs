//! The wall clock.
use std::time::Instant;
use vstd::prelude::*;

verus! {

/// A point in time, opaque.
#[verifier::external_type_specification]
#[verifier::external_body]
pub struct ExInstant(std::time::Instant);

/// `std::time::Instant::now`. Trusted: that it may be called. What it returns is up to the clock.
pub assume_specification[ std::time::Instant::now ]() -> std::time::Instant;

/// `std::time::Instant::elapsed`. Trusted: that it may be called. What it returns is up to the
/// clock.
pub assume_specification[ std::time::Instant::elapsed ](
    instant: &std::time::Instant,
) -> std::time::Duration;

/// `std::time::Duration::as_nanos`. Trusted: that it may be called. The durations that are given to
/// it come from the clock, so nothing is stated of the number.
pub assume_specification[ std::time::Duration::as_nanos ](
    duration: &std::time::Duration,
) -> u128;

/// A clock that is started and stopped. It keeps a ghost record of all that it reads.
pub struct Clock {
    start: Option<Instant>,
    starts: Ghost<Seq<Instant>>,
    laps: Ghost<Seq<(Instant, u128)>>,
}

impl Clock {
    /// When the clock was started; `None` where it is not running.
    pub closed spec fn begun(&self) -> Option<Instant> {
        self.start
    }

    /// The points in time that were read at the starts, in order.
    pub closed spec fn starts(&self) -> Seq<Instant> {
        self.starts@
    }

    /// What was read at the stops of the running clock, in order: the point in time at which it had
    /// been started, and the nanoseconds since then.
    pub closed spec fn laps(&self) -> Seq<(Instant, u128)> {
        self.laps@
    }

    /// A clock that is not running and has read nothing.
    pub fn new() -> (r: Self)
        ensures
            r.begun() is None,
            r.starts().len() == 0,
            r.laps().len() == 0,
    {
        Clock { start: None, starts: Ghost(Seq::empty()), laps: Ghost(Seq::empty()) }
    }

    /// Starts the clock at the present time. What it was doing before does not matter.
    pub fn start(&mut self)
        ensures
            final(self).begun() is Some,
            final(self).starts() == old(self).starts().push(final(self).begun()->0),
            final(self).laps() == old(self).laps(),
    {
        let now: Instant = Instant::now();
        self.start = Some(now);
        self.starts = Ghost(self.starts@.push(now));
    }

    /// Stops the clock, and gives the nanoseconds since the start; `None`, and nothing is read, where
    /// the clock was not running.
    pub fn stop(&mut self) -> (r: Option<u128>)
        ensures
            final(self).begun() is None,
            final(self).starts() == old(self).starts(),
            r is Some <==> old(self).begun() is Some,
            final(self).laps() == match r {
                Some(ns) => old(self).laps().push((old(self).begun()->0, ns)),
                None => old(self).laps(),
            },
    {
        match self.start.take() {
            Some(start) => {
                let ns: u128 = start.elapsed().as_nanos();
                self.laps = Ghost(self.laps@.push((start, ns)));
                Some(ns)
            },
            None => None,
        }
    }
}

} // verus!
