//! Hardware counters.
use perf_event::events::Hardware;
use perf_event::{Builder, Counter};
use vstd::prelude::*;

verus! {

/// A hardware counter, opaque.
#[verifier::external_type_specification]
#[verifier::external_body]
pub struct ExCounter(perf_event::Counter);

/// What a hardware counter counts.
pub enum CountedEvent {
    Instructions,
    Cycles,
}

/// A counter that knows what it counts and whether it was enabled, and keeps a ghost record of all
/// that it reads.
pub struct RecordedCounter {
    counter: Counter,
    event: Ghost<CountedEvent>,
    on: bool,
    taken: Ghost<Seq<Option<u64>>>,
}

/// `perf_event::Builder::build` for retired instructions of the calling process. Trusted: that the
/// counter, if the kernel grants one, counts these, and is not enabled yet. Whether the kernel grants
/// it is not known beforehand.
#[verifier::external_body]
fn open_instruction_counter() -> (r: Option<RecordedCounter>)
    ensures
        r matches Some(c) ==> c.is_new(CountedEvent::Instructions),
{
    match Builder::new().kind(Hardware::INSTRUCTIONS).build() {
        Ok(counter) => Some(
            RecordedCounter {
                counter,
                event: Ghost(CountedEvent::Instructions),
                on: false,
                taken: Ghost(Seq::empty()),
            },
        ),
        Err(_) => None,
    }
}

/// `perf_event::Builder::build` for cycles of the calling process. Trusted: that the counter, if the
/// kernel grants one, counts these, and is not enabled yet. Whether the kernel grants it is not known
/// beforehand.
#[verifier::external_body]
fn open_cycle_counter() -> (r: Option<RecordedCounter>)
    ensures
        r matches Some(c) ==> c.is_new(CountedEvent::Cycles),
{
    match Builder::new().kind(Hardware::CPU_CYCLES).build() {
        Ok(counter) => Some(
            RecordedCounter {
                counter,
                event: Ghost(CountedEvent::Cycles),
                on: false,
                taken: Ghost(Seq::empty()),
            },
        ),
        Err(_) => None,
    }
}

/// `perf_event::Counter::enable`. Trusted: that it may be called. The answer tells whether the
/// kernel complied.
#[verifier::external_body]
fn enable_counter(counter: &mut Counter) -> bool {
    counter.enable().is_ok()
}

/// `perf_event::Counter::read`. Trusted: that it may be called. The count is up to the hardware,
/// and there is none where the kernel refuses the read. The call panics where the kernel reports a
/// counter as running for longer than it was enabled; no argument decides that.
#[verifier::external_body]
fn read_counter(counter: &mut Counter) -> Option<u64> {
    counter.read().ok()
}

impl RecordedCounter {
    /// What the counter counts.
    pub closed spec fn event(&self) -> CountedEvent {
        self.event@
    }

    /// Whether the counter was enabled.
    pub closed spec fn enabled(&self) -> bool {
        self.on
    }

    /// The counts that were read, in order; `None` where a read was refused.
    pub closed spec fn readings(&self) -> Seq<Option<u64>> {
        self.taken@
    }

    /// A counter that was opened for the event, and neither enabled nor read.
    pub open spec fn is_new(&self, event: CountedEvent) -> bool {
        &&& self.event() == event
        &&& !self.enabled()
        &&& self.readings().len() == 0
    }

    /// Whether the counter was enabled.
    pub fn is_enabled(&self) -> (r: bool)
        ensures
            r == self.enabled(),
    {
        self.on
    }

    /// Lets the counter count; tells whether the kernel complied.
    fn enable(&mut self) -> (r: bool)
        ensures
            final(self).event() == old(self).event(),
            final(self).enabled() == (r || old(self).enabled()),
            final(self).readings() == old(self).readings(),
    {
        let r: bool = enable_counter(&mut self.counter);
        self.on = r || self.on;
        r
    }

    /// Reads the counter; `None` where the kernel refuses.
    pub fn read(&mut self) -> (r: Option<u64>)
        ensures
            final(self).event() == old(self).event(),
            final(self).enabled() == old(self).enabled(),
            final(self).readings() == old(self).readings().push(r),
    {
        let r: Option<u64> = read_counter(&mut self.counter);
        self.taken = Ghost(self.taken@.push(r));
        r
    }
}

/// What the kernel is asked for.
pub enum Request {
    Open(CountedEvent),
    Enable(CountedEvent),
}

/// What the kernel said to a request.
pub struct Answer {
    pub request: Request,
    pub granted: bool,
}

/// Asks the kernel for counters, and keeps a ghost record of its answers.
pub struct KernelRequests {
    answers: Ghost<Seq<Answer>>,
}

impl KernelRequests {
    /// The answers so far, in order.
    pub closed spec fn answers(&self) -> Seq<Answer> {
        self.answers@
    }

    pub fn new() -> (r: Self)
        ensures
            r.answers().len() == 0,
    {
        KernelRequests { answers: Ghost(Seq::empty()) }
    }

    /// Asks for a counter of retired instructions.
    pub fn open_instructions(&mut self) -> (r: Option<RecordedCounter>)
        ensures
            r matches Some(c) ==> c.is_new(CountedEvent::Instructions),
            final(self).answers() == old(self).answers().push(
                Answer { request: Request::Open(CountedEvent::Instructions), granted: r is Some },
            ),
    {
        let r: Option<RecordedCounter> = open_instruction_counter();
        self.answers = Ghost(
            self.answers@.push(
                Answer { request: Request::Open(CountedEvent::Instructions), granted: r is Some },
            ),
        );
        r
    }

    /// Asks for a counter of cycles.
    pub fn open_cycles(&mut self) -> (r: Option<RecordedCounter>)
        ensures
            r matches Some(c) ==> c.is_new(CountedEvent::Cycles),
            final(self).answers() == old(self).answers().push(
                Answer { request: Request::Open(CountedEvent::Cycles), granted: r is Some },
            ),
    {
        let r: Option<RecordedCounter> = open_cycle_counter();
        self.answers = Ghost(
            self.answers@.push(
                Answer { request: Request::Open(CountedEvent::Cycles), granted: r is Some },
            ),
        );
        r
    }

    /// Asks to let a counter count.
    pub fn enable(&mut self, counter: &mut RecordedCounter) -> (r: bool)
        ensures
            final(counter).event() == old(counter).event(),
            final(counter).enabled() == (r || old(counter).enabled()),
            final(counter).readings() == old(counter).readings(),
            final(self).answers() == old(self).answers().push(
                Answer { request: Request::Enable(old(counter).event()), granted: r },
            ),
    {
        let ghost event = counter.event();
        let r: bool = counter.enable();
        self.answers = Ghost(
            self.answers@.push(Answer { request: Request::Enable(event), granted: r }),
        );
        r
    }
}

/// What is asked for, in order, until something is denied.
pub open spec fn opening_requests() -> Seq<Request> {
    seq![
        Request::Open(CountedEvent::Instructions),
        Request::Open(CountedEvent::Cycles),
        Request::Enable(CountedEvent::Instructions),
        Request::Enable(CountedEvent::Cycles),
    ]
}

/// The answers to the requests, up to the first that was denied.
pub open spec fn is_opening(answers: Seq<Answer>) -> bool {
    &&& 1 <= answers.len() <= opening_requests().len()
    &&& forall|i: int|
        0 <= i < answers.len() ==> (#[trigger] answers[i]).request == opening_requests()[i]
    &&& forall|i: int| 0 <= i < answers.len() - 1 ==> (#[trigger] answers[i]).granted
    &&& answers.len() < opening_requests().len() ==> !answers.last().granted
}

/// Everything that was asked for was granted.
pub open spec fn all_granted(answers: Seq<Answer>) -> bool {
    forall|i: int| 0 <= i < answers.len() ==> (#[trigger] answers[i]).granted
}

} // verus!
