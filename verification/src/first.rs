//! A smaller event loop, which keeps its timed events and ends once nothing has come in for a
//! while.

use vstd::prelude::*;
use crate::readiness::{
    DEFAULT_EVENTS_CAPACITY, Token, event_limit, events_with_capacity, holds_no_event, ready_tokens,
};
use crate::time::{Clock, Duration, Instant, saturating_difference};

verus! {

/// How many seconds a poll waits for something to come in.
pub const POLL_SECONDS: u64 = 10;

/// A callback that is to run once, when `delta_time` has passed since `register_instant`.
pub struct TimedEvent<C> {
    pub callback: C,
    pub register_instant: Instant,
    pub delta_time: Duration,
    pub done: bool,
}

/// What the loop knows, apart from how it is stored.
#[verifier::ext_equal]
pub struct Registry<C> {
    pub timed_events: Seq<TimedEvent<C>>,
    pub exit_events: bool,
    pub fd_events: mio::Events,
    pub clock: Clock,
}

/// Whether `event` is to run at the reading `now`: it has not run, and more than its delay has
/// passed.
pub open spec fn is_runnable<C>(event: TimedEvent<C>, now: Instant) -> bool {
    !event.done && saturating_difference(now@, event.register_instant@) > event.delta_time@
}

/// Whether `next` is the position of the first event to run when those from `from` on are looked
/// at one after the other, the first of them at the first of `readings`, the next at the next.
pub open spec fn is_next<C>(
    events: Seq<TimedEvent<C>>,
    from: int,
    readings: Seq<Instant>,
    next: Option<usize>,
) -> bool {
    match next {
        Some(i) => {
            &&& from <= i < events.len()
            &&& is_runnable(events[i as int], readings[i - from])
            &&& forall|j: int|
                from <= j < i ==> !is_runnable(#[trigger] events[j], readings[j - from])
        },
        None => forall|j: int|
            from <= j < events.len() ==> !is_runnable(#[trigger] events[j], readings[j - from]),
    }
}

/// `registry` once `func` is scheduled at the reading `now`.
pub open spec fn queued<C>(
    registry: Registry<C>,
    func: C,
    delta_time: Duration,
    now: Instant,
) -> Registry<C> {
    Registry {
        timed_events: registry.timed_events.push(
            TimedEvent { callback: func, register_instant: now, delta_time, done: false },
        ),
        ..registry
    }
}

/// `registry` once the event at `index` has run.
pub open spec fn run<C>(registry: Registry<C>, index: int) -> Registry<C> {
    Registry {
        timed_events: registry.timed_events.update(
            index,
            TimedEvent { done: true, ..registry.timed_events[index] },
        ),
        ..registry
    }
}

/// What the owner of the loop is to do, and how to go on after it.
pub enum Action {
    /// Run the callback at `index`, then call [`SpEvents::timed_done`].
    RunTimed { index: usize },
    /// Poll for at most `timeout` into the loop's buffer, then call [`SpEvents::polled`] or
    /// [`SpEvents::poll_failed`].
    Poll { timeout: Duration },
    /// Leave the loop.
    Return,
    /// End the process: polling has failed.
    Abort,
}

/// What comes next in the loop.
pub enum Step {
    /// Look for an event to run, from position `from` on.
    Scan { from: usize },
    /// Leave the loop.
    Return,
    /// End the process: polling has failed.
    Abort,
}

/// The start of a turn.
pub open spec fn turn<C>(registry: Registry<C>) -> Step {
    if registry.exit_events {
        Step::Return
    } else {
        Step::Scan { from: 0 }
    }
}

/// Whether `action` comes out of `step` in `registry`, for some readings of its clock.
pub open spec fn resolves<C>(registry: Registry<C>, step: Step, action: Action) -> bool {
    match step {
        Step::Return => action is Return,
        Step::Abort => action is Abort,
        Step::Scan { from } => exists|readings: Seq<Instant>, next: Option<usize>|
            {
                &&& readings.len() == registry.timed_events.len()
                &&& registry.clock.reads_all(readings)
                &&& #[trigger] is_next(registry.timed_events, from as int, readings, next)
                &&& match next {
                    Some(i) => action == (Action::RunTimed { index: i }),
                    None => action matches Action::Poll { timeout } && timeout@ == POLL_SECONDS
                        * 1_000_000_000,
                }
            },
    }
}

/// An event loop over timed callbacks of type `C`.
pub struct SpEvents<C> {
    /// What the last poll brought.
    pub fd_events: mio::Events,
    clock: Clock,
    timed_events: Vec<TimedEvent<C>>,
    exit_events: bool,
}

impl<C> View for SpEvents<C> {
    type V = Registry<C>;

    closed spec fn view(&self) -> Registry<C> {
        Registry {
            timed_events: self.timed_events@,
            exit_events: self.exit_events,
            fd_events: self.fd_events,
            clock: self.clock,
        }
    }
}

impl<C> SpEvents<C> {
    /// A loop with nothing scheduled.
    pub fn new() -> (events: Self)
        ensures
            events@.timed_events == Seq::<TimedEvent<C>>::empty(),
            !events@.exit_events,
            events@.clock.is_started(),
            ready_tokens(events@.fd_events) == Seq::<Token>::empty(),
            event_limit(events@.fd_events) == DEFAULT_EVENTS_CAPACITY,
    {
        SpEvents {
            fd_events: events_with_capacity(DEFAULT_EVENTS_CAPACITY),
            clock: Clock::start(),
            timed_events: Vec::new(),
            exit_events: false,
        }
    }

    /// Schedules `func` to be called once `delta_time` has elapsed, counted from now.
    pub fn e_queue(&mut self, func: C, delta_time: Duration) -> (status: i32)
        ensures
            status == 0,
            exists|now: Instant|
                old(self)@.clock.reads(now) && final(self)@ == #[trigger] queued(
                    old(self)@,
                    func,
                    delta_time,
                    now,
                ),
    {
        let now = self.clock.now();
        self.queue_at(func, delta_time, now)
    }

    /// Schedules `func` to be called once `delta_time` has elapsed, counted from `now`.
    pub fn queue_at(&mut self, func: C, delta_time: Duration, now: Instant) -> (status: i32)
        ensures
            status == 0,
            final(self)@ == queued(old(self)@, func, delta_time, now),
    {
        self.timed_events.push(
            TimedEvent { callback: func, register_instant: now, delta_time, done: false },
        );
        0
    }

    /// How many events are scheduled, those that have run among them.
    pub fn scheduled(&self) -> (count: usize)
        ensures
            count == self@.timed_events.len(),
    {
        self.timed_events.len()
    }

    /// Sets the flag that ends the event loop.
    pub fn e_exit_events(&mut self)
        ensures
            final(self)@ == (Registry { exit_events: true, ..old(self)@ }),
    {
        self.exit_events = true;
    }

    /// Starts a turn of the event loop, the first one or another.
    pub fn e_handle_events(&self) -> (step: Step)
        ensures
            step == turn(self@),
    {
        if self.exit_events {
            return Step::Return;
        }
        Step::Scan { from: 0 }
    }

    /// The position of the first event to run from `from` on, looked at at `readings`.
    pub fn next_at(&self, from: usize, readings: &Vec<Instant>) -> (next: Option<usize>)
        requires
            readings@.len() >= self@.timed_events.len(),
        ensures
            is_next(self@.timed_events, from as int, readings@, next),
    {
        let mut i: usize = from;
        while i < self.timed_events.len()
            invariant
                from <= i,
                readings@.len() >= self.timed_events@.len(),
                forall|j: int|
                    from <= j < i && j < self.timed_events@.len() ==> !is_runnable(
                        #[trigger] self.timed_events@[j],
                        readings@[j - from],
                    ),
            decreases self.timed_events@.len() - i,
        {
            let event = &self.timed_events[i];
            let elapsed = readings[i - from].duration_since(event.register_instant);
            if !event.done && event.delta_time.is_shorter_than(&elapsed) {
                return Some(i);
            }
            i += 1;
        }
        None
    }

    /// Reads the clock for a step that needs it.
    pub fn resolve(&self, step: Step) -> (action: Action)
        ensures
            resolves(self@, step, action),
    {
        match step {
            Step::Return => Action::Return,
            Step::Abort => Action::Abort,
            Step::Scan { from } => {
                let readings = self.clock.readings(self.scheduled());
                let next = self.next_at(from, &readings);
                match next {
                    Some(index) => Action::RunTimed { index },
                    None => Action::Poll { timeout: Duration::from_secs(POLL_SECONDS) },
                }
            },
        }
    }

    /// The callback at `index`.
    pub fn callback(&mut self, index: usize) -> (callback: &mut C)
        requires
            index < old(self)@.timed_events.len(),
        ensures
            *callback == old(self)@.timed_events[index as int].callback,
            final(self)@ == (Registry {
                timed_events: old(self)@.timed_events.update(
                    index as int,
                    TimedEvent {
                        callback: *final(callback),
                        ..old(self)@.timed_events[index as int]
                    },
                ),
                ..old(self)@
            }),
    {
        &mut self.timed_events[index].callback
    }

    /// Goes on after the callback at `index` has run.
    pub fn timed_done(&mut self, index: usize) -> (step: Step)
        requires
            index < old(self)@.timed_events.len(),
        ensures
            final(self)@ == run(old(self)@, index as int),
            step == (Step::Scan { from: (index + 1) as usize }),
    {
        self.timed_events[index].done = true;
        assert(index < self.timed_events.len());
        Step::Scan { from: index + 1 }
    }

    /// Goes on after a poll has failed: with another turn where it was interrupted.
    pub fn poll_failed(&self, interrupted: bool) -> (step: Step)
        ensures
            step == if interrupted {
                turn(self@)
            } else {
                Step::Abort
            },
    {
        if interrupted {
            return self.e_handle_events();
        }
        Step::Abort
    }

    /// Goes on after a poll: with the end of the loop where nothing came in, else with another
    /// turn.
    pub fn polled(&mut self) -> (step: Step)
        ensures
            final(self)@ == (Registry {
                exit_events: old(self)@.exit_events || ready_tokens(
                    old(self)@.fd_events,
                ).len() == 0,
                ..old(self)@
            }),
            step == turn(final(self)@),
            ready_tokens(old(self)@.fd_events).len() == 0 ==> step == Step::Return,
    {
        if holds_no_event(&self.fd_events) {
            self.e_exit_events();
        }
        self.e_handle_events()
    }
}

/// The sum of `left` and `right`.
pub fn add(left: usize, right: usize) -> (sum: usize)
    requires
        left + right <= usize::MAX,
    ensures
        sum == left + right,
{
    left + right
}

} // verus!
