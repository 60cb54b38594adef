//! The event loop: what is scheduled, what is attached, and what to do next.

use vstd::prelude::*;
use vstd::std_specs::cmp::PartialEqSpec;
use crate::readiness::{
    DEFAULT_EVENTS_CAPACITY, Token, event_limit, events_with_capacity, ready_tokens, tokens_of,
};
use crate::registry::{
    FdEvent, Registry, TimedEvent, attached_to, callback_index, dequeued, detached, elapsed,
    entered, fd_index, is_dequeue, is_least, is_queued, is_timeout,
    lemma_callback_index, lemma_fd_index, put_back, queued, remaining, swap_removed, sweep, waits,
};
use crate::steps::{
    Action, ActionView, FdPhase, Step, StepView, after_fd, after_timed, collect, is_some_timeout,
    lemma_gone_is_not_served, next_fd, next_timed, resolves,
};
use crate::time::{Clock, Duration, Instant};

verus! {

/// How urgent an attached descriptor is.
#[derive(Clone, Copy, Debug, PartialEq, Eq, Structural)]
pub enum Priority {
    LowPriority,
    MediumPriority,
    HighPriority,
}

/// Why a descriptor was not attached.
pub enum AttachError<E> {
    /// As many descriptors are attached as the loop takes.
    CapacityReached,
    /// The operating system did not register the source.
    Register(E),
}

/// What attaching `source` comes to, given how its registration went, and what it leaves.
pub open spec fn attach_outcome<C, F, E>(
    registry: Registry<C, F>,
    source: F,
    priority: Priority,
    registered: Result<(), E>,
) -> (Result<(), AttachError<E>>, Registry<C, F>) {
    if registry.fd_events.len() == DEFAULT_EVENTS_CAPACITY {
        (Err(AttachError::CapacityReached), registry)
    } else {
        match registered {
            Err(error) => (Err(AttachError::Register(error)), registry),
            Ok(_) => (Ok(()), attached_to(registry, source)),
        }
    }
}

/// What to tell the user when [`AttachError::CapacityReached`] comes back.
pub const CAPACITY_MESSAGE: &'static str = "Maximum number of FD events already registered";

/// An event loop over timed callbacks of type `C` and attached descriptors with data of type `F`.
pub struct SpEvents<C, F> {
    clock: Clock,
    fd_events: Vec<FdEvent<F>>,
    serving: Vec<Token>,
    timed_events: Vec<TimedEvent<C>>,
    due: Vec<TimedEvent<C>>,
    exit_events: bool,
    next_token: usize,
}

impl<C, F> View for SpEvents<C, F> {
    type V = Registry<C, F>;

    closed spec fn view(&self) -> Registry<C, F> {
        Registry {
            timed_events: self.timed_events@,
            due: self.due@,
            fd_events: self.fd_events@,
            serving: self.serving@.to_set(),
            exit_events: self.exit_events,
            next_token: self.next_token,
            clock: self.clock,
        }
    }
}

impl<C, F> SpEvents<C, F> {
    /// A loop with nothing scheduled and nothing attached.
    pub fn new() -> (events: Self)
        ensures
            events@.timed_events == Seq::<TimedEvent<C>>::empty(),
            events@.due == Seq::<TimedEvent<C>>::empty(),
            events@.fd_events == Seq::<FdEvent<F>>::empty(),
            events@.serving == Set::<Token>::empty(),
            !events@.exit_events,
            events@.next_token == 0,
            events@.clock.is_started(),
            events@.wf(),
    {
        SpEvents {
            clock: Clock::start(),
            fd_events: Vec::new(),
            serving: Vec::new(),
            timed_events: Vec::new(),
            due: Vec::new(),
            exit_events: false,
            next_token: 0,
        }
    }

    /// Schedules `func` to be called after `delta_time` elapses, counted from now.
    pub fn e_queue(&mut self, func: C, delta_time: Duration) -> (status: i32)
        ensures
            status == 0,
            exists|now: Instant|
                old(self)@.clock.reads(now) && final(self)@ == #[trigger] queued(
                    old(self)@,
                    func,
                    delta_time,
                    now,
                ),
            old(self)@.wf() ==> final(self)@.wf(),
    {
        let now = self.clock.now();
        self.queue_at(func, delta_time, now)
    }

    /// Schedules `func` to be called after `delta_time` elapses, counted from `now`.
    pub fn queue_at(&mut self, func: C, delta_time: Duration, now: Instant) -> (status: i32)
        ensures
            status == 0,
            final(self)@ == queued(old(self)@, func, delta_time, now),
            old(self)@.wf() ==> final(self)@.wf(),
    {
        let event = TimedEvent { callback: func, register_instant: now, delta_time };
        self.timed_events.push(event);
        0
    }

    /// Un-schedules the first event whose callback is `func`, be it still waiting or already due:
    /// 0 where there is one, else -1.
    pub fn e_dequeue(&mut self, func: C) -> (status: i32) where C: PartialEq
        ensures
            is_dequeue(old(self)@, status, final(self)@),
            C::obeys_eq_spec() ==> (status, final(self)@) == dequeued(old(self)@, func),
            old(self)@.wf() ==> final(self)@.wf(),
    {
        let mut i: usize = 0;
        while i < self.timed_events.len()
            invariant
                i <= self.timed_events@.len(),
                self@ == old(self)@,
                C::obeys_eq_spec() ==> forall|j: int|
                    0 <= j < i ==> !(#[trigger] self.timed_events@[j]).callback.eq_spec(&func),
            decreases self.timed_events@.len() - i,
        {
            if self.timed_events[i].callback == func {
                self.timed_events.swap_remove(i);
                proof {
                    let events = old(self)@.timed_events;
                    assert(self@ == (Registry {
                        timed_events: swap_removed(events, i as int),
                        ..old(self)@
                    }));
                    if C::obeys_eq_spec() {
                        lemma_callback_index(events, func, i as int);
                    }
                }
                return 0;
            } else {
                i += 1;
            }
        }
        let mut i: usize = 0;
        while i < self.due.len()
            invariant
                i <= self.due@.len(),
                self@ == old(self)@,
                C::obeys_eq_spec() ==> callback_index(self@.timed_events, func) is None,
                C::obeys_eq_spec() ==> forall|j: int|
                    0 <= j < i ==> !(#[trigger] self.due@[j]).callback.eq_spec(&func),
            decreases self.due@.len() - i,
        {
            if self.due[i].callback == func {
                self.due.remove(i);
                proof {
                    let events = old(self)@.due;
                    assert(self@ == (Registry { due: events.remove(i as int), ..old(self)@ }));
                    if C::obeys_eq_spec() {
                        lemma_callback_index(events, func, i as int);
                    }
                }
                return 0;
            } else {
                i += 1;
            }
        }
        -1
    }

    /// The token under which the next source is to be registered, or the refusal where as many
    /// descriptors are attached as the loop takes.
    pub fn attach_token<E>(&self) -> (token: Result<Token, AttachError<E>>)
        ensures
            token == (if self@.fd_events.len() == DEFAULT_EVENTS_CAPACITY {
                Err(AttachError::<E>::CapacityReached)
            } else {
                Ok(Token(self@.next_token))
            }),
    {
        if self.fd_events.len() == DEFAULT_EVENTS_CAPACITY {
            return Err(AttachError::CapacityReached);
        }
        Ok(Token(self.next_token))
    }

    /// Attaches `source`, given how its registration under [`SpEvents::attach_token`] went.
    #[allow(unused_variables)]
    pub fn e_attach_fd<E>(
        &mut self,
        source: F,
        priority: Priority,
        registered: Result<(), E>,
    ) -> (attached: Result<(), AttachError<E>>)
        requires
            old(self)@.fd_events.len() != DEFAULT_EVENTS_CAPACITY && registered is Ok ==> old(
                self,
            )@.next_token < usize::MAX,
        ensures
            (attached, final(self)@) == attach_outcome(old(self)@, source, priority, registered),
            old(self)@.wf() ==> final(self)@.wf(),
    {
        if self.fd_events.len() == DEFAULT_EVENTS_CAPACITY {
            return Err(AttachError::CapacityReached);
        }
        let token = Token(self.next_token);
        if let Err(error) = registered {
            return Err(AttachError::Register(error));
        }
        self.next_token += 1;
        self.fd_events.push(FdEvent { token, source });
        Ok(())
    }

    /// Detaches the descriptor with `token`: 0 where there is one, else -1. The descriptor comes
    /// with it, to have its source deregistered, unless its callback runs: then
    /// [`SpEvents::fd_done`] hands it out.
    pub fn e_detach_fd(&mut self, token: Token) -> (status: (i32, Option<FdEvent<F>>))
        ensures
            (status, final(self)@) == detached(old(self)@, token),
            old(self)@.wf() ==> final(self)@.wf(),
            old(self)@.wf() && status.0 == 0 ==> final(self)@.is_gone(token),
    {
        if let Some(event) = self.get_fd_event_by_token(token) {
            return (0, Some(event));
        }
        if take_token(&mut self.serving, token) {
            assert(self@ == detached(old(self)@, token).1);
            return (0, None);
        }
        (-1, None)
    }

    /// Takes out the first attached descriptor with `token`.
    pub fn get_fd_event_by_token(&mut self, token: Token) -> (event: Option<FdEvent<F>>)
        ensures
            match fd_index(old(self)@.fd_events, token) {
                Some(i) => event == Some(old(self)@.fd_events[i]) && final(self)@ == (Registry {
                    fd_events: swap_removed(old(self)@.fd_events, i),
                    ..old(self)@
                }),
                None => event == None::<FdEvent<F>> && final(self)@ == old(self)@,
            },
            event matches Some(found) ==> found.token == token,
            old(self)@.wf() ==> final(self)@.wf(),
            old(self)@.wf() && event is Some ==> final(self)@.is_gone(token),
    {
        let mut i: usize = 0;
        while i < self.fd_events.len()
            invariant
                i <= self.fd_events@.len(),
                self@ == old(self)@,
                forall|j: int| 0 <= j < i ==> (#[trigger] self.fd_events@[j]).token != token,
            decreases self.fd_events@.len() - i,
        {
            if self.fd_events[i].get_token() == token {
                proof {
                    lemma_fd_index(self.fd_events@, token, i as int);
                }
                return Some(self.fd_events.swap_remove(i));
            } else {
                i += 1;
            }
        }
        None
    }

    /// Sets the flag that ends the event loop.
    pub fn e_exit_events(&mut self)
        ensures
            final(self)@ == (Registry { exit_events: true, ..old(self)@ }),
            old(self)@.wf() ==> final(self)@.wf(),
    {
        self.exit_events = true;
    }

    /// How many events are scheduled.
    pub fn scheduled(&self) -> (count: usize)
        ensures
            count == self@.timed_events.len(),
    {
        self.timed_events.len()
    }

    /// Takes out the events that are due, each looked at at its own reading of the clock.
    pub fn get_ready_events(&mut self) -> (ready: Vec<TimedEvent<C>>)
        ensures
            exists|readings: Seq<Instant>|
                {
                    &&& readings.len() == old(self)@.timed_events.len()
                    &&& old(self)@.clock.reads_all(readings)
                    &&& (final(self)@.timed_events, ready@) == #[trigger] sweep(
                        old(self)@.timed_events,
                        0,
                        readings,
                    )
                },
            final(self)@ == (Registry { timed_events: final(self)@.timed_events, ..old(self)@ }),
            old(self)@.wf() ==> final(self)@.wf(),
    {
        let readings = self.clock.readings(self.scheduled());
        self.take_ready(&readings)
    }

    /// Takes out the events that are due, the event that is looked at first at the first of
    /// `readings`, the next at the next.
    pub fn take_ready(&mut self, readings: &Vec<Instant>) -> (ready: Vec<TimedEvent<C>>)
        requires
            readings@.len() >= old(self)@.timed_events.len(),
        ensures
            (final(self)@.timed_events, ready@) == sweep(old(self)@.timed_events, 0, readings@),
            final(self)@ == (Registry { timed_events: final(self)@.timed_events, ..old(self)@ }),
            old(self)@.wf() ==> final(self)@.wf(),
    {
        let mut ready: Vec<TimedEvent<C>> = Vec::new();
        let mut i: usize = 0;
        let mut k: usize = 0;
        assert(readings@.skip(0) == readings@);
        while i < self.timed_events.len()
            invariant
                i <= self.timed_events@.len(),
                k + self.timed_events@.len() == i + old(self)@.timed_events.len(),
                readings@.len() >= old(self)@.timed_events.len(),
                self@ == (Registry { timed_events: self.timed_events@, ..old(self)@ }),
                sweep(old(self)@.timed_events, 0, readings@) == ({
                    let (kept, more) = sweep(
                        self.timed_events@,
                        i as int,
                        readings@.skip(k as int),
                    );
                    (kept, ready@ + more)
                }),
            decreases self.timed_events@.len() - i,
        {
            let ghost events = self.timed_events@;
            let ghost found = ready@;
            assert(k < readings.len());
            assert(readings@.skip(k as int).drop_first() == readings@.skip(k + 1));
            let event = &self.timed_events[i];
            let elapsed = readings[k].duration_since(event.register_instant);
            if event.delta_time.is_shorter_than(&elapsed) {
                let event = self.timed_events.swap_remove(i);
                ready.push(event);
                proof {
                    let more = sweep(self.timed_events@, i as int, readings@.skip(k + 1)).1;
                    assert(found + (seq![events[i as int]] + more) == ready@ + more);
                }
            } else {
                i += 1;
            }
            k += 1;
        }
        assert(ready@ + seq![] == ready@);
        ready
    }

    /// How long the loop may wait until an event is due, each looked at at its own reading of the
    /// clock; without end where nothing is scheduled.
    pub fn get_next_timeout(&self) -> (timeout: Option<Duration>)
        ensures
            is_some_timeout(self@.clock, self@.timed_events, timeout),
    {
        let mut readings = self.clock.readings(self.scheduled());
        readings.push(self.clock.now());
        self.timeout_at(&readings)
    }

    /// How long the loop may wait until an event is due, the first event looked at at the first of
    /// `readings`, then every event at the readings after it.
    pub fn timeout_at(&self, readings: &Vec<Instant>) -> (timeout: Option<Duration>)
        requires
            readings@.len() > self@.timed_events.len(),
        ensures
            is_timeout(self@.timed_events, readings@, timeout),
    {
        if self.timed_events.is_empty() {
            return None;
        }
        let event = &self.timed_events[0];
        let mut min_timeout = event.delta_time.saturating_sub(
            readings[0].duration_since(event.register_instant),
        );
        let ghost all = waits(self.timed_events@, readings@);
        assert(all.take(1)[0] == min_timeout@);
        let mut i: usize = 0;
        while i < self.timed_events.len()
            invariant
                i <= self.timed_events@.len(),
                readings@.len() > self.timed_events@.len(),
                all == waits(self.timed_events@, readings@),
                is_least(min_timeout@, all.take(i + 1)),
            decreases self.timed_events@.len() - i,
        {
            let event = &self.timed_events[i];
            let new_timeout = event.delta_time.saturating_sub(
                readings[i + 1].duration_since(event.register_instant),
            );
            let ghost before = all.take(i + 1);
            let ghost after = all.take(i + 2);
            assert(after == before.push(new_timeout@));
            let ghost least = min_timeout@;
            if new_timeout.is_shorter_than(&min_timeout) {
                min_timeout = new_timeout;
            }
            proof {
                assert(after[i + 1] == new_timeout@);
                let k = choose|k: int| 0 <= k < before.len() && before[k] == least;
                assert(after[k] == least);
                assert forall|j: int| 0 <= j < after.len() implies min_timeout@
                    <= #[trigger] after[j] by {
                    if j < before.len() {
                        assert(before[j] == after[j]);
                    }
                }
            }
            i += 1;
        }
        assert(all.take(i + 1) == all);
        Some(min_timeout)
    }

    /// Enters the event loop, which then runs until [`SpEvents::e_exit_events`] is called: clears
    /// the flag, so that a loop that was left can be entered again, and gives the buffer to poll
    /// into and the first step. A callback can enter the loop anew: the run that it belongs to ends
    /// together with the new one, so the due events that it had left are dropped.
    pub fn e_handle_events(&mut self) -> (start: (mio::Events, Step<C, F>))
        ensures
            ready_tokens(start.0) == Seq::<Token>::empty(),
            event_limit(start.0) == DEFAULT_EVENTS_CAPACITY,
            start.1@ == StepView::<C, F>::Collect,
            final(self)@ == entered(old(self)@),
            old(self)@.wf() ==> final(self)@.wf(),
    {
        let events = events_with_capacity(DEFAULT_EVENTS_CAPACITY);
        self.exit_events = false;
        self.due = Vec::new();
        (events, Step::Collect)
    }

    /// Goes on with the due events `ready`, which have just been taken out.
    pub fn collected(&mut self, ready: Vec<TimedEvent<C>>) -> (step: Step<C, F>)
        ensures
            (final(self)@, step@) == next_timed(
                Registry { due: old(self)@.due + ready@, ..old(self)@ },
            ),
            old(self)@.wf() ==> final(self)@.wf(),
    {
        let mut more = ready;
        self.due.append(&mut more);
        assert(self@ == (Registry { due: old(self)@.due + ready@, ..old(self)@ }));
        self.run_next()
    }

    /// Goes on after the callback of a due event has run.
    pub fn timed_done(&mut self) -> (step: Step<C, F>)
        ensures
            (final(self)@, step@) == after_timed(old(self)@),
            old(self)@.wf() ==> final(self)@.wf(),
    {
        if self.exit_events {
            self.due = Vec::new();
            return Step::Act(Action::Return);
        }
        self.run_next()
    }

    /// Goes on to the first of the due events, or to the poll.
    fn run_next(&mut self) -> (step: Step<C, F>)
        ensures
            (final(self)@, step@) == next_timed(old(self)@),
            old(self)@.wf() ==> final(self)@.wf(),
    {
        if self.due.is_empty() {
            return Step::Wait;
        }
        let timed = self.due.remove(0);
        assert(self@.due == old(self)@.due.drop_first());
        Step::Act(Action::RunTimed { timed })
    }

    /// Goes on after a poll has failed: with a new turn where it was interrupted.
    pub fn poll_failed(&self, interrupted: bool) -> (step: Step<C, F>)
        ensures
            step@ == if interrupted {
                StepView::<C, F>::Collect
            } else {
                StepView::Act(ActionView::Abort)
            },
    {
        if interrupted {
            return Step::Collect;
        }
        Step::Act(Action::Abort)
    }

    /// Goes on after a poll has filled `events`.
    pub fn polled(&mut self, events: &mio::Events) -> (step: Step<C, F>)
        ensures
            (final(self)@, step@) == next_fd(old(self)@, ready_tokens(*events)),
            old(self)@.wf() ==> final(self)@.wf(),
    {
        let tokens = tokens_of(events);
        self.tokens_ready(tokens)
    }

    /// Goes on with `tokens`, whose descriptors a poll found ready.
    pub fn tokens_ready(&mut self, tokens: Vec<Token>) -> (step: Step<C, F>)
        ensures
            (final(self)@, step@) == next_fd(old(self)@, tokens@),
            old(self)@.wf() ==> final(self)@.wf(),
    {
        self.serve(FdPhase::new(tokens))
    }

    /// Goes on after the callback of `event` has run: puts `event` back, or hands it out, to have
    /// its source deregistered, where it was detached meanwhile.
    pub fn fd_done(&mut self, event: FdEvent<F>, pending: FdPhase) -> (done: (
        Step<C, F>,
        Option<FdEvent<F>>,
    ))
        ensures
            (final(self)@, done.0@) == after_fd(old(self)@, event, pending@),
            done.1 == put_back(old(self)@, event).1,
            old(self)@.wf() ==> final(self)@.wf(),
            old(self)@.is_gone(event.token) ==> final(self)@.is_gone(event.token),
    {
        let mut gone: Option<FdEvent<F>> = None;
        if take_token(&mut self.serving, event.token) {
            self.fd_events.push(event);
        } else {
            gone = Some(event);
        }
        assert(self@ == put_back(old(self)@, event).0);
        proof {
            if old(self)@.is_gone(event.token) {
                lemma_gone_is_not_served(self@, pending@, event.token);
            }
        }
        if self.exit_events {
            return (Step::Act(Action::Return), gone);
        }
        (self.serve(pending), gone)
    }

    /// Goes on to the first descriptor that `pending` names and that is attached.
    fn serve(&mut self, pending: FdPhase) -> (step: Step<C, F>)
        ensures
            (final(self)@, step@) == next_fd(old(self)@, pending@),
            old(self)@.wf() ==> final(self)@.wf(),
    {
        let mut rest = pending;
        loop
            invariant
                self@ == old(self)@,
                next_fd(old(self)@, rest@) == next_fd(old(self)@, pending@),
            decreases rest@.len(),
        {
            let ghost tokens = rest@;
            match rest.take_first() {
                Some(token) => {
                    if let Some(event) = self.get_fd_event_by_token(token) {
                        proof {
                            lemma_push_contains(self.serving@, token);
                        }
                        self.serving.push(token);
                        assert(self@.serving == old(self)@.serving.insert(token));
                        assert(self@ == next_fd(old(self)@, tokens).0);
                        return Step::Act(Action::RunFd { event, pending: rest });
                    }
                    if self.exit_events {
                        return Step::Act(Action::Return);
                    }
                },
                None => {
                    return Step::Collect;
                },
            }
        }
    }

    /// How long ago `event` was scheduled.
    pub fn elapsed_since(&self, event: &TimedEvent<C>) -> (span: Duration)
        ensures
            exists|now: Instant|
                self@.clock.reads(now) && span@ == #[trigger] elapsed(*event, now),
    {
        let now = self.clock.now();
        let span = now.duration_since(event.register_instant);
        assert(self@.clock.reads(now) && span@ == elapsed(*event, now));
        span
    }

    /// How long each of the scheduled events has still to wait, each looked at at its own reading
    /// of the clock.
    pub fn remaining_waits(&self) -> (spans: Vec<Duration>)
        ensures
            exists|readings: Seq<Instant>|
                readings.len() == self@.timed_events.len() && #[trigger] self@.clock.reads_all(
                    readings,
                ) && spans@.map_values(|span: Duration| span@) == Seq::new(
                    self@.timed_events.len(),
                    |i: int| remaining(self@.timed_events[i], readings[i]),
                ),
    {
        let readings = self.clock.readings(self.scheduled());
        let mut spans: Vec<Duration> = Vec::new();
        let mut i: usize = 0;
        while i < self.timed_events.len()
            invariant
                i <= self.timed_events@.len(),
                readings@.len() == self.timed_events@.len(),
                spans@.len() == i,
                forall|j: int|
                    0 <= j < i ==> (#[trigger] spans@[j])@ == remaining(
                        self.timed_events@[j],
                        readings@[j],
                    ),
            decreases self.timed_events@.len() - i,
        {
            let event = &self.timed_events[i];
            let elapsed = readings[i].duration_since(event.register_instant);
            spans.push(event.delta_time.saturating_sub(elapsed));
            i += 1;
        }
        assert(self@.clock.reads_all(readings@));
        assert(spans@.map_values(|span: Duration| span@) == Seq::new(
            self@.timed_events.len(),
            |j: int| remaining(self@.timed_events[j], readings@[j]),
        ));
        spans
    }

    /// Reads the clock for a step that needs it.
    pub fn resolve(&mut self, step: Step<C, F>) -> (action: Action<C, F>)
        ensures
            resolves(old(self)@, step@, final(self)@, action@),
            old(self)@.wf() ==> final(self)@.wf(),
    {
        let step = match step {
            Step::Collect => {
                let ready = self.get_ready_events();
                let ghost kept = self@.timed_events;
                let step = self.collected(ready);
                proof {
                    let readings = choose|readings: Seq<Instant>|
                        {
                            &&& readings.len() == old(self)@.timed_events.len()
                            &&& old(self)@.clock.reads_all(readings)
                            &&& (kept, ready@) == #[trigger] sweep(
                                old(self)@.timed_events,
                                0,
                                readings,
                            )
                        };
                    assert((self@, step@) == collect(old(self)@, readings));
                }
                step
            },
            other => other,
        };
        match step {
            Step::Act(action) => action,
            _ => Action::Poll { timeout: self.get_next_timeout() },
        }
    }
}

/// Takes `token` out of `tokens`, and says whether it was there.
fn take_token(tokens: &mut Vec<Token>, token: Token) -> (found: bool)
    ensures
        found == old(tokens)@.to_set().contains(token),
        final(tokens)@.to_set() == old(tokens)@.to_set().remove(token),
{
    let mut found = false;
    let mut kept: Vec<Token> = Vec::new();
    let mut i: usize = 0;
    while i < tokens.len()
        invariant
            i <= tokens@.len(),
            tokens@ == old(tokens)@,
            found == tokens@.take(i as int).contains(token),
            forall|other: Token|
                kept@.contains(other) <==> other != token && tokens@.take(i as int).contains(other),
        decreases tokens@.len() - i,
    {
        let next = tokens[i];
        let ghost before = tokens@.take(i as int);
        let ghost kept_before = kept@;
        assert(tokens@.take(i + 1) == before.push(next));
        proof {
            lemma_push_contains(before, next);
            lemma_push_contains(kept_before, next);
        }
        if next == token {
            found = true;
        } else {
            kept.push(next);
        }
        i += 1;
    }
    assert(tokens@.take(i as int) == tokens@);
    *tokens = kept;
    found
}

/// A longer sequence holds what the shorter one held, and the new item.
proof fn lemma_push_contains<T>(s: Seq<T>, item: T)
    ensures
        forall|other: T| #[trigger]
            s.push(item).contains(other) <==> s.contains(other) || other == item,
{
    assert forall|other: T| s.contains(other) || other == item implies #[trigger] s.push(
        item,
    ).contains(other) by {
        if other == item {
            assert(s.push(item)[s.len() as int] == other);
        } else {
            let i = choose|i: int| 0 <= i < s.len() && s[i] == other;
            assert(s.push(item)[i] == other);
        }
    }
}

/// Greets again in five seconds: schedules `func`, the callback that greets.
pub fn say_hello<C, F>(events: &mut SpEvents<C, F>, func: C)
    ensures
        is_queued(old(events)@, func, 5_000_000_000, final(events)@),
        old(events)@.wf() ==> final(events)@.wf(),
{
    events.e_queue(func, Duration::from_millis(5000));
}

/// Ends the event loop.
pub fn exit_events<C, F>(events: &mut SpEvents<C, F>)
    ensures
        final(events)@ == (Registry { exit_events: true, ..old(events)@ }),
        old(events)@.wf() ==> final(events)@.wf(),
{
    events.e_exit_events();
}

/// The sum of `left` and `right`.
pub fn add(left: usize, right: usize) -> (sum: usize)
    requires
        left + right <= usize::MAX,
    ensures
        sum == left + right,
{
    left + right
}

} // verus!
