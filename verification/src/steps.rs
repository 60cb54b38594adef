//! The steps of an event loop.

use vstd::prelude::*;
use crate::readiness::Token;
use crate::registry::{
    FdEvent, Registry, TimedEvent, fd_index, is_fd_index, is_timeout, put_back, swap_removed, sweep,
};
use crate::time::{Clock, Duration, Instant};

verus! {

/// The tokens of a poll that are still to be served.
pub struct FdPhase {
    tokens: Vec<Token>,
    next: usize,
}

impl View for FdPhase {
    type V = Seq<Token>;

    closed spec fn view(&self) -> Seq<Token> {
        if self.next <= self.tokens@.len() {
            self.tokens@.skip(self.next as int)
        } else {
            seq![]
        }
    }
}

/// What the owner of the loop is to do, and how to go on after it.
pub enum Action<C, F> {
    /// Run the callback of `timed`, then call [`SpEvents::timed_done`].
    RunTimed { timed: TimedEvent<C> },
    /// Poll for at most `timeout`, without end where there is none, then call
    /// [`SpEvents::polled`] or [`SpEvents::poll_failed`].
    Poll { timeout: Option<Duration> },
    /// Run the callback of `event`, then call [`SpEvents::fd_done`] with both.
    RunFd { event: FdEvent<F>, pending: FdPhase },
    /// Leave the loop.
    Return,
    /// End the process: polling has failed.
    Abort,
}

/// What comes next in the loop.
pub enum Step<C, F> {
    /// Take out the events that are due.
    Collect,
    /// Find out how long to wait, and poll.
    Wait,
    /// Nothing is left to find out.
    Act(Action<C, F>),
}

/// The view of an [`Action`].
pub enum ActionView<C, F> {
    RunTimed { timed: TimedEvent<C> },
    Poll { timeout: Option<Duration> },
    RunFd { event: FdEvent<F>, pending: Seq<Token> },
    Return,
    Abort,
}

/// The view of a [`Step`].
pub enum StepView<C, F> {
    Collect,
    Wait,
    Act(ActionView<C, F>),
}

impl<C, F> View for Action<C, F> {
    type V = ActionView<C, F>;

    open spec fn view(&self) -> ActionView<C, F> {
        match *self {
            Action::RunTimed { timed } => ActionView::RunTimed { timed },
            Action::Poll { timeout } => ActionView::Poll { timeout },
            Action::RunFd { event, pending } => {
                ActionView::RunFd { event, pending: pending@ }
            },
            Action::Return => ActionView::Return,
            Action::Abort => ActionView::Abort,
        }
    }
}

impl<C, F> View for Step<C, F> {
    type V = StepView<C, F>;

    open spec fn view(&self) -> StepView<C, F> {
        match *self {
            Step::Collect => StepView::Collect,
            Step::Wait => StepView::Wait,
            Step::Act(action) => StepView::Act(action@),
        }
    }
}

/// What follows while due events are still to run, and what it leaves: the first of them, or the
/// poll.
pub open spec fn next_timed<C, F>(registry: Registry<C, F>) -> (Registry<C, F>, StepView<C, F>) {
    if registry.due.len() > 0 {
        (
            Registry { due: registry.due.drop_first(), ..registry },
            StepView::Act(ActionView::RunTimed { timed: registry.due[0] }),
        )
    } else {
        (registry, StepView::Wait)
    }
}

/// What follows once the callback of a due event has run, and what it leaves. Where the loop is to
/// end, the due events that are left are dropped.
pub open spec fn after_timed<C, F>(registry: Registry<C, F>) -> (Registry<C, F>, StepView<C, F>) {
    if registry.exit_events {
        (Registry { due: seq![], ..registry }, StepView::Act(ActionView::Return))
    } else {
        next_timed(registry)
    }
}

/// What follows once the events that are due at `readings` are taken out, and what it leaves.
pub open spec fn collect<C, F>(registry: Registry<C, F>, readings: Seq<Instant>) -> (
    Registry<C, F>,
    StepView<C, F>,
) {
    let (kept, ready) = sweep(registry.timed_events, 0, readings);
    next_timed(Registry { timed_events: kept, due: registry.due + ready, ..registry })
}

/// What follows while `tokens` are still to be served: the first attached descriptor among them,
/// which is taken out for the time that its callback runs, or a new turn. A token that is not
/// attached is passed over, unless the loop is to end.
pub open spec fn next_fd<C, F>(registry: Registry<C, F>, tokens: Seq<Token>) -> (
    Registry<C, F>,
    StepView<C, F>,
)
    decreases tokens.len(),
{
    if tokens.len() == 0 {
        (registry, StepView::Collect)
    } else {
        match fd_index(registry.fd_events, tokens[0]) {
            Some(i) => (
                Registry {
                    fd_events: swap_removed(registry.fd_events, i),
                    serving: registry.serving.insert(tokens[0]),
                    ..registry
                },
                StepView::Act(
                    ActionView::RunFd {
                        event: registry.fd_events[i],
                        pending: tokens.drop_first(),
                    },
                ),
            ),
            None => if registry.exit_events {
                (registry, StepView::Act(ActionView::Return))
            } else {
                next_fd(registry, tokens.drop_first())
            },
        }
    }
}

/// A token that is gone stays gone while descriptors are served, and is not among them.
pub proof fn lemma_gone_is_not_served<C, F>(
    registry: Registry<C, F>,
    tokens: Seq<Token>,
    token: Token,
)
    requires
        registry.is_gone(token),
    ensures
        next_fd(registry, tokens).0.is_gone(token),
        next_fd(registry, tokens).1 matches StepView::Act(ActionView::RunFd { event, .. })
            ==> event.token != token,
    decreases tokens.len(),
{
    if tokens.len() > 0 {
        match fd_index(registry.fd_events, tokens[0]) {
            Some(i) => {
                assert(is_fd_index(registry.fd_events, tokens[0], i));
            },
            None => {
                lemma_gone_is_not_served(registry, tokens.drop_first(), token);
            },
        }
    }
}

/// What follows once the callback of `event` has run, with `tokens` still to be served, and what it
/// leaves.
pub open spec fn after_fd<C, F>(
    registry: Registry<C, F>,
    event: FdEvent<F>,
    tokens: Seq<Token>,
) -> (Registry<C, F>, StepView<C, F>) {
    let (back, _) = put_back(registry, event);
    if back.exit_events {
        (back, StepView::Act(ActionView::Return))
    } else {
        next_fd(back, tokens)
    }
}

/// Whether `timeout` is how long to wait for `timed_events` at some readings of `clock`.
pub open spec fn is_some_timeout<C>(
    clock: Clock,
    timed_events: Seq<TimedEvent<C>>,
    timeout: Option<Duration>,
) -> bool {
    exists|readings: Seq<Instant>|
        readings.len() == timed_events.len() + 1 && clock.reads_all(readings)
            && #[trigger] is_timeout(timed_events, readings, timeout)
}

/// Whether `action` is what `step` asks for, where the wait, should it come to that, is one for
/// what is scheduled in `registry`.
pub open spec fn is_action<C, F>(
    registry: Registry<C, F>,
    step: StepView<C, F>,
    action: ActionView<C, F>,
) -> bool {
    match step {
        StepView::Act(known) => action == known,
        _ => action matches ActionView::Poll { timeout } && is_some_timeout(
            registry.clock,
            registry.timed_events,
            timeout,
        ),
    }
}

/// Whether `action` comes out of `step` in `before` and leaves `after`, for some readings of its
/// clock.
pub open spec fn resolves<C, F>(
    before: Registry<C, F>,
    step: StepView<C, F>,
    after: Registry<C, F>,
    action: ActionView<C, F>,
) -> bool {
    match step {
        StepView::Collect => exists|readings: Seq<Instant>|
            {
                let (collected, next) = #[trigger] collect(before, readings);
                &&& readings.len() == before.timed_events.len()
                &&& before.clock.reads_all(readings)
                &&& after == collected
                &&& is_action(after, next, action)
            },
        _ => after == before && is_action(after, step, action),
    }
}

impl FdPhase {
    /// All of `tokens`, in their order.
    pub(crate) fn new(tokens: Vec<Token>) -> (phase: Self)
        ensures
            phase@ == tokens@,
    {
        FdPhase { tokens, next: 0 }
    }

    /// Takes the first of these tokens.
    pub(crate) fn take_first(&mut self) -> (token: Option<Token>)
        ensures
            match token {
                Some(first) => old(self)@.len() > 0 && first == old(self)@[0] && final(self)@
                    == old(self)@.drop_first(),
                None => old(self)@.len() == 0,
            },
    {
        if self.next < self.tokens.len() {
            let first = self.tokens[self.next];
            self.next = self.next + 1;
            assert(self@ == old(self)@.drop_first());
            Some(first)
        } else {
            None
        }
    }
}

} // verus!
