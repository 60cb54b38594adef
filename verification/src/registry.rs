//! What an event loop holds, and what its operations make of it.

use vstd::prelude::*;
use vstd::std_specs::cmp::PartialEqSpec;
use crate::readiness::Token;
use crate::time::{Clock, Duration, Instant, saturating_difference};

verus! {

/// A callback that is to run once `delta_time` has passed since `register_instant`.
pub struct TimedEvent<C> {
    pub callback: C,
    pub register_instant: Instant,
    pub delta_time: Duration,
}

/// An attached descriptor: the token under which it is known, and what the owner of the loop keeps
/// with it (the source and its callback).
pub struct FdEvent<F> {
    pub token: Token,
    pub source: F,
}

impl<F> FdEvent<F> {
    /// The token under which the descriptor is known.
    pub fn get_token(&self) -> (token: Token)
        ensures
            token == self.token,
    {
        self.token
    }
}

/// What the loop knows, apart from how it is stored.
#[verifier::ext_equal]
pub struct Registry<C, F> {
    /// The events that wait for their delay to pass.
    pub timed_events: Seq<TimedEvent<C>>,
    /// The events that were found due and are still to run, in this order.
    pub due: Seq<TimedEvent<C>>,
    /// The attached descriptors, but for those whose callbacks run.
    pub fd_events: Seq<FdEvent<F>>,
    /// The tokens of the attached descriptors whose callbacks run.
    pub serving: Set<Token>,
    pub exit_events: bool,
    pub next_token: usize,
    pub clock: Clock,
}

/// `s` without the item at `i`, whose place the last item takes.
pub open spec fn swap_removed<T>(s: Seq<T>, i: int) -> Seq<T> {
    s.update(i, s.last()).drop_last()
}

/// The nanoseconds from the registration of `event` to the reading `now`.
pub open spec fn elapsed<C>(event: TimedEvent<C>, now: Instant) -> nat {
    saturating_difference(now@, event.register_instant@)
}

/// Whether more than the delay of `event` has passed at the reading `now`.
pub open spec fn is_due<C>(event: TimedEvent<C>, now: Instant) -> bool {
    elapsed(event, now) > event.delta_time@
}

/// The nanoseconds of the delay of `event` that are still to come at the reading `now`.
pub open spec fn remaining<C>(event: TimedEvent<C>, now: Instant) -> nat {
    saturating_difference(event.delta_time@, elapsed(event, now))
}

/// What becomes of `events` when each event from position `from` on is looked at once, the first
/// of them at the first of `readings`, the next at the next: those that stay, and those that are
/// taken out because they are due, in the order in which they are found. The last event takes the
/// place of one that leaves, and is looked at there.
pub open spec fn sweep<C>(events: Seq<TimedEvent<C>>, from: int, readings: Seq<Instant>) -> (
    Seq<TimedEvent<C>>,
    Seq<TimedEvent<C>>,
)
    decreases events.len() - from,
{
    if from < 0 || from >= events.len() {
        (events, seq![])
    } else if is_due(events[from], readings[0]) {
        let (kept, ready) = sweep(swap_removed(events, from), from, readings.drop_first());
        (kept, seq![events[from]] + ready)
    } else {
        sweep(events, from + 1, readings.drop_first())
    }
}

/// The waits that bear on the next timeout: that of the first event at the first of `readings`,
/// then that of each event in turn at the readings after it.
pub open spec fn waits<C>(events: Seq<TimedEvent<C>>, readings: Seq<Instant>) -> Seq<nat> {
    seq![remaining(events[0], readings[0])] + Seq::new(
        events.len(),
        |i: int| remaining(events[i], readings[i + 1]),
    )
}

/// Whether `least` is the least of `values`.
pub open spec fn is_least(least: nat, values: Seq<nat>) -> bool {
    &&& values.contains(least)
    &&& forall|i: int| 0 <= i < values.len() ==> least <= #[trigger] values[i]
}

/// Whether `timeout` is how long to wait for `events`, looked at at `readings`: without end where
/// nothing is scheduled, else as long as the event takes that is due first.
pub open spec fn is_timeout<C>(
    events: Seq<TimedEvent<C>>,
    readings: Seq<Instant>,
    timeout: Option<Duration>,
) -> bool {
    match timeout {
        None => events.len() == 0,
        Some(wait) => events.len() > 0 && is_least(wait@, waits(events, readings)),
    }
}

/// Whether `i` is the first position in `events` that holds the callback `func`.
pub open spec fn is_callback_index<C: PartialEq>(
    events: Seq<TimedEvent<C>>,
    func: C,
    i: int,
) -> bool {
    &&& 0 <= i < events.len()
    &&& events[i].callback.eq_spec(&func)
    &&& forall|j: int| 0 <= j < i ==> !(#[trigger] events[j]).callback.eq_spec(&func)
}

/// The first position in `events` that holds the callback `func`.
pub open spec fn callback_index<C: PartialEq>(events: Seq<TimedEvent<C>>, func: C) -> Option<int> {
    if exists|i: int| is_callback_index(events, func, i) {
        Some(choose|i: int| is_callback_index(events, func, i))
    } else {
        None
    }
}

/// A first position of a callback is the only one.
pub proof fn lemma_callback_index<C: PartialEq>(events: Seq<TimedEvent<C>>, func: C, i: int)
    requires
        is_callback_index(events, func, i),
    ensures
        callback_index(events, func) == Some(i),
{
    let k = choose|k: int| is_callback_index(events, func, k);
    assert(is_callback_index(events, func, k));
    if k < i {
        assert(!events[k].callback.eq_spec(&func));
    } else if i < k {
        assert(!events[i].callback.eq_spec(&func));
    }
}

/// What un-scheduling `func` comes to, and what it leaves: the first event with that callback
/// leaves those that wait or, where none of them has it, those that are due.
pub open spec fn dequeued<C: PartialEq, F>(registry: Registry<C, F>, func: C) -> (
    i32,
    Registry<C, F>,
) {
    match callback_index(registry.timed_events, func) {
        Some(i) => (
            0,
            Registry { timed_events: swap_removed(registry.timed_events, i), ..registry },
        ),
        None => match callback_index(registry.due, func) {
            Some(i) => (0, Registry { due: registry.due.remove(i), ..registry }),
            None => (-1i32, registry),
        },
    }
}

/// Whether `status` and `after` are what un-scheduling some callback in `before` can come to,
/// whatever callbacks are taken for equal: one event leaves, or nothing changes.
pub open spec fn is_dequeue<C, F>(
    before: Registry<C, F>,
    status: i32,
    after: Registry<C, F>,
) -> bool {
    ||| status == -1 && after == before
    ||| status == 0 && exists|i: int|
        0 <= i < before.timed_events.len() && after == (Registry {
            timed_events: #[trigger] swap_removed(before.timed_events, i),
            ..before
        })
    ||| status == 0 && exists|i: int|
        0 <= i < before.due.len() && after == (Registry {
            due: #[trigger] before.due.remove(i),
            ..before
        })
}

/// Whether `i` is the first position in `fds` that holds `token`.
pub open spec fn is_fd_index<F>(fds: Seq<FdEvent<F>>, token: Token, i: int) -> bool {
    &&& 0 <= i < fds.len()
    &&& fds[i].token == token
    &&& forall|j: int| 0 <= j < i ==> (#[trigger] fds[j]).token != token
}

/// The first position in `fds` that holds `token`.
pub open spec fn fd_index<F>(fds: Seq<FdEvent<F>>, token: Token) -> Option<int> {
    if exists|i: int| is_fd_index(fds, token, i) {
        Some(choose|i: int| is_fd_index(fds, token, i))
    } else {
        None
    }
}

/// A first position is the only first position.
pub proof fn lemma_fd_index<F>(fds: Seq<FdEvent<F>>, token: Token, i: int)
    requires
        is_fd_index(fds, token, i),
    ensures
        fd_index(fds, token) == Some(i),
{
    let k = choose|k: int| is_fd_index(fds, token, k);
    assert(is_fd_index(fds, token, k));
    if k < i {
        assert(fds[k].token != token);
    } else if i < k {
        assert(fds[i].token != token);
    }
}

/// The tokens of `fds` and those in `serving` are told apart, and all lie below `next_token`.
pub open spec fn tokens_wf<F>(
    fds: Seq<FdEvent<F>>,
    serving: Set<Token>,
    next_token: usize,
) -> bool {
    &&& forall|i: int| 0 <= i < fds.len() ==> (#[trigger] fds[i]).token.0 < next_token
    &&& forall|i: int, j: int|
        0 <= i < j < fds.len() ==> (#[trigger] fds[i]).token != (#[trigger] fds[j]).token
    &&& forall|token: Token| #[trigger] serving.contains(token) ==> token.0 < next_token
    &&& forall|i: int| 0 <= i < fds.len() ==> !serving.contains((#[trigger] fds[i]).token)
}

impl<C, F> Registry<C, F> {
    /// Every attached descriptor, its callback running or not, has a token of its own, and the
    /// next token is a new one.
    pub open spec fn wf(self) -> bool {
        tokens_wf(self.fd_events, self.serving, self.next_token)
    }

    /// `token` was given out before, and no attached descriptor has it.
    pub open spec fn is_gone(self, token: Token) -> bool {
        &&& token.0 < self.next_token
        &&& !self.serving.contains(token)
        &&& forall|i: int| 0 <= i < self.fd_events.len() ==> (#[trigger] self.fd_events[i]).token
            != token
    }
}

/// `registry` once `func` is scheduled at the reading `now`.
pub open spec fn queued<C, F>(
    registry: Registry<C, F>,
    func: C,
    delta_time: Duration,
    now: Instant,
) -> Registry<C, F> {
    Registry {
        timed_events: registry.timed_events.push(
            TimedEvent { callback: func, register_instant: now, delta_time },
        ),
        ..registry
    }
}

/// Whether `after` is `before` with `func` scheduled, at some reading of its clock, to be called
/// after `nanos` nanoseconds.
pub open spec fn is_queued<C, F>(
    before: Registry<C, F>,
    func: C,
    nanos: nat,
    after: Registry<C, F>,
) -> bool {
    exists|delta_time: Duration, now: Instant|
        delta_time@ == nanos && before.clock.reads(now) && after == #[trigger] queued(
            before,
            func,
            delta_time,
            now,
        )
}

/// `registry` once `source` is attached under the next token.
pub open spec fn attached_to<C, F>(registry: Registry<C, F>, source: F) -> Registry<C, F> {
    Registry {
        fd_events: registry.fd_events.push(FdEvent { token: Token(registry.next_token), source }),
        next_token: (registry.next_token + 1) as usize,
        ..registry
    }
}

/// What detaching `token` comes to, and what it leaves. A descriptor whose callback runs is not
/// handed out: it is to be had from where its callback ends.
pub open spec fn detached<C, F>(registry: Registry<C, F>, token: Token) -> (
    (i32, Option<FdEvent<F>>),
    Registry<C, F>,
) {
    match fd_index(registry.fd_events, token) {
        Some(i) => (
            (0, Some(registry.fd_events[i])),
            Registry { fd_events: swap_removed(registry.fd_events, i), ..registry },
        ),
        None => if registry.serving.contains(token) {
            ((0, None), Registry { serving: registry.serving.remove(token), ..registry })
        } else {
            ((-1i32, None), registry)
        },
    }
}

/// `registry` once the callback of `event` has run, and `event` where it is no longer attached.
pub open spec fn put_back<C, F>(registry: Registry<C, F>, event: FdEvent<F>) -> (
    Registry<C, F>,
    Option<FdEvent<F>>,
) {
    if registry.serving.contains(event.token) {
        (
            Registry {
                fd_events: registry.fd_events.push(event),
                serving: registry.serving.remove(event.token),
                ..registry
            },
            None,
        )
    } else {
        (registry, Some(event))
    }
}

/// `registry` once the loop is entered.
pub open spec fn entered<C, F>(registry: Registry<C, F>) -> Registry<C, F> {
    Registry { exit_events: false, due: seq![], ..registry }
}

} // verus!
