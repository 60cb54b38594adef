//! What holds of the event loop over any sequence of calls, those of callbacks among them.

use vstd::prelude::*;
use vstd::multiset::Multiset;
use vstd::seq_lib::{
    lemma_multiset_commutative, to_multiset_build, to_multiset_contains, to_multiset_remove,
};
use vstd::std_specs::cmp::PartialEqSpec;
use crate::laws::{
    callback_count, law_count_is_zero_where_absent, law_serving_hands_out_the_first,
    law_swap_removed_takes_one, law_sweep_partitions, lemma_callback_count_add,
    lemma_sweep_takes_due, scheduled_count,
};
use crate::readiness::Token;
use crate::registry::{
    FdEvent, Registry, TimedEvent, attached_to, callback_index, dequeued, detached, entered,
    fd_index, is_callback_index, is_due, is_fd_index, is_timeout, put_back, queued, swap_removed,
    sweep,
};
use crate::steps::{
    ActionView, StepView, after_fd, after_timed, collect, is_action, lemma_gone_is_not_served,
    next_fd, next_timed, resolves,
};
use crate::time::{Duration, Instant};

verus! {

/// A call that changes what the loop knows.
pub enum Call<C, F> {
    /// `e_queue`, at the reading `now`.
    Queue { func: C, delta_time: Duration, now: Instant },
    /// `e_dequeue`.
    Dequeue { func: C },
    /// `e_attach_fd`, with success.
    Attach { source: F },
    /// `e_detach_fd`.
    Detach { token: Token },
    /// `e_exit_events`.
    Exit,
    /// `e_handle_events`.
    Enter,
    /// The due events are taken out, at `readings`, and the first is run.
    Collect { readings: Seq<Instant> },
    /// `timed_done`.
    TimedDone,
    /// `polled`, with these tokens ready.
    Polled { tokens: Seq<Token> },
    /// `fd_done`.
    FdDone { event: FdEvent<F>, tokens: Seq<Token> },
}

/// What `call` leaves of `registry`, and what follows it. A call of the owner, or of a callback, is
/// followed by nothing in particular.
pub open spec fn called<C: PartialEq, F>(registry: Registry<C, F>, call: Call<C, F>) -> (
    Registry<C, F>,
    Option<StepView<C, F>>,
) {
    match call {
        Call::Queue { func, delta_time, now } => (queued(registry, func, delta_time, now), None),
        Call::Dequeue { func } => (dequeued(registry, func).1, None),
        Call::Attach { source } => if registry.next_token < usize::MAX {
            (attached_to(registry, source), None)
        } else {
            (registry, None)
        },
        Call::Detach { token } => (detached(registry, token).1, None),
        Call::Exit => (Registry { exit_events: true, ..registry }, None),
        Call::Enter => (entered(registry), Some(StepView::Collect)),
        Call::Collect { readings } => {
            let (after, step) = collect(registry, readings);
            (after, Some(step))
        },
        Call::TimedDone => {
            let (after, step) = after_timed(registry);
            (after, Some(step))
        },
        Call::Polled { tokens } => {
            let (after, step) = next_fd(registry, tokens);
            (after, Some(step))
        },
        Call::FdDone { event, tokens } => {
            let (after, step) = after_fd(registry, event, tokens);
            (after, Some(step))
        },
    }
}

/// What `calls` leave of `registry`, one after the other.
pub open spec fn all_called<C: PartialEq, F>(
    registry: Registry<C, F>,
    calls: Seq<Call<C, F>>,
) -> Registry<C, F>
    decreases calls.len(),
{
    if calls.len() == 0 {
        registry
    } else {
        all_called(called(registry, calls[0]).0, calls.drop_first())
    }
}

/// The timed events whose callbacks are run because of `step`.
pub open spec fn timed_of<C, F>(step: Option<StepView<C, F>>) -> Seq<TimedEvent<C>> {
    match step {
        Some(StepView::Act(ActionView::RunTimed { timed })) => seq![timed],
        _ => seq![],
    }
}

/// The timed events whose callbacks are run in the course of `calls`, in order.
pub open spec fn timed_run<C: PartialEq, F>(
    registry: Registry<C, F>,
    calls: Seq<Call<C, F>>,
) -> Seq<TimedEvent<C>>
    decreases calls.len(),
{
    if calls.len() == 0 {
        seq![]
    } else {
        let (after, step) = called(registry, calls[0]);
        timed_of(step) + timed_run(after, calls.drop_first())
    }
}

/// The events that are still to run, waiting or due.
pub open spec fn held<C, F>(registry: Registry<C, F>) -> Multiset<TimedEvent<C>> {
    registry.timed_events.to_multiset().add(registry.due.to_multiset())
}

/// How often `call` schedules `event`.
pub open spec fn times_queued_by<C, F>(call: Call<C, F>, event: TimedEvent<C>) -> nat {
    match call {
        Call::Queue { func, delta_time, now } => if event == (TimedEvent {
            callback: func,
            register_instant: now,
            delta_time,
        }) {
            1
        } else {
            0
        },
        _ => 0,
    }
}

/// How often `calls` schedule `event`.
pub open spec fn times_queued<C, F>(calls: Seq<Call<C, F>>, event: TimedEvent<C>) -> nat
    decreases calls.len(),
{
    if calls.len() == 0 {
        0
    } else {
        times_queued_by(calls[0], event) + times_queued(calls.drop_first(), event)
    }
}

/// An empty sequence holds nothing.
proof fn lemma_empty_multiset<T>()
    ensures
        Seq::<T>::empty().to_multiset() == Multiset::<T>::empty(),
{
    broadcast use vstd::multiset::group_multiset_axioms;

    Seq::<T>::empty().to_multiset_ensures();
    assert(Seq::<T>::empty().to_multiset() =~= Multiset::<T>::empty());
}

/// A sequence of one holds that one.
proof fn lemma_singleton_multiset<T>(item: T)
    ensures
        seq![item].to_multiset() == Multiset::<T>::empty().insert(item),
{
    lemma_empty_multiset::<T>();
    to_multiset_build(Seq::<T>::empty(), item);
    assert(seq![item] == Seq::<T>::empty().push(item));
}

/// Going on to the next due event takes it from those that are held, and nothing else.
proof fn lemma_next_timed_holds<C, F>(registry: Registry<C, F>)
    ensures
        ({
            let (after, step) = next_timed(registry);
            held(after).add(timed_of(Some(step)).to_multiset()) == held(registry)
        }),
{
    broadcast use vstd::multiset::group_multiset_axioms;

    let (after, step) = next_timed(registry);
    lemma_empty_multiset::<TimedEvent<C>>();
    if registry.due.len() > 0 {
        let first = registry.due[0];
        lemma_singleton_multiset(first);
        to_multiset_remove(registry.due, 0);
        to_multiset_contains(registry.due, first);
        assert(registry.due.contains(first));
        assert(registry.due.remove(0) == registry.due.drop_first());
    }
    assert(held(after).add(timed_of(Some(step)).to_multiset()) =~= held(registry));
}

/// Serving descriptors has no bearing on the timed events.
proof fn lemma_next_fd_keeps_timed<C, F>(registry: Registry<C, F>, tokens: Seq<Token>)
    ensures
        next_fd(registry, tokens).0.timed_events == registry.timed_events,
        next_fd(registry, tokens).0.due == registry.due,
        next_fd(registry, tokens).0.next_token == registry.next_token,
        timed_of(Some(next_fd(registry, tokens).1)) == Seq::<TimedEvent<C>>::empty(),
    decreases tokens.len(),
{
    if tokens.len() > 0 && fd_index(registry.fd_events, tokens[0]) is None {
        lemma_next_fd_keeps_timed(registry, tokens.drop_first());
    }
}

/// One call runs and keeps no more of an event than there was and is scheduled by it.
proof fn lemma_call_accounts<C: PartialEq, F>(
    registry: Registry<C, F>,
    call: Call<C, F>,
    event: TimedEvent<C>,
)
    ensures
        ({
            let (after, step) = called(registry, call);
            timed_of(step).to_multiset().count(event) + held(after).count(event) <= held(
                registry,
            ).count(event) + times_queued_by(call, event)
        }),
{
    broadcast use vstd::multiset::group_multiset_axioms;

    lemma_empty_multiset::<TimedEvent<C>>();
    match call {
        Call::Queue { func, delta_time, now } => {
            let new = TimedEvent { callback: func, register_instant: now, delta_time };
            to_multiset_build(registry.timed_events, new);
        },
        Call::Dequeue { func } => {
            if let Some(i) = callback_index(registry.timed_events, func) {
                assert(is_callback_index(registry.timed_events, func, i));
                law_swap_removed_takes_one(registry.timed_events, i);
            } else if let Some(i) = callback_index(registry.due, func) {
                assert(is_callback_index(registry.due, func, i));
                to_multiset_remove(registry.due, i);
            }
        },
        Call::Collect { readings } => {
            let (kept, ready) = sweep(registry.timed_events, 0, readings);
            law_sweep_partitions(registry.timed_events, 0, readings);
            lemma_multiset_commutative(registry.due, ready);
            let pool = Registry { timed_events: kept, due: registry.due + ready, ..registry };
            lemma_next_timed_holds(pool);
            assert(held(pool).count(event) == kept.to_multiset().add(ready.to_multiset()).count(
                event,
            ) + registry.due.to_multiset().count(event));
            let (after, step) = next_timed(pool);
            assert(held(pool).count(event) == held(after).count(event) + timed_of(
                Some(step),
            ).to_multiset().count(event));
        },
        Call::TimedDone => {
            if !registry.exit_events {
                lemma_next_timed_holds(registry);
            }
        },
        Call::Polled { tokens } => {
            lemma_next_fd_keeps_timed(registry, tokens);
        },
        Call::FdDone { event: fd, tokens } => {
            lemma_next_fd_keeps_timed(put_back(registry, fd).0, tokens);
        },
        _ => {},
    }
}

/// Over any sequence of calls, in one run of the loop or in many, an event is run at most as often
/// as it was scheduled: once for each call of `e_queue`. Once it has run it is no longer held,
/// unless it is scheduled anew.
pub proof fn law_event_runs_at_most_once<C: PartialEq, F>(
    registry: Registry<C, F>,
    calls: Seq<Call<C, F>>,
    event: TimedEvent<C>,
)
    ensures
        timed_run(registry, calls).to_multiset().count(event) + held(
            all_called(registry, calls),
        ).count(event) <= held(registry).count(event) + times_queued(calls, event),
        held(registry).count(event) == 0 && times_queued(calls, event) <= 1 ==> timed_run(
            registry,
            calls,
        ).to_multiset().count(event) <= 1,
    decreases calls.len(),
{
    broadcast use vstd::multiset::group_multiset_axioms;

    lemma_empty_multiset::<TimedEvent<C>>();
    if calls.len() > 0 {
        let (after, step) = called(registry, calls[0]);
        let rest = calls.drop_first();
        lemma_call_accounts(registry, calls[0], event);
        law_event_runs_at_most_once(after, rest, event);
        lemma_multiset_commutative(timed_of(step), timed_run(after, rest));
    }
}

/// Finding out what to do next loses no event: those that wait or are due before are those that
/// wait or are due after, and the one that is handed out to be run. Nothing is handed out only
/// where none is due any longer, and nothing but the events changes.
pub proof fn law_resolving_loses_no_event<C, F>(
    before: Registry<C, F>,
    after: Registry<C, F>,
    action: ActionView<C, F>,
)
    requires
        resolves(before, StepView::Collect, after, action),
    ensures
        ({
            let held_before = before.timed_events.to_multiset().add(before.due.to_multiset());
            let held_after = after.timed_events.to_multiset().add(after.due.to_multiset());
            match action {
                ActionView::RunTimed { timed } => held_after.insert(timed) == held_before,
                ActionView::Poll { .. } => held_after == held_before && after.due.len() == 0,
                _ => false,
            }
        }),
        after.fd_events == before.fd_events,
        after.serving == before.serving,
        after.exit_events == before.exit_events,
        after.next_token == before.next_token,
        after.clock == before.clock,
{
    broadcast use vstd::multiset::group_multiset_axioms;

    let readings = choose|readings: Seq<Instant>|
        {
            let (collected, next) = #[trigger] collect(before, readings);
            &&& readings.len() == before.timed_events.len()
            &&& before.clock.reads_all(readings)
            &&& after == collected
            &&& is_action(after, next, action)
        };
    let (kept, ready) = sweep(before.timed_events, 0, readings);
    let pool = Registry { timed_events: kept, due: before.due + ready, ..before };
    law_sweep_partitions(before.timed_events, 0, readings);
    lemma_multiset_commutative(before.due, ready);
    assert(held(pool) =~= held(before));
    lemma_next_timed_holds(pool);
    lemma_empty_multiset::<TimedEvent<C>>();
    if let ActionView::RunTimed { timed } = action {
        lemma_singleton_multiset(timed);
        assert(timed_of(Some(next_timed(pool).1)) == seq![timed]);
        assert(held(after).insert(timed) =~= held(before));
    } else {
        assert(held(after) =~= held(before));
    }
}

/// What is run next is what is due: the events that were found due before come first, in their
/// order, then those that the look at the clock takes out. The others wait on. The loop polls only
/// where neither are there.
pub proof fn law_resolving_takes_out_what_is_due<C, F>(
    before: Registry<C, F>,
    after: Registry<C, F>,
    action: ActionView<C, F>,
)
    requires
        resolves(before, StepView::Collect, after, action),
    ensures
        exists|readings: Seq<Instant>|
            {
                let (kept, ready) = #[trigger] sweep(before.timed_events, 0, readings);
                &&& readings.len() == before.timed_events.len()
                &&& before.clock.reads_all(readings)
                &&& after.timed_events == kept
                &&& match action {
                    ActionView::RunTimed { timed } => seq![timed] + after.due == before.due + ready,
                    ActionView::Poll { .. } => before.due.len() == 0 && ready.len() == 0,
                    _ => false,
                }
            },
{
    let readings = choose|readings: Seq<Instant>|
        {
            let (collected, next) = #[trigger] collect(before, readings);
            &&& readings.len() == before.timed_events.len()
            &&& before.clock.reads_all(readings)
            &&& after == collected
            &&& is_action(after, next, action)
        };
    let (kept, ready) = sweep(before.timed_events, 0, readings);
    let due = before.due + ready;
    if due.len() > 0 {
        assert(seq![due[0]] + due.drop_first() == due);
    }
}

/// A step that asks for something already is not changed, and changes nothing. One that polls does
/// so until the first of the events that wait is due, without end exactly where none waits.
pub proof fn law_resolving_waits_for_what_is_scheduled<C, F>(
    before: Registry<C, F>,
    step: StepView<C, F>,
    after: Registry<C, F>,
    action: ActionView<C, F>,
)
    requires
        resolves(before, step, after, action),
    ensures
        step matches StepView::Act(asked) ==> action == asked && after == before,
        step is Wait ==> action is Poll && after == before,
        !(step is Act) ==> (action matches ActionView::Poll { timeout } ==> {
            &&& timeout is None <==> after.timed_events.len() == 0
            &&& exists|readings: Seq<Instant>|
                readings.len() == after.timed_events.len() + 1 && before.clock.reads_all(readings)
                    && #[trigger] is_timeout(after.timed_events, readings, timeout)
        }),
{
}

/// One call loses no event, unless it un-schedules one, is called where the loop is to end, or
/// enters the loop anew.
proof fn lemma_call_loses_none<C: PartialEq, F>(
    registry: Registry<C, F>,
    call: Call<C, F>,
    event: TimedEvent<C>,
)
    requires
        !registry.exit_events,
        !(call is Dequeue) && !(call is Exit) && !(call is Enter),
    ensures
        ({
            let (after, step) = called(registry, call);
            &&& timed_of(step).to_multiset().count(event) + held(after).count(event) == held(
                registry,
            ).count(event) + times_queued_by(call, event)
            &&& !after.exit_events
        }),
{
    broadcast use vstd::multiset::group_multiset_axioms;

    lemma_empty_multiset::<TimedEvent<C>>();
    match call {
        Call::Queue { func, delta_time, now } => {
            let new = TimedEvent { callback: func, register_instant: now, delta_time };
            to_multiset_build(registry.timed_events, new);
        },
        Call::Collect { readings } => {
            let waiting = registry.timed_events;
            let (kept, ready) = sweep(waiting, 0, readings);
            law_sweep_partitions(waiting, 0, readings);
            lemma_multiset_commutative(registry.due, ready);
            let pool = Registry { timed_events: kept, due: registry.due + ready, ..registry };
            lemma_next_timed_holds(pool);
            assert(held(pool) =~= held(registry));
        },
        Call::TimedDone => {
            lemma_next_timed_holds(registry);
        },
        Call::Polled { tokens } => {
            lemma_next_fd_keeps_timed(registry, tokens);
            law_serving_hands_out_the_first(registry, tokens);
        },
        Call::FdDone { event: fd, tokens } => {
            lemma_next_fd_keeps_timed(put_back(registry, fd).0, tokens);
            law_serving_hands_out_the_first(put_back(registry, fd).0, tokens);
        },
        _ => {},
    }
}

/// No event is lost: over any calls none of which un-schedules a callback, asks for the end of the
/// loop or enters it anew, an event is run or still held just as often as it was held before or is
/// scheduled by them.
pub proof fn law_no_event_is_lost<C: PartialEq, F>(
    registry: Registry<C, F>,
    calls: Seq<Call<C, F>>,
    event: TimedEvent<C>,
)
    requires
        !registry.exit_events,
        forall|i: int|
            0 <= i < calls.len() ==> !(#[trigger] calls[i] is Dequeue) && !(calls[i] is Exit) && !(
            calls[i] is Enter),
    ensures
        timed_run(registry, calls).to_multiset().count(event) + held(
            all_called(registry, calls),
        ).count(event) == held(registry).count(event) + times_queued(calls, event),
    decreases calls.len(),
{
    broadcast use vstd::multiset::group_multiset_axioms;

    lemma_empty_multiset::<TimedEvent<C>>();
    if calls.len() > 0 {
        let (after, step) = called(registry, calls[0]);
        let rest = calls.drop_first();
        assert(!(calls[0] is Dequeue));
        lemma_call_loses_none(registry, calls[0], event);
        assert forall|i: int| 0 <= i < rest.len() implies !(#[trigger] rest[i] is Dequeue) && !(
        rest[i] is Exit) && !(rest[i] is Enter) by {
            assert(rest[i] == calls[i + 1]);
            assert(!(calls[i + 1] is Dequeue));
        }
        law_no_event_is_lost(after, rest, event);
        lemma_multiset_commutative(timed_of(step), timed_run(after, rest));
    }
}

/// Whether every reading at which `calls` look at an event is there and is no later than `latest`.
pub open spec fn looked_by<C: PartialEq, F>(
    registry: Registry<C, F>,
    calls: Seq<Call<C, F>>,
    latest: Instant,
) -> bool
    decreases calls.len(),
{
    calls.len() > 0 ==> {
        &&& calls[0] matches Call::Collect { readings } ==> readings.len()
            >= registry.timed_events.len() && forall|i: int|
            0 <= i < readings.len() ==> (#[trigger] readings[i])@ <= latest@
        &&& looked_by(called(registry, calls[0]).0, calls.drop_first(), latest)
    }
}

/// Whether each of `events` has had its delay at `latest`.
pub open spec fn all_due<C>(events: Seq<TimedEvent<C>>, latest: Instant) -> bool {
    forall|i: int| 0 <= i < events.len() ==> is_due(#[trigger] events[i], latest)
}

/// One call finds due, and runs, only what has had its delay.
proof fn lemma_call_is_late_enough<C: PartialEq, F>(
    registry: Registry<C, F>,
    call: Call<C, F>,
    latest: Instant,
)
    requires
        all_due(registry.due, latest),
        looked_by(registry, seq![call], latest),
    ensures
        all_due(called(registry, call).0.due, latest),
        all_due(timed_of(called(registry, call).1), latest),
{
    match call {
        Call::Dequeue { func } => {
            if callback_index(registry.timed_events, func) is None {
                if let Some(i) = callback_index(registry.due, func) {
                    assert(is_callback_index(registry.due, func, i));
                }
            }
        },
        Call::Collect { readings } => {
            assert(seq![call][0] == call);
            lemma_sweep_takes_due(registry.timed_events, 0, readings, latest);
        },
        Call::Polled { tokens } => {
            lemma_next_fd_keeps_timed(registry, tokens);
        },
        Call::FdDone { event, tokens } => {
            lemma_next_fd_keeps_timed(put_back(registry, event).0, tokens);
        },
        _ => {},
    }
}

/// No callback is run before its delay has passed: whatever is run in the course of some calls was
/// registered more than its delay before the latest reading that they took.
pub proof fn law_event_runs_only_after_its_delay<C: PartialEq, F>(
    registry: Registry<C, F>,
    calls: Seq<Call<C, F>>,
    latest: Instant,
)
    requires
        all_due(registry.due, latest),
        looked_by(registry, calls, latest),
    ensures
        forall|i: int|
            0 <= i < timed_run(registry, calls).len() ==> latest@ > (#[trigger] timed_run(
                registry,
                calls,
            )[i]).register_instant@ + timed_run(registry, calls)[i].delta_time@,
    decreases calls.len(),
{
    if calls.len() > 0 {
        let (after, step) = called(registry, calls[0]);
        let rest = calls.drop_first();
        assert(looked_by(registry, seq![calls[0]], latest)) by {
            reveal_with_fuel(looked_by, 2);
        }
        lemma_call_is_late_enough(registry, calls[0], latest);
        law_event_runs_only_after_its_delay(after, rest, latest);
        let first = timed_of(step);
        let more = timed_run(after, rest);
        let run = first + more;
        assert(timed_run(registry, calls) == run);
        assert forall|i: int| 0 <= i < run.len() implies latest@ > (
        #[trigger] run[i]).register_instant@ + run[i].delta_time@ by {
            if i < first.len() {
                assert(is_due(first[i], latest));
            } else {
                assert(run[i] == more[i - first.len()]);
            }
        }
    }
}

/// Whether `call` schedules the callback `func`.
pub open spec fn queues<C: PartialEq, F>(call: Call<C, F>, func: C) -> bool {
    call matches Call::Queue { func: other, .. } && other.eq_spec(&func)
}

/// A part of `events` has no callback that `events` has not.
proof fn lemma_count_of_part<C: PartialEq>(
    events: Seq<TimedEvent<C>>,
    part: Seq<TimedEvent<C>>,
    func: C,
)
    requires
        callback_count(events, func) == 0,
        forall|i: int| 0 <= i < part.len() ==> events.contains(#[trigger] part[i]),
    ensures
        callback_count(part, func) == 0,
{
    law_count_is_zero_where_absent(events, func);
    law_count_is_zero_where_absent(part, func);
    assert forall|i: int| 0 <= i < part.len() implies !(#[trigger] part[i]).callback.eq_spec(
        &func,
    ) by {
        assert(events.contains(part[i]));
    }
}

/// The part of `events` that is kept by a sweep, and the part that is taken out, hold nothing else.
proof fn lemma_sweep_parts<C>(events: Seq<TimedEvent<C>>, readings: Seq<Instant>)
    ensures
        ({
            let (kept, ready) = sweep(events, 0, readings);
            &&& forall|i: int| 0 <= i < kept.len() ==> events.contains(#[trigger] kept[i])
            &&& forall|i: int| 0 <= i < ready.len() ==> events.contains(#[trigger] ready[i])
        }),
{
    broadcast use vstd::multiset::group_multiset_axioms;

    let (kept, ready) = sweep(events, 0, readings);
    law_sweep_partitions(events, 0, readings);
    assert forall|i: int| 0 <= i < kept.len() implies events.contains(#[trigger] kept[i]) by {
        assert(kept.contains(kept[i]));
        to_multiset_contains(kept, kept[i]);
        to_multiset_contains(events, kept[i]);
    }
    assert forall|i: int| 0 <= i < ready.len() implies events.contains(#[trigger] ready[i]) by {
        assert(ready.contains(ready[i]));
        to_multiset_contains(ready, ready[i]);
        to_multiset_contains(events, ready[i]);
    }
}

/// Going on to the next due event brings no callback up that is not scheduled.
proof fn lemma_next_timed_is_not<C: PartialEq, F>(registry: Registry<C, F>, func: C)
    requires
        scheduled_count(registry, func) == 0,
    ensures
        scheduled_count(next_timed(registry).0, func) == 0,
        callback_count(timed_of(Some(next_timed(registry).1)), func) == 0,
{
    if registry.due.len() > 0 {
        let rest = registry.due.drop_first();
        assert forall|i: int| 0 <= i < rest.len() implies registry.due.contains(
            #[trigger] rest[i],
        ) by {
            assert(registry.due[i + 1] == rest[i]);
        }
        lemma_count_of_part(registry.due, rest, func);
        lemma_count_of_part(registry.due, seq![registry.due[0]], func);
    }
}

/// One call brings no callback up that is not scheduled.
proof fn lemma_call_is_not<C: PartialEq, F>(registry: Registry<C, F>, call: Call<C, F>, func: C)
    requires
        scheduled_count(registry, func) == 0,
        !queues(call, func),
    ensures
        scheduled_count(called(registry, call).0, func) == 0,
        callback_count(timed_of(called(registry, call).1), func) == 0,
{
    match call {
        Call::Queue { func: other, delta_time, now } => {
            let events = registry.timed_events;
            let more = queued(registry, other, delta_time, now).timed_events;
            assert(more.drop_last() == events);
        },
        Call::Dequeue { func: other } => {
            if let Some(i) = callback_index(registry.timed_events, other) {
                assert(is_callback_index(registry.timed_events, other, i));
                lemma_count_of_part(
                    registry.timed_events,
                    swap_removed(registry.timed_events, i),
                    func,
                );
            } else if let Some(i) = callback_index(registry.due, other) {
                assert(is_callback_index(registry.due, other, i));
                let left = registry.due.remove(i);
                assert forall|k: int| 0 <= k < left.len() implies registry.due.contains(
                    #[trigger] left[k],
                ) by {
                    assert(left[k] == registry.due[if k < i { k } else { k + 1 }]);
                }
                lemma_count_of_part(registry.due, left, func);
            }
        },
        Call::Collect { readings } => {
            let (kept, ready) = sweep(registry.timed_events, 0, readings);
            lemma_sweep_parts(registry.timed_events, readings);
            lemma_count_of_part(registry.timed_events, kept, func);
            lemma_count_of_part(registry.timed_events, ready, func);
            lemma_callback_count_add(registry.due, ready, func);
            lemma_next_timed_is_not(
                Registry { timed_events: kept, due: registry.due + ready, ..registry },
                func,
            );
        },
        Call::TimedDone => {
            if !registry.exit_events {
                lemma_next_timed_is_not(registry, func);
            }
        },
        Call::Polled { tokens } => {
            lemma_next_fd_keeps_timed(registry, tokens);
        },
        Call::FdDone { event, tokens } => {
            lemma_next_fd_keeps_timed(put_back(registry, event).0, tokens);
        },
        _ => {},
    }
}

/// A callback that is un-scheduled, so that none of its events is left, waiting or due, is not run
/// by anything that follows until it is scheduled again.
pub proof fn law_unscheduled_is_not_run<C: PartialEq, F>(
    registry: Registry<C, F>,
    calls: Seq<Call<C, F>>,
    func: C,
)
    requires
        scheduled_count(registry, func) == 0,
        forall|i: int| 0 <= i < calls.len() ==> !queues(#[trigger] calls[i], func),
    ensures
        forall|i: int|
            0 <= i < timed_run(registry, calls).len() ==> !(#[trigger] timed_run(
                registry,
                calls,
            )[i]).callback.eq_spec(&func),
        scheduled_count(all_called(registry, calls), func) == 0,
    decreases calls.len(),
{
    if calls.len() > 0 {
        let (after, step) = called(registry, calls[0]);
        let rest = calls.drop_first();
        assert(!queues(calls[0], func));
        lemma_call_is_not(registry, calls[0], func);
        assert forall|i: int| 0 <= i < rest.len() implies !queues(#[trigger] rest[i], func) by {
            assert(rest[i] == calls[i + 1]);
        }
        law_unscheduled_is_not_run(after, rest, func);
        let first = timed_of(step);
        let more = timed_run(after, rest);
        let run = first + more;
        assert(timed_run(registry, calls) == run);
        law_count_is_zero_where_absent(first, func);
        assert forall|i: int| 0 <= i < run.len() implies !(#[trigger] run[i]).callback.eq_spec(
            &func,
        ) by {
            if i < first.len() {
                assert(run[i] == first[i]);
            } else {
                assert(run[i] == more[i - first.len()]);
            }
        }
    }
}

/// The descriptors whose callbacks are run because of `step`.
pub open spec fn fds_of<C, F>(step: Option<StepView<C, F>>) -> Seq<FdEvent<F>> {
    match step {
        Some(StepView::Act(ActionView::RunFd { event, .. })) => seq![event],
        _ => seq![],
    }
}

/// The descriptors whose callbacks are run in the course of `calls`, in order.
pub open spec fn fds_run<C: PartialEq, F>(
    registry: Registry<C, F>,
    calls: Seq<Call<C, F>>,
) -> Seq<FdEvent<F>>
    decreases calls.len(),
{
    if calls.len() == 0 {
        seq![]
    } else {
        let (after, step) = called(registry, calls[0]);
        fds_of(step) + fds_run(after, calls.drop_first())
    }
}

/// One call leaves a token gone that is gone, and runs no callback of it.
proof fn lemma_call_leaves_gone<C: PartialEq, F>(
    registry: Registry<C, F>,
    call: Call<C, F>,
    token: Token,
)
    requires
        registry.is_gone(token),
    ensures
        called(registry, call).0.is_gone(token),
        forall|i: int|
            0 <= i < fds_of(called(registry, call).1).len() ==> (#[trigger] fds_of(
                called(registry, call).1,
            )[i]).token != token,
{
    match call {
        Call::Detach { token: other } => {
            if let Some(i) = fd_index(registry.fd_events, other) {
                assert(is_fd_index(registry.fd_events, other, i));
            }
        },
        Call::Polled { tokens } => {
            lemma_gone_is_not_served(registry, tokens, token);
        },
        Call::FdDone { event, tokens } => {
            lemma_gone_is_not_served(put_back(registry, event).0, tokens, token);
        },
        _ => {},
    }
}

/// A descriptor that is detached, from inside its own callback or from elsewhere, is never run
/// again, whatever follows.
pub proof fn law_detached_is_not_run<C: PartialEq, F>(
    registry: Registry<C, F>,
    calls: Seq<Call<C, F>>,
    token: Token,
)
    requires
        registry.is_gone(token),
    ensures
        forall|i: int|
            0 <= i < fds_run(registry, calls).len() ==> (#[trigger] fds_run(
                registry,
                calls,
            )[i]).token != token,
        all_called(registry, calls).is_gone(token),
    decreases calls.len(),
{
    if calls.len() > 0 {
        let (after, step) = called(registry, calls[0]);
        let rest = calls.drop_first();
        lemma_call_leaves_gone(registry, calls[0], token);
        law_detached_is_not_run(after, rest, token);
        let first = fds_of(step);
        let more = fds_run(after, rest);
        let run = first + more;
        assert(fds_run(registry, calls) == run);
        assert forall|i: int| 0 <= i < run.len() implies (#[trigger] run[i]).token != token by {
            if i < first.len() {
                assert(run[i] == first[i]);
            } else {
                assert(run[i] == more[i - first.len()]);
            }
        }
    }
}

/// Whether `call` can end the service of `token`: it detaches it, or its callback is done.
pub open spec fn releases<C, F>(call: Call<C, F>, token: Token) -> bool {
    match call {
        Call::Detach { token: other } => other == token,
        Call::FdDone { event, .. } => event.token == token,
        _ => false,
    }
}

/// Serving descriptors releases none.
proof fn lemma_next_fd_keeps_serving<C, F>(
    registry: Registry<C, F>,
    tokens: Seq<Token>,
    token: Token,
)
    requires
        registry.serving.contains(token),
    ensures
        next_fd(registry, tokens).0.serving.contains(token),
    decreases tokens.len(),
{
    if tokens.len() > 0 && fd_index(registry.fd_events, tokens[0]) is None {
        lemma_next_fd_keeps_serving(registry, tokens.drop_first(), token);
    }
}

/// Whatever a callback schedules, attaches or detaches while it runs, its own descriptor keeps its
/// place and is put back afterwards, unless it is detached itself.
pub proof fn law_running_descriptor_keeps_its_place<C: PartialEq, F>(
    registry: Registry<C, F>,
    calls: Seq<Call<C, F>>,
    event: FdEvent<F>,
)
    requires
        registry.serving.contains(event.token),
        forall|i: int| 0 <= i < calls.len() ==> !releases(#[trigger] calls[i], event.token),
    ensures
        ({
            let after = all_called(registry, calls);
            &&& after.serving.contains(event.token)
            &&& put_back(after, event).1 is None
            &&& put_back(after, event).0.fd_events == after.fd_events.push(event)
        }),
    decreases calls.len(),
{
    if calls.len() > 0 {
        let (after, step) = called(registry, calls[0]);
        let rest = calls.drop_first();
        assert(!releases(calls[0], event.token));
        match calls[0] {
            Call::Polled { tokens } => {
                lemma_next_fd_keeps_serving(registry, tokens, event.token);
            },
            Call::FdDone { event: other, tokens } => {
                lemma_next_fd_keeps_serving(put_back(registry, other).0, tokens, event.token);
            },
            _ => {},
        }
        assert forall|i: int| 0 <= i < rest.len() implies !releases(
            #[trigger] rest[i],
            event.token,
        ) by {
            assert(rest[i] == calls[i + 1]);
        }
        law_running_descriptor_keeps_its_place(after, rest, event);
    }
}

/// What follows each of `calls`, one after the other.
pub open spec fn steps_given<C: PartialEq, F>(
    registry: Registry<C, F>,
    calls: Seq<Call<C, F>>,
) -> Seq<Option<StepView<C, F>>>
    decreases calls.len(),
{
    if calls.len() == 0 {
        seq![]
    } else {
        let (after, step) = called(registry, calls[0]);
        seq![step] + steps_given(after, calls.drop_first())
    }
}

/// While nobody asks for its end, the loop goes on: whatever is called, no step ends it.
pub proof fn law_loop_goes_on<C: PartialEq, F>(registry: Registry<C, F>, calls: Seq<Call<C, F>>)
    requires
        !registry.exit_events,
        forall|i: int| 0 <= i < calls.len() ==> !(#[trigger] calls[i] is Exit),
    ensures
        !all_called(registry, calls).exit_events,
        steps_given(registry, calls).len() == calls.len(),
        forall|i: int|
            0 <= i < calls.len() ==> (#[trigger] steps_given(registry, calls)[i]) != Some(
                StepView::<C, F>::Act(ActionView::Return),
            ) && steps_given(registry, calls)[i] != Some(
                StepView::<C, F>::Act(ActionView::Abort),
            ),
    decreases calls.len(),
{
    if calls.len() > 0 {
        let (after, step) = called(registry, calls[0]);
        let rest = calls.drop_first();
        assert(!(calls[0] is Exit));
        match calls[0] {
            Call::Polled { tokens } => {
                law_serving_hands_out_the_first(registry, tokens);
            },
            Call::FdDone { event, tokens } => {
                law_serving_hands_out_the_first(put_back(registry, event).0, tokens);
            },
            _ => {},
        }
        assert forall|i: int| 0 <= i < rest.len() implies !(#[trigger] rest[i] is Exit) by {
            assert(rest[i] == calls[i + 1]);
        }
        law_loop_goes_on(after, rest);
        let more = steps_given(after, rest);
        let given = seq![step] + more;
        assert(steps_given(registry, calls) == given);
        assert forall|i: int| 0 <= i < calls.len() implies (#[trigger] given[i]) != Some(
            StepView::<C, F>::Act(ActionView::Return),
        ) && given[i] != Some(StepView::<C, F>::Act(ActionView::Abort)) by {
            if i > 0 {
                assert(given[i] == more[i - 1]);
            }
        }
    }
}

/// Once somebody has asked for its end, the loop ends as soon as a callback is done, whatever is
/// called until then short of entering the loop anew.
pub proof fn law_exit_ends_the_loop<C: PartialEq, F>(
    registry: Registry<C, F>,
    calls: Seq<Call<C, F>>,
    event: FdEvent<F>,
    tokens: Seq<Token>,
)
    requires
        registry.exit_events,
        forall|i: int| 0 <= i < calls.len() ==> !(#[trigger] calls[i] is Enter),
    ensures
        all_called(registry, calls).exit_events,
        called(all_called(registry, calls), Call::TimedDone).1 == Some(
            StepView::<C, F>::Act(ActionView::Return),
        ),
        called(all_called(registry, calls), Call::FdDone { event, tokens }).1 == Some(
            StepView::<C, F>::Act(ActionView::Return),
        ),
    decreases calls.len(),
{
    if calls.len() > 0 {
        let rest = calls.drop_first();
        assert(!(calls[0] is Enter));
        if let Call::Polled { tokens: ready } = calls[0] {
            law_serving_hands_out_the_first(registry, ready);
        }
        assert forall|i: int| 0 <= i < rest.len() implies !(#[trigger] rest[i] is Enter) by {
            assert(rest[i] == calls[i + 1]);
        }
        law_exit_ends_the_loop(called(registry, calls[0]).0, rest, event, tokens);
    }
}

/// Whether `call` leaves it as it is which descriptors are attached: it attaches and detaches none,
/// and where it says that a callback is done, that of a descriptor among `away` is.
pub open spec fn keeps_attached<C, F>(call: Call<C, F>, away: Multiset<FdEvent<F>>) -> bool {
    match call {
        Call::Attach { .. } => false,
        Call::Detach { .. } => false,
        Call::FdDone { event, .. } => away.count(event) > 0,
        _ => true,
    }
}

/// The descriptors that are handed out and not done after `call`, where `away` are before it.
pub open spec fn away_after<C: PartialEq, F>(
    registry: Registry<C, F>,
    call: Call<C, F>,
    away: Multiset<FdEvent<F>>,
) -> Multiset<FdEvent<F>> {
    let left = match call {
        Call::FdDone { event, .. } => away.remove(event),
        _ => away,
    };
    left.add(fds_of(called(registry, call).1).to_multiset())
}

/// Whether none of `calls` attaches or detaches a descriptor, and each that says that a callback is
/// done names a descriptor that is handed out, by them or among `away`, and not done.
pub open spec fn all_keep_attached<C: PartialEq, F>(
    registry: Registry<C, F>,
    calls: Seq<Call<C, F>>,
    away: Multiset<FdEvent<F>>,
) -> bool
    decreases calls.len(),
{
    calls.len() > 0 ==> {
        &&& keeps_attached(calls[0], away)
        &&& all_keep_attached(
            called(registry, calls[0]).0,
            calls.drop_first(),
            away_after(registry, calls[0], away),
        )
    }
}

/// The descriptors that are handed out and not done after `calls`, where `away` are before them.
pub open spec fn all_away_after<C: PartialEq, F>(
    registry: Registry<C, F>,
    calls: Seq<Call<C, F>>,
    away: Multiset<FdEvent<F>>,
) -> Multiset<FdEvent<F>>
    decreases calls.len(),
{
    if calls.len() == 0 {
        away
    } else {
        all_away_after(
            called(registry, calls[0]).0,
            calls.drop_first(),
            away_after(registry, calls[0], away),
        )
    }
}

/// Whether the descriptors in service are those of `others` and, each under a token of its own, the
/// ones in `away`.
spec fn in_service<F>(
    serving: Set<Token>,
    others: Set<Token>,
    away: Multiset<FdEvent<F>>,
) -> bool {
    &&& forall|token: Token| #[trigger] others.contains(token) ==> serving.contains(token)
    &&& forall|event: FdEvent<F>| #[trigger]
        away.count(event) > 0 ==> away.count(event) == 1 && serving.contains(event.token)
            && !others.contains(event.token)
    &&& forall|a: FdEvent<F>, b: FdEvent<F>|
        #[trigger] away.count(a) > 0 && #[trigger] away.count(b) > 0 && a.token == b.token ==> a
            == b
    &&& forall|token: Token| #[trigger]
        serving.contains(token) ==> others.contains(token) || exists|event: FdEvent<F>| #[trigger]
            away.count(event) > 0 && event.token == token
}

/// Serving descriptors moves one from those that are attached to those that are handed out, or
/// changes nothing.
proof fn lemma_next_fd_moves_one<C, F>(
    registry: Registry<C, F>,
    tokens: Seq<Token>,
    others: Set<Token>,
    away: Multiset<FdEvent<F>>,
)
    requires
        registry.wf(),
        in_service(registry.serving, others, away),
    ensures
        ({
            let (after, step) = next_fd(registry, tokens);
            let more = away.add(fds_of(Some(step)).to_multiset());
            &&& after.wf()
            &&& in_service(after.serving, others, more)
            &&& after.fd_events.to_multiset().add(more)
                == registry.fd_events.to_multiset().add(away)
            &&& after.next_token == registry.next_token
        }),
{
    broadcast use vstd::multiset::group_multiset_axioms;

    let (after, step) = next_fd(registry, tokens);
    let more = away.add(fds_of(Some(step)).to_multiset());
    lemma_empty_multiset::<FdEvent<F>>();
    law_serving_hands_out_the_first(registry, tokens);
    if let StepView::Act(ActionView::RunFd { event, .. }) = step {
        lemma_singleton_multiset(event);
        to_multiset_build(after.fd_events, event);
        assert(put_back(after, event).0.fd_events == after.fd_events.push(event));
        to_multiset_contains(registry.fd_events, event);
        assert(registry.fd_events.contains(event));
        assert(!registry.serving.contains(event.token));
        assert(more =~= away.insert(event));
        assert(more.count(event) > 0);
        assert forall|token: Token| #[trigger]
            after.serving.contains(token) implies others.contains(token)
            || exists|other: FdEvent<F>| #[trigger]
            more.count(other) > 0 && other.token == token by {
            if token != event.token && !others.contains(token) {
                assert(registry.serving.contains(token));
                let other = choose|other: FdEvent<F>| #[trigger]
                    away.count(other) > 0 && other.token == token;
                assert(more.count(other) > 0);
            }
        }
    } else {
        assert(more =~= away);
    }
    assert(after.fd_events.to_multiset().add(more) =~= registry.fd_events.to_multiset().add(away));
}

/// A descriptor that is handed out is moved back to those that are attached once it is done.
proof fn lemma_put_back_moves_one<C, F>(
    registry: Registry<C, F>,
    event: FdEvent<F>,
    others: Set<Token>,
    away: Multiset<FdEvent<F>>,
)
    requires
        registry.wf(),
        in_service(registry.serving, others, away),
        away.count(event) > 0,
    ensures
        ({
            let back = put_back(registry, event).0;
            let left = away.remove(event);
            &&& back.wf()
            &&& in_service(back.serving, others, left)
            &&& back.fd_events.to_multiset().add(left)
                == registry.fd_events.to_multiset().add(away)
            &&& back.next_token == registry.next_token
        }),
{
    broadcast use vstd::multiset::group_multiset_axioms;

    let back = put_back(registry, event).0;
    let left = away.remove(event);
    assert(registry.serving.contains(event.token));
    to_multiset_build(registry.fd_events, event);
    assert(back.fd_events.to_multiset().add(left) =~= registry.fd_events.to_multiset().add(away));
    assert forall|token: Token| #[trigger] back.serving.contains(token) implies others.contains(
        token,
    ) || exists|other: FdEvent<F>| #[trigger] left.count(other) > 0 && other.token == token by {
        if !others.contains(token) {
            assert(registry.serving.contains(token));
            let other = choose|other: FdEvent<F>| #[trigger]
                away.count(other) > 0 && other.token == token;
            assert(left.count(other) > 0);
        }
    }
}

/// One call that attaches and detaches nothing only moves descriptors between those that are
/// attached and those that are handed out.
proof fn lemma_call_keeps_attached<C: PartialEq, F>(
    registry: Registry<C, F>,
    call: Call<C, F>,
    others: Set<Token>,
    away: Multiset<FdEvent<F>>,
)
    requires
        registry.wf(),
        in_service(registry.serving, others, away),
        keeps_attached(call, away),
    ensures
        ({
            let after = called(registry, call).0;
            let more = away_after(registry, call, away);
            &&& after.wf()
            &&& in_service(after.serving, others, more)
            &&& after.fd_events.to_multiset().add(more)
                == registry.fd_events.to_multiset().add(away)
            &&& after.next_token == registry.next_token
        }),
{
    broadcast use vstd::multiset::group_multiset_axioms;

    lemma_empty_multiset::<FdEvent<F>>();
    match call {
        Call::Polled { tokens } => {
            lemma_next_fd_moves_one(registry, tokens, others, away);
        },
        Call::FdDone { event, tokens } => {
            let back = put_back(registry, event).0;
            lemma_put_back_moves_one(registry, event, others, away);
            if back.exit_events {
                assert(away_after(registry, call, away) =~= away.remove(event));
            } else {
                lemma_next_fd_moves_one(back, tokens, others, away.remove(event));
            }
        },
        _ => {
            assert(away_after(registry, call, away) =~= away);
        },
    }
}

/// Calls that attach and detach nothing only move descriptors between those that are attached and
/// those that are handed out.
proof fn lemma_calls_keep_attached<C: PartialEq, F>(
    registry: Registry<C, F>,
    calls: Seq<Call<C, F>>,
    others: Set<Token>,
    away: Multiset<FdEvent<F>>,
)
    requires
        registry.wf(),
        in_service(registry.serving, others, away),
        all_keep_attached(registry, calls, away),
    ensures
        ({
            let after = all_called(registry, calls);
            let more = all_away_after(registry, calls, away);
            &&& after.wf()
            &&& in_service(after.serving, others, more)
            &&& after.fd_events.to_multiset().add(more)
                == registry.fd_events.to_multiset().add(away)
            &&& after.next_token == registry.next_token
        }),
    decreases calls.len(),
{
    if calls.len() > 0 {
        lemma_call_keeps_attached(registry, calls[0], others, away);
        lemma_calls_keep_attached(
            called(registry, calls[0]).0,
            calls.drop_first(),
            others,
            away_after(registry, calls[0], away),
        );
    }
}

/// Calls that attach and detach no descriptor leave the same descriptors attached, and the same
/// token next, once every callback is done of those that they had run: however often a descriptor
/// is handed out, it comes back.
pub proof fn law_descriptors_come_back<C: PartialEq, F>(
    registry: Registry<C, F>,
    calls: Seq<Call<C, F>>,
)
    requires
        registry.wf(),
        all_keep_attached(registry, calls, Multiset::empty()),
        all_away_after(registry, calls, Multiset::empty()) == Multiset::<FdEvent<F>>::empty(),
    ensures
        ({
            let after = all_called(registry, calls);
            &&& after.fd_events.to_multiset() == registry.fd_events.to_multiset()
            &&& after.serving == registry.serving
            &&& after.next_token == registry.next_token
            &&& after.wf()
        }),
{
    broadcast use vstd::multiset::group_multiset_axioms;

    let none = Multiset::<FdEvent<F>>::empty();
    let after = all_called(registry, calls);
    lemma_calls_keep_attached(registry, calls, registry.serving, none);
    assert(after.fd_events.to_multiset().add(none) =~= after.fd_events.to_multiset());
    assert(registry.fd_events.to_multiset().add(none) =~= registry.fd_events.to_multiset());
    assert(after.serving =~= registry.serving);
}

} // verus!
