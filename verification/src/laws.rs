//! What holds of the event loop as a whole.

use vstd::prelude::*;
use vstd::multiset::Multiset;
use vstd::seq_lib::{
    lemma_multiset_commutative, to_multiset_build, to_multiset_contains, to_multiset_remove,
    to_multiset_update,
};
use vstd::std_specs::cmp::PartialEqSpec;
use crate::first;
use crate::readiness::{DEFAULT_EVENTS_CAPACITY, Token};
use crate::registry::{
    FdEvent, Registry, TimedEvent, attached_to, callback_index, dequeued, detached, elapsed,
    entered, fd_index, is_callback_index, is_dequeue, is_due, is_fd_index, is_queued, is_timeout,
    lemma_callback_index, lemma_fd_index, put_back, queued, remaining, swap_removed, sweep, waits,
};
use crate::spevents::{AttachError, Priority, attach_outcome};
use crate::steps::{
    Action, ActionView, Step, StepView, after_fd, after_timed, next_fd, next_timed, resolves,
};
use crate::time::{Duration, Instant};

verus! {

/// A swap removal takes out the one item and keeps every other.
pub proof fn law_swap_removed_takes_one<T>(s: Seq<T>, i: int)
    requires
        0 <= i < s.len(),
    ensures
        swap_removed(s, i).to_multiset().insert(s[i]) == s.to_multiset(),
        swap_removed(s, i).len() == s.len() - 1,
{
    broadcast use vstd::multiset::group_multiset_axioms;

    let updated = s.update(i, s.last());
    to_multiset_update(s, i, s.last());
    to_multiset_remove(updated, updated.len() - 1);
    assert(updated.remove(updated.len() - 1) == swap_removed(s, i));
    to_multiset_contains(s, s[i]);
    assert(s.contains(s[i]));
    assert(swap_removed(s, i).to_multiset().insert(s[i]) =~= s.to_multiset());
}

/// Taking out the due events loses none and makes up none: each event either stays or is taken
/// out.
pub proof fn law_sweep_partitions<C>(
    events: Seq<TimedEvent<C>>,
    from: int,
    readings: Seq<Instant>,
)
    requires
        0 <= from <= events.len(),
    ensures
        ({
            let (kept, ready) = sweep(events, from, readings);
            kept.to_multiset().add(ready.to_multiset()) == events.to_multiset()
        }),
    decreases events.len() - from,
{
    broadcast use vstd::multiset::group_multiset_axioms;

    if from >= events.len() {
        assert(Seq::<TimedEvent<C>>::empty().to_multiset() =~= Multiset::empty()) by {
            Seq::<TimedEvent<C>>::empty().to_multiset_ensures();
        }
        assert(events.to_multiset().add(Multiset::empty()) =~= events.to_multiset());
    } else if is_due(events[from], readings[0]) {
        let left = swap_removed(events, from);
        let (kept, ready) = sweep(left, from, readings.drop_first());
        law_sweep_partitions(left, from, readings.drop_first());
        law_swap_removed_takes_one(events, from);
        let one = seq![events[from]];
        lemma_multiset_commutative(one, ready);
        assert(one == Seq::<TimedEvent<C>>::empty().push(events[from]));
        to_multiset_build(Seq::<TimedEvent<C>>::empty(), events[from]);
        assert(Seq::<TimedEvent<C>>::empty().to_multiset() =~= Multiset::empty()) by {
            Seq::<TimedEvent<C>>::empty().to_multiset_ensures();
        }
        assert(kept.to_multiset().add((one + ready).to_multiset()) =~= events.to_multiset());
    } else {
        law_sweep_partitions(events, from + 1, readings.drop_first());
    }
}

/// Whether every reading lies between `earliest` and `latest`.
pub open spec fn between(readings: Seq<Instant>, earliest: Instant, latest: Instant) -> bool {
    forall|i: int|
        0 <= i < readings.len() ==> earliest@ <= (#[trigger] readings[i])@ <= latest@
}

/// What is taken out from `from` on is due at the latest reading.
pub proof fn lemma_sweep_takes_due<C>(
    events: Seq<TimedEvent<C>>,
    from: int,
    readings: Seq<Instant>,
    latest: Instant,
)
    requires
        0 <= from <= events.len(),
        readings.len() >= events.len() - from,
        forall|i: int| 0 <= i < readings.len() ==> (#[trigger] readings[i])@ <= latest@,
    ensures
        forall|i: int|
            0 <= i < sweep(events, from, readings).1.len() ==> is_due(
                #[trigger] sweep(events, from, readings).1[i],
                latest,
            ),
    decreases events.len() - from,
{
    if from < events.len() {
        let later = readings.drop_first();
        assert forall|i: int| 0 <= i < later.len() implies (#[trigger] later[i])@ <= latest@ by {
            assert(later[i] == readings[i + 1]);
        }
        assert(readings[0]@ <= latest@);
        if is_due(events[from], readings[0]) {
            let left = swap_removed(events, from);
            let (kept, more) = sweep(left, from, later);
            lemma_sweep_takes_due(left, from, later, latest);
            let ready = seq![events[from]] + more;
            assert(sweep(events, from, readings) == (kept, ready));
            assert forall|i: int| 0 <= i < ready.len() implies is_due(
                #[trigger] ready[i],
                latest,
            ) by {
                if i > 0 {
                    assert(ready[i] == more[i - 1]);
                }
            }
        } else {
            lemma_sweep_takes_due(events, from + 1, later, latest);
            assert(sweep(events, from, readings) == sweep(events, from + 1, later));
        }
    }
}

/// What stays was not due at the earliest reading.
proof fn lemma_sweep_keeps_the_rest<C>(
    events: Seq<TimedEvent<C>>,
    from: int,
    readings: Seq<Instant>,
    earliest: Instant,
)
    requires
        0 <= from <= events.len(),
        readings.len() >= events.len() - from,
        forall|i: int| 0 <= i < readings.len() ==> earliest@ <= (#[trigger] readings[i])@,
        forall|i: int| 0 <= i < from ==> !is_due(#[trigger] events[i], earliest),
    ensures
        forall|i: int|
            0 <= i < sweep(events, from, readings).0.len() ==> !is_due(
                #[trigger] sweep(events, from, readings).0[i],
                earliest,
            ),
    decreases events.len() - from,
{
    if from < events.len() {
        let later = readings.drop_first();
        assert forall|i: int| 0 <= i < later.len() implies earliest@ <= (
        #[trigger] later[i])@ by {
            assert(later[i] == readings[i + 1]);
        }
        assert(earliest@ <= readings[0]@);
        if is_due(events[from], readings[0]) {
            let left = swap_removed(events, from);
            lemma_sweep_keeps_the_rest(left, from, later, earliest);
            assert(sweep(events, from, readings).0 == sweep(left, from, later).0);
        } else {
            lemma_sweep_keeps_the_rest(events, from + 1, later, earliest);
            assert(sweep(events, from, readings) == sweep(events, from + 1, later));
        }
    } else {
        assert(sweep(events, from, readings).0 == events);
    }
}

/// No event is taken out before its delay has passed, and none that was due before the first
/// reading is left behind. With one reading for all, what is taken out is what is due.
pub proof fn law_sweep_is_by_time<C>(
    events: Seq<TimedEvent<C>>,
    readings: Seq<Instant>,
    earliest: Instant,
    latest: Instant,
)
    requires
        readings.len() >= events.len(),
        between(readings, earliest, latest),
    ensures
        ({
            let (kept, ready) = sweep(events, 0, readings);
            &&& forall|i: int|
                0 <= i < ready.len() ==> latest@ > (#[trigger] ready[i]).register_instant@
                    + ready[i].delta_time@
            &&& forall|i: int| 0 <= i < kept.len() ==> !is_due(#[trigger] kept[i], earliest)
            &&& forall|event: TimedEvent<C>|
                events.contains(event) && is_due(event, earliest) ==> #[trigger] ready.contains(
                    event,
                )
            &&& forall|event: TimedEvent<C>|
                events.contains(event) && !is_due(event, latest) ==> #[trigger] kept.contains(event)
        }),
{
    broadcast use vstd::multiset::group_multiset_axioms;

    let (kept, ready) = sweep(events, 0, readings);
    lemma_sweep_takes_due(events, 0, readings, latest);
    lemma_sweep_keeps_the_rest(events, 0, readings, earliest);
    assert forall|i: int| 0 <= i < ready.len() implies latest@ > (
    #[trigger] ready[i]).register_instant@ + ready[i].delta_time@ by {
        assert(is_due(ready[i], latest));
    }
    law_sweep_partitions(events, 0, readings);
    assert forall|event: TimedEvent<C>| events.contains(event) implies (#[trigger] kept.contains(
        event,
    ) || ready.contains(event)) by {
        to_multiset_contains(events, event);
        to_multiset_contains(kept, event);
        to_multiset_contains(ready, event);
    }
    assert forall|event: TimedEvent<C>|
        events.contains(event) && is_due(event, earliest) implies #[trigger] ready.contains(
        event,
    ) by {
        assert(kept.contains(event) || ready.contains(event));
    }
}

/// The loop waits no longer than any event had left of its delay at the earliest reading, and no
/// shorter than some event had at the latest. Where nothing is scheduled it waits without end.
pub proof fn law_timeout_is_the_first_wait<C>(
    events: Seq<TimedEvent<C>>,
    readings: Seq<Instant>,
    timeout: Option<Duration>,
    earliest: Instant,
    latest: Instant,
)
    requires
        readings.len() == events.len() + 1,
        is_timeout(events, readings, timeout),
        between(readings, earliest, latest),
    ensures
        timeout is None <==> events.len() == 0,
        timeout matches Some(wait) ==> {
            &&& forall|i: int|
                0 <= i < events.len() ==> wait@ <= remaining(#[trigger] events[i], earliest)
            &&& exists|i: int|
                0 <= i < events.len() && wait@ >= remaining(#[trigger] events[i], latest)
        },
{
    if let Some(wait) = timeout {
        let all = waits(events, readings);
        assert forall|i: int| 0 <= i < events.len() implies wait@ <= remaining(
            #[trigger] events[i],
            earliest,
        ) by {
            assert(all[i + 1] == remaining(events[i], readings[i + 1]));
            assert(earliest@ <= readings[i + 1]@);
        }
        let k = choose|k: int| 0 <= k < all.len() && all[k] == wait@;
        if k == 0 {
            assert(readings[0]@ <= latest@);
            assert(wait@ >= remaining(events[0], latest));
        } else {
            assert(all[k] == remaining(events[k - 1], readings[k]));
            assert(readings[k]@ <= latest@);
            assert(wait@ >= remaining(events[k - 1], latest));
        }
    }
}

/// Once more than the timeout has passed since the last reading, an event is due.
pub proof fn law_timeout_leads_to_a_due_event<C>(
    events: Seq<TimedEvent<C>>,
    readings: Seq<Instant>,
    wait: Duration,
    earliest: Instant,
    latest: Instant,
    then: Instant,
)
    requires
        readings.len() == events.len() + 1,
        is_timeout(events, readings, Some(wait)),
        between(readings, earliest, latest),
        forall|i: int|
            0 <= i < events.len() ==> (#[trigger] events[i]).register_instant@ <= earliest@,
        then@ > latest@ + wait@,
    ensures
        exists|i: int| 0 <= i < events.len() && is_due(#[trigger] events[i], then),
{
    law_timeout_is_the_first_wait(events, readings, Some(wait), earliest, latest);
    let i = choose|i: int|
        0 <= i < events.len() && wait@ >= remaining(#[trigger] events[i], latest);
    assert(earliest@ <= readings[0]@ <= latest@);
    assert(events[i].register_instant@ <= earliest@);
    assert(is_due(events[i], then));
}

/// The timeout is exactly how long the loop can wait without being late: as long as it has not
/// passed nothing is due, and as soon as it has something is.
pub proof fn law_timeout_is_exact<C>(
    events: Seq<TimedEvent<C>>,
    now: Instant,
    wait: Duration,
    then: Instant,
)
    requires
        forall|i: int|
            0 <= i < events.len() ==> (#[trigger] events[i]).register_instant@ <= now@ && !is_due(
                events[i],
                now,
            ),
        is_timeout(events, Seq::new(events.len() + 1, |i: int| now), Some(wait)),
        now@ <= then@,
    ensures
        sweep(events, 0, Seq::new(events.len(), |i: int| then)).1.len() == 0 <==> then@ <= now@
            + wait@,
{
    let readings = Seq::new(events.len() + 1, |i: int| now);
    let all_then = Seq::new(events.len(), |i: int| then);
    let ready = sweep(events, 0, all_then).1;
    assert(between(readings, now, now));
    assert(between(all_then, then, then));
    law_timeout_is_the_first_wait(events, readings, Some(wait), now, now);
    law_sweep_is_by_time(events, all_then, then, then);
    law_sweep_partitions(events, 0, all_then);
    if then@ > now@ + wait@ {
        law_timeout_leads_to_a_due_event(events, readings, wait, now, now, then);
        let i = choose|i: int| 0 <= i < events.len() && is_due(#[trigger] events[i], then);
        assert(events.contains(events[i]));
        assert(ready.contains(events[i]));
    } else if ready.len() > 0 {
        broadcast use vstd::multiset::group_multiset_axioms;

        let event = ready[0];
        assert(ready.contains(event));
        to_multiset_contains(ready, event);
        to_multiset_contains(events, event);
        let i = choose|i: int| 0 <= i < events.len() && events[i] == event;
        assert(!is_due(events[i], now));
        assert(wait@ <= remaining(events[i], now));
    }
}

/// How many of `events` have the callback `func`.
pub open spec fn callback_count<C: PartialEq>(events: Seq<TimedEvent<C>>, func: C) -> nat
    decreases events.len(),
{
    if events.len() == 0 {
        0
    } else {
        callback_count(events.drop_last(), func) + if events.last().callback.eq_spec(&func) {
            1nat
        } else {
            0
        }
    }
}

/// The count of two sequences together is the sum of their counts.
pub proof fn lemma_callback_count_add<C: PartialEq>(
    a: Seq<TimedEvent<C>>,
    b: Seq<TimedEvent<C>>,
    func: C,
)
    ensures
        callback_count(a + b, func) == callback_count(a, func) + callback_count(b, func),
    decreases b.len(),
{
    if b.len() == 0 {
        assert(a + b == a);
    } else {
        assert((a + b).drop_last() == a + b.drop_last());
        lemma_callback_count_add(a, b.drop_last(), func);
    }
}

/// Nothing has the callback `func` exactly where the count is zero.
pub proof fn law_count_is_zero_where_absent<C: PartialEq>(events: Seq<TimedEvent<C>>, func: C)
    ensures
        callback_count(events, func) == 0 <==> forall|i: int|
            0 <= i < events.len() ==> !(#[trigger] events[i]).callback.eq_spec(&func),
    decreases events.len(),
{
    if events.len() > 0 {
        let init = events.drop_last();
        law_count_is_zero_where_absent(init, func);
        if forall|i: int|
            0 <= i < events.len() ==> !(#[trigger] events[i]).callback.eq_spec(&func) {
            assert forall|i: int| 0 <= i < init.len() implies !(
            #[trigger] init[i]).callback.eq_spec(&func) by {
                assert(init[i] == events[i]);
            }
            assert(!events[events.len() - 1].callback.eq_spec(&func));
        }
        if callback_count(events, func) == 0 {
            assert forall|i: int| 0 <= i < events.len() implies !(
            #[trigger] events[i]).callback.eq_spec(&func) by {
                if i < init.len() {
                    assert(init[i] == events[i]);
                }
            }
        }
    }
}

/// Taking out an event with the callback `func`, in the way of a swap removal, lowers the count by
/// one.
proof fn lemma_swap_removed_count<C: PartialEq>(events: Seq<TimedEvent<C>>, func: C, i: int)
    requires
        0 <= i < events.len(),
        events[i].callback.eq_spec(&func),
    ensures
        callback_count(swap_removed(events, i), func) + 1 == callback_count(events, func),
{
    let n = events.len() as int;
    let before = events.take(i);
    let one = seq![events[i]];
    let last = seq![events.last()];
    reveal_with_fuel(callback_count, 2);
    assert(one.drop_last() == Seq::<TimedEvent<C>>::empty());
    assert(callback_count(one, func) == 1);
    if i == n - 1 {
        assert(swap_removed(events, i) == before);
        assert(events == before + one);
        lemma_callback_count_add(before, one, func);
    } else {
        let middle = events.subrange(i + 1, n - 1);
        assert(swap_removed(events, i) == before + last + middle);
        assert(events == before + one + middle + last);
        lemma_callback_count_add(before, last, func);
        lemma_callback_count_add(before + last, middle, func);
        lemma_callback_count_add(before, one, func);
        lemma_callback_count_add(before + one, middle, func);
        lemma_callback_count_add(before + one + middle, last, func);
    }
}

/// Taking out an event with the callback `func` lowers the count by one.
proof fn lemma_removed_count<C: PartialEq>(events: Seq<TimedEvent<C>>, func: C, i: int)
    requires
        0 <= i < events.len(),
        events[i].callback.eq_spec(&func),
    ensures
        callback_count(events.remove(i), func) + 1 == callback_count(events, func),
{
    let before = events.take(i);
    let one = seq![events[i]];
    let after = events.skip(i + 1);
    reveal_with_fuel(callback_count, 2);
    assert(one.drop_last() == Seq::<TimedEvent<C>>::empty());
    assert(callback_count(one, func) == 1);
    assert(events.remove(i) == before + after);
    assert(events == before + one + after);
    lemma_callback_count_add(before, after, func);
    lemma_callback_count_add(before, one, func);
    lemma_callback_count_add(before + one, after, func);
}

/// A callback is found exactly where the count is not zero.
proof fn lemma_counted_is_found<C: PartialEq>(events: Seq<TimedEvent<C>>, func: C)
    ensures
        callback_index(events, func) is None <==> callback_count(events, func) == 0,
        callback_index(events, func) matches Some(i) ==> is_callback_index(events, func, i),
{
    law_count_is_zero_where_absent(events, func);
    if callback_index(events, func) is None && callback_count(events, func) != 0 {
        let i = choose|i: int|
            0 <= i < events.len() && (#[trigger] events[i]).callback.eq_spec(&func);
        lemma_callback_is_found(events, func, i);
    }
}

/// A callback that an event has is found.
proof fn lemma_callback_is_found<C: PartialEq>(events: Seq<TimedEvent<C>>, func: C, i: int)
    requires
        0 <= i < events.len(),
        events[i].callback.eq_spec(&func),
    ensures
        callback_index(events, func) is Some,
    decreases i,
{
    if exists|j: int| 0 <= j < i && (#[trigger] events[j]).callback.eq_spec(&func) {
        let j = choose|j: int| 0 <= j < i && (#[trigger] events[j]).callback.eq_spec(&func);
        lemma_callback_is_found(events, func, j);
    } else {
        assert(is_callback_index(events, func, i));
    }
}

/// How many events with the callback `func` are still to run, waiting or due.
pub open spec fn scheduled_count<C: PartialEq, F>(registry: Registry<C, F>, func: C) -> nat {
    callback_count(registry.timed_events, func) + callback_count(registry.due, func)
}

/// Whether `after` holds the same events of callbacks other than `func` as `before`, those that
/// wait and those that are due.
pub open spec fn same_others<C: PartialEq, F>(
    before: Registry<C, F>,
    after: Registry<C, F>,
    func: C,
) -> bool {
    forall|event: TimedEvent<C>|
        !event.callback.eq_spec(&func) ==> {
            &&& #[trigger] after.timed_events.to_multiset().count(event)
                == before.timed_events.to_multiset().count(event)
            &&& after.due.to_multiset().count(event) == before.due.to_multiset().count(event)
        }
}

/// Un-scheduling succeeds exactly where the callback is still to run. It takes out one of its
/// events, and none of another callback.
pub proof fn law_dequeue_takes_one<C: PartialEq, F>(registry: Registry<C, F>, func: C)
    ensures
        ({
            let (status, after) = dequeued(registry, func);
            &&& scheduled_count(registry, func) == 0 ==> status == -1 && after == registry
            &&& scheduled_count(registry, func) > 0 ==> status == 0 && scheduled_count(after, func)
                + 1 == scheduled_count(registry, func)
            &&& same_others(registry, after, func)
            &&& after == Registry {
                timed_events: after.timed_events,
                due: after.due,
                ..registry
            }
        }),
{
    broadcast use vstd::multiset::group_multiset_axioms;

    let (status, after) = dequeued(registry, func);
    lemma_counted_is_found(registry.timed_events, func);
    lemma_counted_is_found(registry.due, func);
    if let Some(i) = callback_index(registry.timed_events, func) {
        lemma_swap_removed_count(registry.timed_events, func, i);
        law_swap_removed_takes_one(registry.timed_events, i);
    } else if let Some(i) = callback_index(registry.due, func) {
        lemma_removed_count(registry.due, func, i);
        to_multiset_remove(registry.due, i);
    }
}

/// What un-scheduling `func` over and over, `times` times, comes to, and what it leaves.
pub open spec fn dequeued_times<C: PartialEq, F>(
    registry: Registry<C, F>,
    func: C,
    times: nat,
) -> (Seq<i32>, Registry<C, F>)
    decreases times,
{
    if times == 0 {
        (seq![], registry)
    } else {
        let (status, after) = dequeued(registry, func);
        let (more, last) = dequeued_times(after, func, (times - 1) as nat);
        (seq![status] + more, last)
    }
}

/// Un-scheduling a callback over and over succeeds once for each of its events that is still to
/// run and then no more. It leaves none of them, and every event of another callback.
pub proof fn law_repeated_dequeue_takes_all<C: PartialEq, F>(registry: Registry<C, F>, func: C)
    ensures
        ({
            let count = scheduled_count(registry, func);
            let (statuses, after) = dequeued_times(registry, func, count + 1);
            &&& statuses == Seq::new(
                count + 1,
                |i: int|
                    if i < count {
                        0i32
                    } else {
                        -1i32
                    },
            )
            &&& scheduled_count(after, func) == 0
            &&& same_others(registry, after, func)
        }),
    decreases scheduled_count(registry, func),
{
    let count = scheduled_count(registry, func);
    let (status, after) = dequeued(registry, func);
    law_dequeue_takes_one(registry, func);
    let (more, last) = dequeued_times(after, func, count);
    let statuses = dequeued_times(registry, func, count + 1).0;
    assert(statuses == seq![status] + more);
    if count > 0 {
        law_repeated_dequeue_takes_all(after, func);
        assert(scheduled_count(after, func) + 1 == count);
        assert forall|event: TimedEvent<C>| !event.callback.eq_spec(&func) implies {
            &&& #[trigger] last.timed_events.to_multiset().count(event)
                == registry.timed_events.to_multiset().count(event)
            &&& last.due.to_multiset().count(event) == registry.due.to_multiset().count(event)
        } by {
            assert(after.timed_events.to_multiset().count(event)
                == registry.timed_events.to_multiset().count(event));
        }
    } else {
        assert(more == Seq::<i32>::empty());
    }
    assert(statuses == Seq::new(
        count + 1,
        |i: int|
            if i < count {
                0i32
            } else {
                -1i32
            },
    ));
}

/// Scheduling a callback that does not wait, whether or not it is due, and un-scheduling it again
/// changes nothing.
pub proof fn law_dequeue_undoes_queue<C: PartialEq, F>(
    registry: Registry<C, F>,
    func: C,
    delta_time: Duration,
    now: Instant,
)
    requires
        callback_count(registry.timed_events, func) == 0,
        func.eq_spec(&func),
    ensures
        dequeued(queued(registry, func, delta_time, now), func) == (0i32, registry),
{
    let events = registry.timed_events;
    let more = queued(registry, func, delta_time, now).timed_events;
    let n = events.len() as int;
    law_count_is_zero_where_absent(events, func);
    assert forall|j: int| 0 <= j < n implies !(#[trigger] more[j]).callback.eq_spec(&func) by {
        assert(more[j] == events[j]);
    }
    lemma_callback_index(more, func, n);
    assert(swap_removed(more, n) == events);
}

/// A swap removal moves no item but the last, which takes the place of the one that leaves.
pub proof fn law_swap_removed_moves_the_last<T>(s: Seq<T>, i: int)
    requires
        0 <= i < s.len(),
    ensures
        swap_removed(s, i).len() == s.len() - 1,
        i < s.len() - 1 ==> swap_removed(s, i)[i] == s[s.len() - 1],
        forall|j: int|
            0 <= j < s.len() - 1 && j != i ==> #[trigger] swap_removed(s, i)[j] == s[j],
{
}

/// The time from the registration of an event is what the clock has moved on since, and what is
/// left of its delay is what the two together lack of it.
pub proof fn law_elapsed_and_remaining_make_up_the_delay<C>(event: TimedEvent<C>, now: Instant)
    ensures
        event.register_instant@ <= now@ ==> event.register_instant@ + elapsed(event, now) == now@,
        now@ <= event.register_instant@ ==> elapsed(event, now) == 0,
        elapsed(event, now) <= event.delta_time@ ==> elapsed(event, now) + remaining(event, now)
            == event.delta_time@,
        event.delta_time@ <= elapsed(event, now) ==> remaining(event, now) == 0,
{
}

/// Scheduling adds one event, behind the others, with the callback, the delay and the registration
/// that were asked for. Nothing else changes.
pub proof fn law_queue_adds_one<C, F>(
    registry: Registry<C, F>,
    func: C,
    delta_time: Duration,
    now: Instant,
)
    ensures
        ({
            let after = queued(registry, func, delta_time, now);
            let new = after.timed_events[registry.timed_events.len() as int];
            &&& after.timed_events.len() == registry.timed_events.len() + 1
            &&& new.callback == func && new.delta_time == delta_time && new.register_instant == now
            &&& forall|i: int|
                0 <= i < registry.timed_events.len() ==> #[trigger] after.timed_events[i]
                    == registry.timed_events[i]
            &&& after.due == registry.due
            &&& after.fd_events == registry.fd_events
            &&& after.serving == registry.serving
            &&& after.exit_events == registry.exit_events
            &&& after.next_token == registry.next_token
            &&& after.clock == registry.clock
        }),
{
}

/// Where a callback is scheduled to be called after a number of nanoseconds, one event is added,
/// behind the others, with that callback and that delay, registered at a reading of the clock.
/// Nothing else changes.
pub proof fn law_scheduling_adds_one<C, F>(
    before: Registry<C, F>,
    func: C,
    nanos: nat,
    after: Registry<C, F>,
)
    requires
        is_queued(before, func, nanos, after),
    ensures
        ({
            let new = after.timed_events[before.timed_events.len() as int];
            &&& after.timed_events.len() == before.timed_events.len() + 1
            &&& new.callback == func && new.delta_time@ == nanos && before.clock.reads(
                new.register_instant,
            )
            &&& forall|i: int|
                0 <= i < before.timed_events.len() ==> #[trigger] after.timed_events[i]
                    == before.timed_events[i]
            &&& after.due == before.due
            &&& after.fd_events == before.fd_events
            &&& after.serving == before.serving
            &&& after.exit_events == before.exit_events
            &&& after.next_token == before.next_token
            &&& after.clock == before.clock
        }),
{
}

/// What is due before the first reading is taken out, each event as often as it was scheduled, and
/// what is not yet due at the last is kept. An event is due once more than its delay has passed
/// since its registration.
pub proof fn law_sweep_takes_what_is_due<C>(
    events: Seq<TimedEvent<C>>,
    readings: Seq<Instant>,
    earliest: Instant,
    latest: Instant,
    event: TimedEvent<C>,
)
    requires
        readings.len() >= events.len(),
        between(readings, earliest, latest),
    ensures
        ({
            let (kept, ready) = sweep(events, 0, readings);
            let (kept, ready) = (kept.to_multiset(), ready.to_multiset());
            let deadline = event.register_instant@ + event.delta_time@;
            &&& kept.count(event) + ready.count(event) == events.to_multiset().count(event)
            &&& earliest@ > deadline ==> kept.count(event) == 0
            &&& latest@ <= deadline ==> ready.count(event) == 0
        }),
{
    broadcast use vstd::multiset::group_multiset_axioms;

    let (kept, ready) = sweep(events, 0, readings);
    law_sweep_partitions(events, 0, readings);
    law_sweep_is_by_time(events, readings, earliest, latest);
    to_multiset_contains(kept, event);
    to_multiset_contains(ready, event);
    if kept.contains(event) {
        let i = choose|i: int| 0 <= i < kept.len() && kept[i] == event;
        assert(!is_due(kept[i], earliest));
    }
    if ready.contains(event) {
        let i = choose|i: int| 0 <= i < ready.len() && ready[i] == event;
        assert(latest@ > ready[i].register_instant@ + ready[i].delta_time@);
    }
}

/// Where no event is due at the reading at which it is looked at, none is taken out and all stay
/// in their places.
pub proof fn law_sweep_of_nothing_due_changes_nothing<C>(
    events: Seq<TimedEvent<C>>,
    from: int,
    readings: Seq<Instant>,
)
    requires
        0 <= from <= events.len(),
        readings.len() >= events.len() - from,
        forall|j: int|
            from <= j < events.len() ==> readings[j - from]@ <= (
            #[trigger] events[j]).register_instant@ + events[j].delta_time@,
    ensures
        sweep(events, from, readings) == (events, Seq::<TimedEvent<C>>::empty()),
    decreases events.len() - from,
{
    if from < events.len() {
        let later = readings.drop_first();
        assert(readings[from - from]@ <= events[from].register_instant@ + events[from].delta_time@);
        assert forall|j: int| from + 1 <= j < events.len() implies later[j - (from + 1)]@ <= (
        #[trigger] events[j]).register_instant@ + events[j].delta_time@ by {
            assert(later[j - (from + 1)] == readings[j - from]);
        }
        law_sweep_of_nothing_due_changes_nothing(events, from + 1, later);
        assert(sweep(events, from, readings) == sweep(events, from + 1, later));
    }
}

/// The first event that is due when it is looked at is the first that is taken out. The last event
/// takes its place, and the look goes on there, at the next reading.
pub proof fn law_sweep_takes_the_first_due_first<C>(
    events: Seq<TimedEvent<C>>,
    from: int,
    readings: Seq<Instant>,
    i: int,
    left: Seq<TimedEvent<C>>,
)
    requires
        0 <= from <= i < events.len(),
        readings.len() >= events.len() - from,
        forall|j: int|
            from <= j < i ==> readings[j - from]@ <= (#[trigger] events[j]).register_instant@
                + events[j].delta_time@,
        readings[i - from]@ > events[i].register_instant@ + events[i].delta_time@,
        left.len() == events.len() - 1,
        i < left.len() ==> left[i] == events[events.len() - 1],
        forall|j: int| 0 <= j < left.len() && j != i ==> #[trigger] left[j] == events[j],
    ensures
        ({
            let (kept, ready) = sweep(events, from, readings);
            let (kept_after, ready_after) = sweep(left, i, readings.skip(i - from + 1));
            &&& ready.len() == ready_after.len() + 1
            &&& ready[0] == events[i]
            &&& ready.skip(1) == ready_after
            &&& kept == kept_after
        }),
    decreases i - from,
{
    let later = readings.drop_first();
    if from == i {
        assert(swap_removed(events, i) == left);
        assert(readings.skip(1) == later);
        let ready_after = sweep(left, i, later).1;
        assert(sweep(events, from, readings).1 == seq![events[i]] + ready_after);
        assert((seq![events[i]] + ready_after).skip(1) == ready_after);
    } else {
        assert(readings[from - from]@ <= events[from].register_instant@ + events[from].delta_time@);
        assert forall|j: int| from + 1 <= j < i implies later[j - (from + 1)]@ <= (
        #[trigger] events[j]).register_instant@ + events[j].delta_time@ by {
            assert(later[j - (from + 1)] == readings[j - from]);
        }
        assert(later[i - (from + 1)] == readings[i - from]);
        law_sweep_takes_the_first_due_first(events, from + 1, later, i, left);
        assert(later.skip(i - (from + 1) + 1) == readings.skip(i - from + 1));
        assert(sweep(events, from, readings) == sweep(events, from + 1, later));
    }
}

/// A callback that is scheduled is taken out to be called once more than its delay has passed since
/// then, and not before.
pub proof fn law_scheduled_is_taken_out_after_its_delay<C, F>(
    registry: Registry<C, F>,
    func: C,
    delta_time: Duration,
    now: Instant,
    then: Instant,
)
    ensures
        ({
            let events = queued(registry, func, delta_time, now).timed_events;
            let (kept, ready) = sweep(events, 0, Seq::new(events.len(), |i: int| then));
            let new = TimedEvent { callback: func, register_instant: now, delta_time };
            &&& then@ > now@ + delta_time@ ==> ready.contains(new) && !kept.contains(new)
            &&& then@ <= now@ + delta_time@ ==> kept.contains(new) && !ready.contains(new)
        }),
{
    broadcast use vstd::multiset::group_multiset_axioms;

    let events = queued(registry, func, delta_time, now).timed_events;
    let readings = Seq::new(events.len(), |i: int| then);
    let (kept, ready) = sweep(events, 0, readings);
    let new = TimedEvent { callback: func, register_instant: now, delta_time };
    assert(between(readings, then, then));
    law_sweep_takes_what_is_due(events, readings, then, then, new);
    assert(events[registry.timed_events.len() as int] == new);
    to_multiset_contains(events, new);
    to_multiset_contains(kept, new);
    to_multiset_contains(ready, new);
}

/// The timeout is how long the event that is due first has still to wait: none has a shorter wait,
/// counted from its registration to its reading, and one has just this.
pub proof fn law_timeout_counts_from_the_registration<C>(
    events: Seq<TimedEvent<C>>,
    readings: Seq<Instant>,
    timeout: Option<Duration>,
)
    requires
        readings.len() == events.len() + 1,
        is_timeout(events, readings, timeout),
        forall|i: int, k: int|
            0 <= i < events.len() && 0 <= k < readings.len() ==> (
            #[trigger] events[i]).register_instant@ <= (#[trigger] readings[k])@,
    ensures
        timeout is None <==> events.len() == 0,
        timeout matches Some(wait) ==> {
            &&& forall|i: int|
                0 <= i < events.len() ==> wait@ == 0 || readings[i + 1]@ + wait@ <= (
                #[trigger] events[i]).register_instant@ + events[i].delta_time@
            &&& wait@ == 0 || readings[0]@ + wait@ <= events[0].register_instant@
                + events[0].delta_time@
            &&& exists|i: int, k: int|
                {
                    &&& 0 <= i < events.len()
                    &&& k == i + 1 || i == 0 && k == 0
                    &&& (#[trigger] readings[k])@ + wait@ >= (
                    #[trigger] events[i]).register_instant@ + events[i].delta_time@
                }
        },
{
    if let Some(wait) = timeout {
        let all = waits(events, readings);
        assert forall|i: int| 0 <= i < events.len() implies wait@ == 0 || readings[i + 1]@ + wait@
            <= (#[trigger] events[i]).register_instant@ + events[i].delta_time@ by {
            assert(all[i + 1] == remaining(events[i], readings[i + 1]));
            assert(events[i].register_instant@ <= readings[i + 1]@);
        }
        assert(all[0] == remaining(events[0], readings[0]));
        assert(events[0].register_instant@ <= readings[0]@);
        let k = choose|k: int| 0 <= k < all.len() && all[k] == wait@;
        let i = if k == 0 {
            0
        } else {
            k - 1
        };
        assert(all[k] == remaining(events[i], readings[k]));
        assert(events[i].register_instant@ <= readings[k]@);
        assert(readings[k]@ + wait@ >= events[i].register_instant@ + events[i].delta_time@);
    }
}

/// While every event has been scheduled at some time past and none is due, the loop waits just
/// until the first of them is: for as long as the delay of each lasts, and no longer than that of
/// one of them.
pub proof fn law_wait_ends_with_the_first_delay<C>(
    events: Seq<TimedEvent<C>>,
    now: Instant,
    wait: Duration,
)
    requires
        forall|i: int|
            0 <= i < events.len() ==> (#[trigger] events[i]).register_instant@ <= now@
                <= events[i].register_instant@ + events[i].delta_time@,
        is_timeout(events, Seq::new(events.len() + 1, |i: int| now), Some(wait)),
    ensures
        forall|i: int|
            0 <= i < events.len() ==> now@ + wait@ <= (#[trigger] events[i]).register_instant@
                + events[i].delta_time@,
        exists|i: int|
            0 <= i < events.len() && now@ + wait@ == (#[trigger] events[i]).register_instant@
                + events[i].delta_time@,
{
    let readings = Seq::new(events.len() + 1, |i: int| now);
    law_timeout_counts_from_the_registration(events, readings, Some(wait));
    assert forall|i: int| 0 <= i < events.len() implies now@ + wait@ <= (
    #[trigger] events[i]).register_instant@ + events[i].delta_time@ by {
        assert(readings[i + 1] == now);
    }
    let (i, k) = choose|i: int, k: int|
        {
            &&& 0 <= i < events.len()
            &&& k == i + 1 || i == 0 && k == 0
            &&& (#[trigger] readings[k])@ + wait@ >= (#[trigger] events[i]).register_instant@
                + events[i].delta_time@
        };
    assert(readings[k] == now);
    assert(now@ + wait@ == events[i].register_instant@ + events[i].delta_time@);
}

/// Un-scheduling a callback that waits takes out the first of its events. None but the last event
/// changes its place, and nothing else changes.
pub proof fn law_dequeue_takes_the_first<C: PartialEq, F>(
    registry: Registry<C, F>,
    func: C,
    i: int,
)
    requires
        0 <= i < registry.timed_events.len(),
        registry.timed_events[i].callback.eq_spec(&func),
        forall|j: int|
            0 <= j < i ==> !(#[trigger] registry.timed_events[j]).callback.eq_spec(&func),
    ensures
        ({
            let (status, after) = dequeued(registry, func);
            let last = registry.timed_events.len() - 1;
            &&& status == 0
            &&& after.timed_events.to_multiset().insert(registry.timed_events[i])
                == registry.timed_events.to_multiset()
            &&& after.timed_events.len() == last
            &&& i < last ==> after.timed_events[i] == registry.timed_events[last]
            &&& forall|j: int|
                0 <= j < last && j != i ==> #[trigger] after.timed_events[j]
                    == registry.timed_events[j]
            &&& after.due == registry.due
            &&& after.fd_events == registry.fd_events
            &&& after.serving == registry.serving
            &&& after.exit_events == registry.exit_events
            &&& after.next_token == registry.next_token
            &&& after.clock == registry.clock
        }),
{
    lemma_callback_index(registry.timed_events, func, i);
    law_swap_removed_takes_one(registry.timed_events, i);
}

/// Un-scheduling a callback that does not wait but is due takes out the first of its events that
/// is. Those that are left keep their order, and nothing else changes.
pub proof fn law_dequeue_takes_the_first_due<C: PartialEq, F>(
    registry: Registry<C, F>,
    func: C,
    i: int,
)
    requires
        forall|j: int|
            0 <= j < registry.timed_events.len() ==> !(
            #[trigger] registry.timed_events[j]).callback.eq_spec(&func),
        0 <= i < registry.due.len(),
        registry.due[i].callback.eq_spec(&func),
        forall|j: int| 0 <= j < i ==> !(#[trigger] registry.due[j]).callback.eq_spec(&func),
    ensures
        ({
            let (status, after) = dequeued(registry, func);
            &&& status == 0
            &&& after.due.len() == registry.due.len() - 1
            &&& forall|j: int| 0 <= j < i ==> #[trigger] after.due[j] == registry.due[j]
            &&& forall|j: int|
                i <= j < after.due.len() ==> #[trigger] after.due[j] == registry.due[j + 1]
            &&& after.timed_events == registry.timed_events
            &&& after.fd_events == registry.fd_events
            &&& after.serving == registry.serving
            &&& after.exit_events == registry.exit_events
            &&& after.next_token == registry.next_token
            &&& after.clock == registry.clock
        }),
{
    lemma_callback_index(registry.due, func, i);
}

/// Un-scheduling a callback that neither waits nor is due fails and changes nothing.
pub proof fn law_dequeue_of_nothing_fails<C: PartialEq, F>(registry: Registry<C, F>, func: C)
    requires
        forall|j: int|
            0 <= j < registry.timed_events.len() ==> !(
            #[trigger] registry.timed_events[j]).callback.eq_spec(&func),
        forall|j: int|
            0 <= j < registry.due.len() ==> !(#[trigger] registry.due[j]).callback.eq_spec(&func),
    ensures
        dequeued(registry, func).0 == -1,
        dequeued(registry, func).1 == registry,
{
}

/// Un-scheduling takes out one event and fails only where it takes out none, whatever callbacks
/// are taken for equal. No descriptor is touched.
pub proof fn law_dequeue_takes_no_more_than_one<C, F>(
    before: Registry<C, F>,
    status: i32,
    after: Registry<C, F>,
)
    requires
        is_dequeue(before, status, after),
    ensures
        status == 0 || status == -1,
        status == -1 ==> after == before,
        status == 0 ==> {
            ||| after.due == before.due && exists|event: TimedEvent<C>| #[trigger]
                after.timed_events.to_multiset().insert(event) == before.timed_events.to_multiset()
            ||| after.timed_events == before.timed_events && exists|event: TimedEvent<C>| #[trigger]
                after.due.to_multiset().insert(event) == before.due.to_multiset()
        },
        after.fd_events == before.fd_events,
        after.serving == before.serving,
        after.exit_events == before.exit_events,
        after.next_token == before.next_token,
        after.clock == before.clock,
{
    broadcast use vstd::multiset::group_multiset_axioms;

    if status == 0 {
        if exists|i: int|
            0 <= i < before.timed_events.len() && after == (Registry {
                timed_events: #[trigger] swap_removed(before.timed_events, i),
                ..before
            }) {
            let i = choose|i: int|
                0 <= i < before.timed_events.len() && after == (Registry {
                    timed_events: #[trigger] swap_removed(before.timed_events, i),
                    ..before
                });
            law_swap_removed_takes_one(before.timed_events, i);
            assert(after.timed_events.to_multiset().insert(before.timed_events[i])
                == before.timed_events.to_multiset());
        } else {
            let i = choose|i: int|
                0 <= i < before.due.len() && after == (Registry {
                    due: #[trigger] before.due.remove(i),
                    ..before
                });
            let event = before.due[i];
            to_multiset_remove(before.due, i);
            to_multiset_contains(before.due, event);
            assert(before.due.contains(event));
            assert(after.due.to_multiset().insert(event) =~= before.due.to_multiset());
        }
    }
}

/// The events that the steps hand out when the due events run to the end.
pub open spec fn events_run<C, F>(registry: Registry<C, F>) -> Seq<TimedEvent<C>>
    decreases registry.due.len(),
{
    let (after, step) = next_timed(registry);
    match step {
        StepView::Act(ActionView::RunTimed { timed }) => if after.due.len()
            < registry.due.len() {
            seq![timed] + events_run(after)
        } else {
            seq![]
        },
        _ => seq![],
    }
}

/// The due events run once each, in the order in which they were taken out.
pub proof fn law_due_events_run_in_order<C, F>(registry: Registry<C, F>)
    ensures
        events_run(registry) == registry.due,
    decreases registry.due.len(),
{
    if registry.due.len() > 0 {
        let after = next_timed(registry).0;
        law_due_events_run_in_order(after);
        assert(registry.due == seq![registry.due[0]] + registry.due.drop_first());
    } else {
        assert(registry.due == Seq::<TimedEvent<C>>::empty());
    }
}

/// A descriptor is attached under a token that no other has or had, is found under it, and is
/// gone without a trace when it is detached, but for that token, which is not given out again.
/// Every other descriptor is found as before.
pub proof fn law_attach_is_fresh<C, F>(registry: Registry<C, F>, source: F, other: Token)
    requires
        registry.wf(),
        registry.next_token < usize::MAX,
        other != Token(registry.next_token),
    ensures
        ({
            let token = Token(registry.next_token);
            let after = attached_to(registry, source);
            &&& fd_index(registry.fd_events, token) is None
            &&& fd_index(after.fd_events, token) == Some(registry.fd_events.len() as int)
            &&& detached(after, token) == (
                (0i32, Some(FdEvent { token, source })),
                Registry { next_token: after.next_token, ..registry },
            )
            &&& fd_index(after.fd_events, other) == fd_index(registry.fd_events, other)
            &&& after.next_token == registry.next_token + 1
            &&& after.wf()
        }),
{
    let token = Token(registry.next_token);
    let after = attached_to(registry, source);
    let n = registry.fd_events.len() as int;
    if exists|i: int| is_fd_index(registry.fd_events, token, i) {
        let i = choose|i: int| is_fd_index(registry.fd_events, token, i);
        assert(registry.fd_events[i].token == token);
    }
    assert forall|j: int| 0 <= j < n implies (#[trigger] after.fd_events[j]).token != token by {
        assert(after.fd_events[j] == registry.fd_events[j]);
        assert(registry.fd_events[j].token.0 < registry.next_token);
    }
    lemma_fd_index(after.fd_events, token, n);
    assert(swap_removed(after.fd_events, n) == registry.fd_events);
    if exists|i: int| is_fd_index(registry.fd_events, other, i) {
        let i = choose|i: int| is_fd_index(registry.fd_events, other, i);
        assert forall|j: int| 0 <= j < i implies (#[trigger] after.fd_events[j]).token != other by {
            assert(after.fd_events[j] == registry.fd_events[j]);
        }
        assert(after.fd_events[i] == registry.fd_events[i]);
        lemma_fd_index(registry.fd_events, other, i);
        lemma_fd_index(after.fd_events, other, i);
    } else if exists|i: int| is_fd_index(after.fd_events, other, i) {
        let i = choose|i: int| is_fd_index(after.fd_events, other, i);
        assert(i < n);
        assert forall|j: int| 0 <= j < i implies (#[trigger] registry.fd_events[j]).token
            != other by {
            assert(after.fd_events[j] == registry.fd_events[j]);
        }
        assert(is_fd_index(registry.fd_events, other, i));
    }
}

/// One call attaches at most one descriptor, and it refuses only where just as many as the loop
/// takes are attached. A descriptor whose callback runs is not counted.
pub proof fn law_attach_adds_at_most_one<C, F, E>(
    registry: Registry<C, F>,
    source: F,
    priority: Priority,
    registered: Result<(), E>,
)
    ensures
        ({
            let (attached, after) = attach_outcome(registry, source, priority, registered);
            &&& after.fd_events.len() == registry.fd_events.len() + if attached is Ok {
                1nat
            } else {
                0
            }
            &&& attached is Ok <==> registered is Ok && registry.fd_events.len()
                != DEFAULT_EVENTS_CAPACITY
            &&& registry.fd_events.len() <= DEFAULT_EVENTS_CAPACITY ==> after.fd_events.len()
                <= DEFAULT_EVENTS_CAPACITY
        }),
{
}

/// The priority makes no difference to attaching.
pub proof fn law_priority_has_no_effect<C, F, E>(
    registry: Registry<C, F>,
    source: F,
    priority: Priority,
    other: Priority,
    registered: Result<(), E>,
)
    ensures
        attach_outcome(registry, source, priority, registered) == attach_outcome(
            registry,
            source,
            other,
            registered,
        ),
{
}

/// A descriptor is detached at most once, be its callback running or not, and it is then gone.
pub proof fn law_detach_is_once<C, F>(registry: Registry<C, F>, token: Token)
    requires
        registry.wf(),
    ensures
        ({
            let ((status, _), after) = detached(registry, token);
            &&& status == 0 <==> fd_index(registry.fd_events, token) is Some
                || registry.serving.contains(token)
            &&& status == 0 ==> after.is_gone(token)
            &&& status == 0 || status == -1
            &&& detached(after, token) == ((-1i32, None::<FdEvent<F>>), after)
        }),
{
    let ((status, _), after) = detached(registry, token);
    if let Some(i) = fd_index(registry.fd_events, token) {
        assert(is_fd_index(registry.fd_events, token, i));
    } else if registry.serving.contains(token) {
        assert forall|i: int| 0 <= i < registry.fd_events.len() implies (
        #[trigger] registry.fd_events[i]).token != token by {
            assert(!registry.serving.contains(registry.fd_events[i].token));
        }
    }
    if after.is_gone(token) {
        lemma_gone_is_not_found(after, token);
    }
}

/// A token that is gone is not found.
proof fn lemma_gone_is_not_found<C, F>(registry: Registry<C, F>, token: Token)
    requires
        registry.is_gone(token),
    ensures
        fd_index(registry.fd_events, token) is None,
{
    if exists|i: int| is_fd_index(registry.fd_events, token, i) {
        let i = choose|i: int| is_fd_index(registry.fd_events, token, i);
        assert(registry.fd_events[i].token != token);
    }
}

/// Serving ready descriptors leaves everything but the descriptor it hands out as it is: that one
/// is attached under the first of the tokens that is, the tokens after it are still to be served,
/// and once it is put back the same descriptors are attached as before.
pub proof fn law_serving_hands_out_the_first<C, F>(registry: Registry<C, F>, tokens: Seq<Token>)
    ensures
        ({
            let (after, step) = next_fd(registry, tokens);
            &&& after == Registry {
                fd_events: after.fd_events,
                serving: after.serving,
                ..registry
            }
            &&& match step {
                StepView::Act(ActionView::RunFd { event, pending }) => exists|k: int|
                    {
                        &&& 0 <= k < tokens.len()
                        &&& event.token == #[trigger] tokens[k]
                        &&& pending == tokens.skip(k + 1)
                        &&& forall|j: int|
                            0 <= j < k ==> fd_index(
                                registry.fd_events,
                                #[trigger] tokens[j],
                            ) is None
                        &&& after.serving == registry.serving.insert(event.token)
                        &&& put_back(after, event).0.fd_events.to_multiset()
                            == registry.fd_events.to_multiset()
                        &&& registry.wf() ==> {
                            &&& after.wf()
                            &&& fd_index(after.fd_events, event.token) is None
                            &&& put_back(after, event).0.serving == registry.serving
                        }
                    },
                StepView::Collect => after == registry && forall|j: int|
                    0 <= j < tokens.len() ==> fd_index(
                        registry.fd_events,
                        #[trigger] tokens[j],
                    ) is None,
                _ => after == registry && registry.exit_events && step == StepView::<C, F>::Act(
                    ActionView::Return,
                ),
            }
        }),
    decreases tokens.len(),
{
    if tokens.len() > 0 {
        match fd_index(registry.fd_events, tokens[0]) {
            Some(i) => {
                assert(is_fd_index(registry.fd_events, tokens[0], i));
                let left = swap_removed(registry.fd_events, i);
                law_swap_removed_takes_one(registry.fd_events, i);
                to_multiset_build(left, registry.fd_events[i]);
                let after = next_fd(registry, tokens).0;
                let event = registry.fd_events[i];
                assert(put_back(after, event).0.fd_events == left.push(event));
                if registry.wf() {
                    assert(!registry.serving.contains(event.token));
                    assert(after.serving.remove(event.token) == registry.serving);
                    if fd_index(left, event.token) is Some {
                        let k = choose|k: int| is_fd_index(left, event.token, k);
                        assert(is_fd_index(left, event.token, k));
                    }
                }
                assert(tokens.drop_first() == tokens.skip(1));
            },
            None => {
                if !registry.exit_events {
                    let rest = tokens.drop_first();
                    law_serving_hands_out_the_first(registry, rest);
                    let (after, step) = next_fd(registry, rest);
                    if let StepView::Act(ActionView::RunFd { event, pending }) = step {
                        let k = choose|k: int|
                            {
                                &&& 0 <= k < rest.len()
                                &&& event.token == #[trigger] rest[k]
                                &&& pending == rest.skip(k + 1)
                                &&& forall|j: int|
                                    0 <= j < k ==> fd_index(
                                        registry.fd_events,
                                        #[trigger] rest[j],
                                    ) is None
                            };
                        assert(tokens[k + 1] == rest[k]);
                        assert(rest.skip(k + 1) == tokens.skip(k + 2));
                        assert forall|j: int| 0 <= j < k + 1 implies fd_index(
                            registry.fd_events,
                            #[trigger] tokens[j],
                        ) is None by {
                            if j > 0 {
                                assert(tokens[j] == rest[j - 1]);
                            }
                        }
                    } else if step is Collect {
                        assert forall|j: int| 0 <= j < tokens.len() implies fd_index(
                            registry.fd_events,
                            #[trigger] tokens[j],
                        ) is None by {
                            if j > 0 {
                                assert(tokens[j] == rest[j - 1]);
                            }
                        }
                    }
                }
            },
        }
    }
}

/// A token that an attached descriptor has is found.
proof fn lemma_attached_is_found<F>(fds: Seq<FdEvent<F>>, token: Token, i: int)
    requires
        0 <= i < fds.len(),
        fds[i].token == token,
    ensures
        fd_index(fds, token) is Some,
    decreases i,
{
    if exists|j: int| 0 <= j < i && (#[trigger] fds[j]).token == token {
        let j = choose|j: int| 0 <= j < i && (#[trigger] fds[j]).token == token;
        lemma_attached_is_found(fds, token, j);
    } else {
        assert(is_fd_index(fds, token, i));
    }
}

/// Where the same descriptors are attached, the same tokens are found.
proof fn lemma_found_among_the_same<F>(a: Seq<FdEvent<F>>, b: Seq<FdEvent<F>>, token: Token)
    requires
        a.to_multiset() == b.to_multiset(),
        fd_index(a, token) is Some,
    ensures
        fd_index(b, token) is Some,
{
    let i = choose|i: int| is_fd_index(a, token, i);
    assert(is_fd_index(a, token, i));
    assert(a.contains(a[i]));
    to_multiset_contains(a, a[i]);
    to_multiset_contains(b, a[i]);
    let j = choose|j: int| 0 <= j < b.len() && b[j] == a[i];
    lemma_attached_is_found(b, token, j);
}

/// Those of `tokens` that attached descriptors have, in their order.
pub open spec fn attached_among<F>(fds: Seq<FdEvent<F>>, tokens: Seq<Token>) -> Seq<Token>
    decreases tokens.len(),
{
    if tokens.len() == 0 {
        seq![]
    } else if fd_index(fds, tokens[0]) is Some {
        seq![tokens[0]] + attached_among(fds, tokens.drop_first())
    } else {
        attached_among(fds, tokens.drop_first())
    }
}

/// The tokens of the descriptors that the steps hand out when `tokens` are served to the end, by
/// callbacks that leave the loop as it is.
pub open spec fn tokens_served<C, F>(registry: Registry<C, F>, tokens: Seq<Token>) -> Seq<Token>
    decreases tokens.len(),
{
    let (after, step) = next_fd(registry, tokens);
    match step {
        StepView::Act(ActionView::RunFd { event, pending }) => if pending.len() < tokens.len() {
            seq![event.token] + tokens_served(put_back(after, event).0, pending)
        } else {
            seq![]
        },
        _ => seq![],
    }
}

/// Where the same descriptors are attached, the same of `tokens` are.
proof fn lemma_attached_among_the_same<F>(
    a: Seq<FdEvent<F>>,
    b: Seq<FdEvent<F>>,
    tokens: Seq<Token>,
)
    requires
        a.to_multiset() == b.to_multiset(),
    ensures
        attached_among(a, tokens) == attached_among(b, tokens),
    decreases tokens.len(),
{
    if tokens.len() > 0 {
        lemma_attached_among_the_same(a, b, tokens.drop_first());
        if fd_index(a, tokens[0]) is Some {
            lemma_found_among_the_same(a, b, tokens[0]);
        } else if fd_index(b, tokens[0]) is Some {
            lemma_found_among_the_same(b, a, tokens[0]);
        }
    }
}

/// Every token of a poll that a descriptor is attached under is served, as often as it comes up
/// and in the order of the poll; the others are passed over.
pub proof fn law_every_ready_descriptor_is_served<C, F>(
    registry: Registry<C, F>,
    tokens: Seq<Token>,
)
    requires
        !registry.exit_events,
    ensures
        tokens_served(registry, tokens) == attached_among(registry.fd_events, tokens),
    decreases tokens.len(),
{
    if tokens.len() > 0 {
        let rest = tokens.drop_first();
        let fds = registry.fd_events;
        match fd_index(fds, tokens[0]) {
            Some(i) => {
                assert(is_fd_index(fds, tokens[0], i));
                let event = fds[i];
                let left = swap_removed(fds, i);
                let after = next_fd(registry, tokens).0;
                let back = put_back(after, event).0;
                assert(back.fd_events == left.push(event));
                law_swap_removed_takes_one(fds, i);
                to_multiset_build(left, event);
                law_every_ready_descriptor_is_served(back, rest);
                lemma_attached_among_the_same(fds, back.fd_events, rest);
                assert(tokens_served(registry, tokens) == seq![event.token] + tokens_served(
                    back,
                    rest,
                ));
            },
            None => {
                law_every_ready_descriptor_is_served(registry, rest);
                law_serving_hands_out_the_first(registry, rest);
                assert(tokens_served(registry, tokens) == tokens_served(registry, rest));
            },
        }
    }
}

/// A descriptor that is attached comes last, under the next token, and leaves every other thing as
/// it is, what is scheduled and what is due among them. A refusal changes nothing, and says why:
/// just as many descriptors are attached as the loop takes, or the registration failed.
pub proof fn law_attach_adds_just_the_descriptor<C, F, E>(
    registry: Registry<C, F>,
    source: F,
    priority: Priority,
    registered: Result<(), E>,
)
    requires
        registry.fd_events.len() != DEFAULT_EVENTS_CAPACITY && registered is Ok
            ==> registry.next_token < usize::MAX,
    ensures
        ({
            let (attached, after) = attach_outcome(registry, source, priority, registered);
            &&& match attached {
                Ok(_) => {
                    let new = after.fd_events[registry.fd_events.len() as int];
                    &&& registered is Ok && registry.fd_events.len() != 1024
                    &&& after.fd_events.len() == registry.fd_events.len() + 1
                    &&& new.source == source && new.token.0 == registry.next_token
                    &&& forall|i: int|
                        0 <= i < registry.fd_events.len() ==> #[trigger] after.fd_events[i]
                            == registry.fd_events[i]
                    &&& after.next_token == registry.next_token + 1
                },
                Err(AttachError::CapacityReached) => registry.fd_events.len() == 1024 && after
                    == registry,
                Err(AttachError::Register(error)) => registry.fd_events.len() != 1024 && registered
                    == Err::<(), E>(error) && after == registry,
            }
            &&& after.timed_events == registry.timed_events
            &&& after.due == registry.due
            &&& after.serving == registry.serving
            &&& after.exit_events == registry.exit_events
            &&& after.clock == registry.clock
        }),
{
}

/// A source that is attached is handed out, to have its callback run, when it is ready, and no
/// other is under its token.
pub proof fn law_attached_is_served<C, F, E>(
    registry: Registry<C, F>,
    source: F,
    priority: Priority,
    tokens: Seq<Token>,
)
    requires
        registry.wf(),
        registry.fd_events.len() != DEFAULT_EVENTS_CAPACITY,
        registry.next_token < usize::MAX,
        tokens.len() > 0,
        tokens[0].0 == registry.next_token,
    ensures
        next_fd(attach_outcome::<C, F, E>(registry, source, priority, Ok(())).1, tokens).1
            == StepView::<C, F>::Act(
            ActionView::RunFd {
                event: FdEvent { token: tokens[0], source },
                pending: tokens.skip(1),
            },
        ),
{
    let after = attach_outcome::<C, F, E>(registry, source, priority, Ok(())).1;
    let n = registry.fd_events.len() as int;
    assert forall|j: int| 0 <= j < n implies (#[trigger] after.fd_events[j]).token != tokens[0] by {
        assert(after.fd_events[j] == registry.fd_events[j]);
    }
    lemma_fd_index(after.fd_events, tokens[0], n);
    assert(tokens.skip(1) == tokens.drop_first());
}

/// Detaching takes out one descriptor, that of the token, and leaves every other attached, whether
/// or not its callback runs. It succeeds exactly where there is one. What is scheduled and what is
/// due stays as it is.
pub proof fn law_detach_leaves_the_others<C, F>(registry: Registry<C, F>, token: Token)
    ensures
        ({
            let ((status, out), after) = detached(registry, token);
            &&& match out {
                Some(event) => {
                    &&& status == 0
                    &&& event.token == token
                    &&& after.fd_events.to_multiset().insert(event)
                        == registry.fd_events.to_multiset()
                    &&& after.serving == registry.serving
                },
                None => {
                    &&& status == if registry.serving.contains(token) {
                        0
                    } else {
                        -1i32
                    }
                    &&& forall|i: int|
                        0 <= i < registry.fd_events.len() ==> (
                        #[trigger] registry.fd_events[i]).token != token
                    &&& after.fd_events == registry.fd_events
                    &&& forall|other: Token| #[trigger]
                        after.serving.contains(other) <==> registry.serving.contains(other) && other
                            != token
                },
            }
            &&& forall|event: FdEvent<F>|
                event.token != token ==> (#[trigger] after.fd_events.contains(event)
                    <==> registry.fd_events.contains(event))
            &&& after.timed_events == registry.timed_events
            &&& after.due == registry.due
            &&& after.exit_events == registry.exit_events
            &&& after.next_token == registry.next_token
            &&& after.clock == registry.clock
        }),
{
    broadcast use vstd::multiset::group_multiset_axioms;

    let ((status, out), after) = detached(registry, token);
    match fd_index(registry.fd_events, token) {
        Some(i) => {
            assert(is_fd_index(registry.fd_events, token, i));
            law_swap_removed_takes_one(registry.fd_events, i);
            assert forall|event: FdEvent<F>| event.token != token implies (
            #[trigger] after.fd_events.contains(event) <==> registry.fd_events.contains(event)) by {
                to_multiset_contains(after.fd_events, event);
                to_multiset_contains(registry.fd_events, event);
            }
        },
        None => {
            assert forall|i: int| 0 <= i < registry.fd_events.len() implies (
            #[trigger] registry.fd_events[i]).token != token by {
                if registry.fd_events[i].token == token {
                    lemma_attached_is_found(registry.fd_events, token, i);
                }
            }
        },
    }
}

/// After a descriptor is detached, a poll that finds another ready has that one's callback run as
/// it would have before, and detaching that one comes to the same.
pub proof fn law_detach_leaves_the_others_in_service<C, F>(
    registry: Registry<C, F>,
    token: Token,
    other: Token,
)
    requires
        registry.wf(),
        other != token,
    ensures
        ({
            let after = detached(registry, token).1;
            &&& next_fd(after, seq![other]).1 == next_fd(registry, seq![other]).1
            &&& detached(after, other).0 == detached(registry, other).0
        }),
{
    reveal_with_fuel(next_fd, 2);
    let after = detached(registry, token).1;
    law_detach_leaves_the_others(registry, token);
    assert(seq![other][0] == other);
    assert(seq![other].drop_first() == Seq::<Token>::empty());
    if let Some(i) = fd_index(registry.fd_events, other) {
        assert(is_fd_index(registry.fd_events, other, i));
        assert(registry.fd_events.contains(registry.fd_events[i]));
        assert(after.fd_events.contains(registry.fd_events[i]));
        let k = choose|k: int|
            0 <= k < after.fd_events.len() && after.fd_events[k] == registry.fd_events[i];
        lemma_attached_is_found(after.fd_events, other, k);
    }
    if let Some(k) = fd_index(after.fd_events, other) {
        assert(is_fd_index(after.fd_events, other, k));
        assert(after.fd_events.contains(after.fd_events[k]));
        assert(registry.fd_events.contains(after.fd_events[k]));
        let i = choose|i: int|
            0 <= i < registry.fd_events.len() && registry.fd_events[i] == after.fd_events[k];
        lemma_attached_is_found(registry.fd_events, other, i);
        let first = fd_index(registry.fd_events, other)->0;
        assert(is_fd_index(registry.fd_events, other, first));
        if first < i {
            assert(registry.fd_events[first].token != registry.fd_events[i].token);
        }
    }
}

/// Entering the loop clears the flag that ends it and leaves what waits and what is attached.
pub proof fn law_entering_keeps_what_waits_and_is_attached<C, F>(registry: Registry<C, F>)
    ensures
        ({
            let after = entered(registry);
            &&& !after.exit_events
            &&& after.due.len() == 0
            &&& after.timed_events == registry.timed_events
            &&& after.fd_events == registry.fd_events
            &&& after.serving == registry.serving
            &&& after.next_token == registry.next_token
            &&& after.clock == registry.clock
        }),
{
}

/// While events are due, the first of them is handed out and the others stay in their order; once
/// none is, the loop polls. Where it is to end, it ends after a callback, without the due events
/// that are left. Nothing else changes.
pub proof fn law_due_events_are_handed_out_one_by_one<C, F>(registry: Registry<C, F>)
    ensures
        ({
            let (after, step) = next_timed(registry);
            &&& match step {
                StepView::Act(ActionView::RunTimed { timed }) => {
                    &&& after.due.len() + 1 == registry.due.len()
                    &&& timed == registry.due[0]
                    &&& forall|i: int|
                        0 <= i < after.due.len() ==> #[trigger] after.due[i] == registry.due[i + 1]
                },
                StepView::Wait => registry.due.len() == 0 && after.due.len() == 0,
                _ => false,
            }
            &&& after.timed_events == registry.timed_events
            &&& after.fd_events == registry.fd_events
            &&& after.serving == registry.serving
            &&& after.exit_events == registry.exit_events
            &&& after.next_token == registry.next_token
            &&& after.clock == registry.clock
        }),
        !registry.exit_events ==> after_timed(registry) == next_timed(registry),
        registry.exit_events ==> ({
            let (after, step) = after_timed(registry);
            &&& step == StepView::<C, F>::Act(ActionView::Return)
            &&& after.due.len() == 0
            &&& after.timed_events == registry.timed_events
            &&& after.fd_events == registry.fd_events
            &&& after.serving == registry.serving
            &&& after.exit_events
            &&& after.next_token == registry.next_token
            &&& after.clock == registry.clock
        }),
{
}

/// Whether `token` is that of none of `fds`.
pub open spec fn is_not_among<F>(fds: Seq<FdEvent<F>>, token: Token) -> bool {
    forall|i: int| 0 <= i < fds.len() ==> (#[trigger] fds[i]).token != token
}

/// Whether `step` serves the first of `tokens` that is attached in `before`, and leaves `after`:
/// its descriptor is away, and the tokens behind it are still to come. Where none is attached, a
/// new turn comes. Where the loop is to end, a first token that is not attached ends it.
pub open spec fn serves_the_first<C, F>(
    before: Registry<C, F>,
    tokens: Seq<Token>,
    after: Registry<C, F>,
    step: StepView<C, F>,
) -> bool {
    &&& match step {
        StepView::Act(ActionView::RunFd { event, pending }) => {
            let k = tokens.len() - pending.len() - 1;
            &&& 0 <= k < tokens.len()
            &&& before.exit_events ==> k == 0
            &&& event.token == tokens[k]
            &&& pending == tokens.skip(k + 1)
            &&& forall|j: int| 0 <= j < k ==> is_not_among(before.fd_events, #[trigger] tokens[j])
            &&& after.fd_events.to_multiset().insert(event) == before.fd_events.to_multiset()
            &&& forall|token: Token| #[trigger]
                after.serving.contains(token) <==> before.serving.contains(token) || token
                    == event.token
        },
        StepView::Collect => {
            &&& before.exit_events ==> tokens.len() == 0
            &&& forall|j: int|
                0 <= j < tokens.len() ==> is_not_among(before.fd_events, #[trigger] tokens[j])
            &&& after == before
        },
        StepView::Act(ActionView::Return) => {
            &&& before.exit_events
            &&& tokens.len() > 0
            &&& is_not_among(before.fd_events, tokens[0])
            &&& after == before
        },
        _ => false,
    }
    &&& after.timed_events == before.timed_events
    &&& after.due == before.due
    &&& after.exit_events == before.exit_events
    &&& after.next_token == before.next_token
    &&& after.clock == before.clock
}

/// Among the descriptors that a poll found ready, the first that is attached is served, and none is
/// passed over that is.
pub proof fn law_first_ready_descriptor_is_served<C, F>(
    registry: Registry<C, F>,
    tokens: Seq<Token>,
)
    ensures
        ({
            let (after, step) = next_fd(registry, tokens);
            serves_the_first(registry, tokens, after, step)
        }),
    decreases tokens.len(),
{
    if tokens.len() > 0 {
        let rest = tokens.drop_first();
        let fds = registry.fd_events;
        match fd_index(fds, tokens[0]) {
            Some(i) => {
                assert(is_fd_index(fds, tokens[0], i));
                law_swap_removed_takes_one(fds, i);
                assert(rest == tokens.skip(1));
            },
            None => {
                assert(is_not_among(fds, tokens[0])) by {
                    assert forall|i: int| 0 <= i < fds.len() implies (#[trigger] fds[i]).token
                        != tokens[0] by {
                        if fds[i].token == tokens[0] {
                            lemma_attached_is_found(fds, tokens[0], i);
                        }
                    }
                }
                if !registry.exit_events {
                    law_first_ready_descriptor_is_served(registry, rest);
                    let (after, step) = next_fd(registry, rest);
                    let n = match step {
                        StepView::Act(ActionView::RunFd { event, pending }) => {
                            assert(rest.skip(rest.len() - pending.len()) == tokens.skip(
                                tokens.len() - pending.len(),
                            ));
                            rest.len() - pending.len()
                        },
                        _ => tokens.len() as int,
                    };
                    assert forall|j: int| 0 <= j < n && j < tokens.len() implies is_not_among(
                        fds,
                        #[trigger] tokens[j],
                    ) by {
                        if j > 0 {
                            assert(tokens[j] == rest[j - 1]);
                        }
                    }
                }
            },
        }
    }
}

/// Once the callback of a descriptor is done it is attached again, with every other as before, and
/// the next that is ready is served, itself if it is ready once more. A descriptor that was
/// detached meanwhile is given to the owner of the loop instead. Where the loop is to end, it ends.
pub proof fn law_done_descriptor_is_attached_again<C, F>(
    registry: Registry<C, F>,
    event: FdEvent<F>,
    tokens: Seq<Token>,
    back: Registry<C, F>,
)
    requires
        registry.serving.contains(event.token) ==> {
            &&& back.fd_events == registry.fd_events.push(event)
            &&& forall|token: Token| #[trigger]
                back.serving.contains(token) <==> registry.serving.contains(token) && token
                    != event.token
        },
        !registry.serving.contains(event.token) ==> back.fd_events == registry.fd_events
            && back.serving == registry.serving,
        back.timed_events == registry.timed_events,
        back.due == registry.due,
        back.exit_events == registry.exit_events,
        back.next_token == registry.next_token,
        back.clock == registry.clock,
    ensures
        ({
            let (after, step) = after_fd(registry, event, tokens);
            &&& !registry.exit_events ==> serves_the_first(back, tokens, after, step)
            &&& registry.exit_events ==> after == back && step == StepView::<C, F>::Act(
                ActionView::Return,
            )
        }),
        put_back(registry, event).1 == if registry.serving.contains(event.token) {
            None
        } else {
            Some(event)
        },
{
    assert(put_back(registry, event).0.serving =~= back.serving);
    assert(put_back(registry, event).0 == back);
    law_first_ready_descriptor_is_served(back, tokens);
}

/// What an action or a step is seen as in contracts is what it is.
pub proof fn law_views_tell_what_is_asked_for<C, F>(action: Action<C, F>, step: Step<C, F>)
    ensures
        match action {
            Action::RunTimed { timed } => action@ == (ActionView::<C, F>::RunTimed { timed }),
            Action::Poll { timeout } => action@ == (ActionView::<C, F>::Poll { timeout }),
            Action::RunFd { event, pending } => action@ == (ActionView::<C, F>::RunFd {
                event,
                pending: pending@,
            }),
            Action::Return => action@ == ActionView::<C, F>::Return,
            Action::Abort => action@ == ActionView::<C, F>::Abort,
        },
        match step {
            Step::Collect => step@ == StepView::<C, F>::Collect,
            Step::Wait => step@ == StepView::<C, F>::Wait,
            Step::Act(asked) => step@ == StepView::<C, F>::Act(asked@),
        },
{
}

/// Finding out what a step asks for ends no loop that the step does not end, and leaves it as it is
/// whether the loop is to end.
pub proof fn law_resolving_ends_no_loop<C, F>(
    registry: Registry<C, F>,
    step: StepView<C, F>,
    after: Registry<C, F>,
    action: ActionView<C, F>,
)
    requires
        resolves(registry, step, after, action),
    ensures
        action == ActionView::<C, F>::Return <==> step == StepView::<C, F>::Act(ActionView::Return),
        action == ActionView::<C, F>::Abort <==> step == StepView::<C, F>::Act(ActionView::Abort),
        after.exit_events == registry.exit_events,
{
}

/// In the smaller loop an event that has run is not run again, whatever runs after it, and stays
/// where it is.
pub proof fn law_done_event_stays_done<C>(
    registry: first::Registry<C>,
    index: int,
    other: int,
    from: int,
    readings: Seq<Instant>,
    next: Option<usize>,
)
    requires
        0 <= index < registry.timed_events.len(),
        0 <= other < registry.timed_events.len(),
        first::is_next(
            first::run(first::run(registry, index), other).timed_events,
            from,
            readings,
            next,
        ),
    ensures
        next matches Some(i) ==> i != index && i != other,
        first::run(registry, index).timed_events.len() == registry.timed_events.len(),
        other != index ==> first::run(registry, index).timed_events[other]
            == registry.timed_events[other],
{
}

/// In the smaller loop no event runs before its delay has passed, and a poll comes only when no
/// event that is left to look at was due before the first reading.
pub proof fn law_scan_is_by_time<C>(
    events: Seq<first::TimedEvent<C>>,
    from: int,
    readings: Seq<Instant>,
    next: Option<usize>,
    earliest: Instant,
    latest: Instant,
)
    requires
        0 <= from,
        readings.len() >= events.len(),
        between(readings, earliest, latest),
        first::is_next(events, from, readings, next),
    ensures
        next matches Some(i) ==> latest@ > events[i as int].register_instant@
            + events[i as int].delta_time@,
        next is None ==> forall|i: int|
            from <= i < events.len() ==> !first::is_runnable(#[trigger] events[i], earliest),
{
    match next {
        Some(i) => {
            assert(readings[i - from]@ <= latest@);
        },
        None => {
            assert forall|i: int| from <= i < events.len() implies !first::is_runnable(
                #[trigger] events[i],
                earliest,
            ) by {
                assert(earliest@ <= readings[i - from]@);
            }
        },
    }
}

/// In the smaller loop scheduling adds one event, behind the others, that has not run. Nothing else
/// changes.
pub proof fn law_smaller_queue_adds_one<C>(
    registry: first::Registry<C>,
    func: C,
    delta_time: Duration,
    now: Instant,
)
    ensures
        ({
            let after = first::queued(registry, func, delta_time, now);
            let new = after.timed_events[registry.timed_events.len() as int];
            &&& after.timed_events.len() == registry.timed_events.len() + 1
            &&& new.callback == func && new.delta_time == delta_time && new.register_instant == now
            &&& !new.done
            &&& forall|i: int|
                0 <= i < registry.timed_events.len() ==> #[trigger] after.timed_events[i]
                    == registry.timed_events[i]
            &&& after.exit_events == registry.exit_events
            &&& after.fd_events == registry.fd_events
            &&& after.clock == registry.clock
        }),
{
}

/// In the smaller loop an event that has run is done and is otherwise what it was. Nothing else
/// changes.
pub proof fn law_run_marks_just_its_event<C>(registry: first::Registry<C>, index: int)
    requires
        0 <= index < registry.timed_events.len(),
    ensures
        ({
            let after = first::run(registry, index);
            let before = registry.timed_events[index];
            &&& after.timed_events.len() == registry.timed_events.len()
            &&& after.timed_events[index].done
            &&& after.timed_events[index].callback == before.callback
            &&& after.timed_events[index].register_instant == before.register_instant
            &&& after.timed_events[index].delta_time == before.delta_time
            &&& forall|i: int|
                0 <= i < registry.timed_events.len() && i != index
                    ==> #[trigger] after.timed_events[i] == registry.timed_events[i]
            &&& after.exit_events == registry.exit_events
            &&& after.fd_events == registry.fd_events
            &&& after.clock == registry.clock
        }),
{
}

/// A look at the clock in the smaller loop has the first event run, from where it starts, that has
/// not run and whose delay had passed at its reading. Where there is none the loop polls for ten
/// seconds. It ends only by a step that says so.
pub proof fn law_scan_runs_the_first_due<C>(
    registry: first::Registry<C>,
    step: first::Step,
    action: first::Action,
)
    requires
        first::resolves(registry, step, action),
    ensures
        action is Return <==> step is Return,
        action is Abort <==> step is Abort,
        step matches first::Step::Scan { from } ==> exists|readings: Seq<Instant>|
            {
                let events = registry.timed_events;
                &&& readings.len() == events.len()
                &&& #[trigger] registry.clock.reads_all(readings)
                &&& match action {
                    first::Action::RunTimed { index } => {
                        &&& from <= index < events.len()
                        &&& !events[index as int].done
                        &&& readings[index - from]@ > events[index as int].register_instant@
                            + events[index as int].delta_time@
                        &&& forall|j: int|
                            from <= j < index ==> (#[trigger] events[j]).done || readings[j - from]@
                                <= events[j].register_instant@ + events[j].delta_time@
                    },
                    first::Action::Poll { timeout } => {
                        &&& timeout@ == 10_000_000_000
                        &&& forall|j: int|
                            from <= j < events.len() ==> (#[trigger] events[j]).done || readings[j
                                - from]@ <= events[j].register_instant@ + events[j].delta_time@
                    },
                    _ => false,
                }
            },
{
    if let first::Step::Scan { from } = step {
        let events = registry.timed_events;
        let (readings, next) = choose|readings: Seq<Instant>, next: Option<usize>|
            {
                &&& readings.len() == registry.timed_events.len()
                &&& registry.clock.reads_all(readings)
                &&& #[trigger] first::is_next(registry.timed_events, from as int, readings, next)
                &&& match next {
                    Some(i) => action == (first::Action::RunTimed { index: i }),
                    None => action matches first::Action::Poll { timeout } && timeout@
                        == first::POLL_SECONDS * 1_000_000_000,
                }
            };
        let end = match next {
            Some(i) => i as int,
            None => events.len() as int,
        };
        assert forall|j: int| from <= j < end implies (#[trigger] events[j]).done || readings[j
            - from]@ <= events[j].register_instant@ + events[j].delta_time@ by {
            assert(!first::is_runnable(events[j], readings[j - from]));
        }
        assert(registry.clock.reads_all(readings));
    }
}

/// Whether, from `step` on, the events at `runs` are run, one after the other, before the smaller
/// loop polls: each is the next to run at the readings of its scan, the first of `scans` for the
/// first of them, and the last scan finds none. A callback may change itself, into what `left` has
/// for it.
pub open spec fn runs_before_the_poll<C>(
    registry: first::Registry<C>,
    step: first::Step,
    scans: Seq<Seq<Instant>>,
    runs: Seq<usize>,
    left: Seq<C>,
) -> bool
    decreases runs.len(),
{
    &&& scans.len() == runs.len() + 1
    &&& scans[0].len() >= registry.timed_events.len()
    &&& step matches first::Step::Scan { from } && if runs.len() == 0 {
        first::is_next(registry.timed_events, from as int, scans[0], None)
    } else {
        let changed = first::Registry {
            timed_events: registry.timed_events.update(
                runs[0] as int,
                first::TimedEvent { callback: left[0], ..registry.timed_events[runs[0] as int] },
            ),
            ..registry
        };
        &&& first::is_next(registry.timed_events, from as int, scans[0], Some(runs[0]))
        &&& runs_before_the_poll(
            first::run(changed, runs[0] as int),
            first::Step::Scan { from: (runs[0] + 1) as usize },
            scans.drop_first(),
            runs.drop_first(),
            left.drop_first(),
        )
    }
}

/// Whether every reading of every one of `scans` lies between `earliest` and `latest`.
pub open spec fn all_between(
    scans: Seq<Seq<Instant>>,
    earliest: Instant,
    latest: Instant,
) -> bool {
    forall|k: int| 0 <= k < scans.len() ==> between(#[trigger] scans[k], earliest, latest)
}

/// From a position on, every event that was due before the first reading is run before the poll.
proof fn lemma_scans_run_what_is_due<C>(
    registry: first::Registry<C>,
    from: usize,
    scans: Seq<Seq<Instant>>,
    runs: Seq<usize>,
    left: Seq<C>,
    earliest: Instant,
    latest: Instant,
)
    requires
        registry.timed_events.len() <= usize::MAX,
        runs_before_the_poll(registry, first::Step::Scan { from }, scans, runs, left),
        all_between(scans, earliest, latest),
    ensures
        forall|i: int|
            from <= i < registry.timed_events.len() && !(#[trigger] registry.timed_events[i]).done
                && earliest@ > registry.timed_events[i].register_instant@
                + registry.timed_events[i].delta_time@ ==> runs.contains(i as usize),
        forall|k: int|
            0 <= k < runs.len() ==> {
                let event = registry.timed_events[#[trigger] runs[k] as int];
                &&& from <= runs[k] < registry.timed_events.len()
                &&& !event.done
                &&& latest@ > event.register_instant@ + event.delta_time@
            },
        forall|j: int, k: int|
            0 <= j < k < runs.len() ==> #[trigger] runs[j] < #[trigger] runs[k],
    decreases runs.len(),
{
    let events = registry.timed_events;
    assert(between(scans[0], earliest, latest));
    if runs.len() == 0 {
        law_scan_is_by_time(events, from as int, scans[0], None, earliest, latest);
        assert forall|i: int| from <= i < events.len() && !(#[trigger] events[i]).done && earliest@
            > events[i].register_instant@ + events[i].delta_time@ implies runs.contains(
            i as usize,
        ) by {
            assert(!first::is_runnable(events[i], earliest));
        }
    } else {
        let index = runs[0];
        let changed = first::Registry {
            timed_events: events.update(
                index as int,
                first::TimedEvent { callback: left[0], ..events[index as int] },
            ),
            ..registry
        };
        let after = first::run(changed, index as int);
        let rest = runs.drop_first();
        law_scan_is_by_time(events, from as int, scans[0], Some(index), earliest, latest);
        assert forall|k: int| 0 <= k < scans.drop_first().len() implies between(
            #[trigger] scans.drop_first()[k],
            earliest,
            latest,
        ) by {
            assert(scans.drop_first()[k] == scans[k + 1]);
        }
        lemma_scans_run_what_is_due(
            after,
            (index + 1) as usize,
            scans.drop_first(),
            rest,
            left.drop_first(),
            earliest,
            latest,
        );
        assert forall|i: int| from <= i < events.len() && !(#[trigger] events[i]).done && earliest@
            > events[i].register_instant@ + events[i].delta_time@ implies runs.contains(
            i as usize,
        ) by {
            if i < index {
                assert(!first::is_runnable(events[i], scans[0][i - from]));
                assert(earliest@ <= scans[0][i - from]@);
            } else if i == index {
                assert(runs[0] == i as usize);
            } else {
                assert(after.timed_events[i] == events[i]);
                let k = choose|k: int| 0 <= k < rest.len() && rest[k] == i as usize;
                assert(runs[k + 1] == i as usize);
            }
        }
        assert forall|k: int| 0 <= k < runs.len() implies {
            let event = events[#[trigger] runs[k] as int];
            &&& from <= runs[k] < events.len()
            &&& !event.done
            &&& latest@ > event.register_instant@ + event.delta_time@
        } by {
            if k > 0 {
                assert(runs[k] == rest[k - 1]);
                assert(after.timed_events[runs[k] as int] == events[runs[k] as int]);
            }
        }
        assert forall|j: int, k: int| 0 <= j < k < runs.len() implies #[trigger] runs[j]
            < #[trigger] runs[k] by {
            assert(runs[k] == rest[k - 1]);
            if j > 0 {
                assert(runs[j] == rest[j - 1]);
            }
        }
    }
}

/// A turn of the smaller loop runs every event that has not run and whose delay had passed before
/// its first reading, from the first position to the last, before it polls. It runs each once, none
/// that has run, and none before its delay has passed. There is no turn exactly where the loop is
/// to end.
pub proof fn law_turn_runs_every_due_event<C>(
    registry: first::Registry<C>,
    scans: Seq<Seq<Instant>>,
    runs: Seq<usize>,
    left: Seq<C>,
    earliest: Instant,
    latest: Instant,
)
    requires
        registry.timed_events.len() <= usize::MAX,
        all_between(scans, earliest, latest),
    ensures
        registry.exit_events ==> first::turn(registry) is Return,
        !registry.exit_events ==> first::turn(registry) is Scan,
        runs_before_the_poll(registry, first::turn(registry), scans, runs, left) ==> {
            &&& forall|i: int|
                0 <= i < registry.timed_events.len() && !(#[trigger] registry.timed_events[i]).done
                    && earliest@ > registry.timed_events[i].register_instant@
                    + registry.timed_events[i].delta_time@ ==> runs.contains(i as usize)
            &&& forall|k: int|
                0 <= k < runs.len() ==> {
                    let event = registry.timed_events[#[trigger] runs[k] as int];
                    &&& runs[k] < registry.timed_events.len()
                    &&& !event.done
                    &&& latest@ > event.register_instant@ + event.delta_time@
                }
            &&& forall|j: int, k: int|
                0 <= j < k < runs.len() ==> #[trigger] runs[j] < #[trigger] runs[k]
        },
{
    if runs_before_the_poll(registry, first::turn(registry), scans, runs, left) {
        lemma_scans_run_what_is_due(registry, 0, scans, runs, left, earliest, latest);
    }
}

/// A turn of the smaller loop that polls at once leaves no event behind that has not run and was
/// due at every reading the clock may have given; one that runs an event runs the first such.
pub proof fn law_turn_starts_with_the_first_due_event<C>(
    registry: first::Registry<C>,
    action: first::Action,
    i: int,
)
    requires
        !registry.exit_events,
        first::resolves(registry, first::turn(registry), action),
        0 <= i < registry.timed_events.len(),
        !registry.timed_events[i].done,
        forall|reading: Instant| #[trigger]
            registry.clock.reads(reading) ==> reading@ > registry.timed_events[i].register_instant@
                + registry.timed_events[i].delta_time@,
    ensures
        action matches first::Action::RunTimed { index } && index <= i,
{
    law_scan_runs_the_first_due(registry, first::turn(registry), action);
    let events = registry.timed_events;
    let readings = choose|readings: Seq<Instant>|
        {
            &&& readings.len() == events.len()
            &&& #[trigger] registry.clock.reads_all(readings)
            &&& match action {
                first::Action::RunTimed { index } => forall|j: int|
                    0 <= j < index ==> (#[trigger] events[j]).done || readings[j]@
                        <= events[j].register_instant@ + events[j].delta_time@,
                first::Action::Poll { timeout } => forall|j: int|
                    0 <= j < events.len() ==> (#[trigger] events[j]).done || readings[j]@
                        <= events[j].register_instant@ + events[j].delta_time@,
                _ => false,
            }
        };
    assert(registry.clock.reads(readings[i]));
    assert(events[i].register_instant@ + events[i].delta_time@ < readings[i]@);
}

} // verus!
