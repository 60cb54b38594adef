//! The readiness events that a poll of the operating system leaves behind.

use vstd::prelude::*;

verus! {

/// How many readiness events one poll can bring, and the number of attached descriptors at which no
/// further one is taken. A descriptor whose callback runs is not counted while it does, so that
/// where callbacks attach descriptors more can be attached in the end.
pub const DEFAULT_EVENTS_CAPACITY: usize = 1024;

/// What tells one attached descriptor from another.
#[derive(Clone, Copy, Debug, PartialEq, Eq, Structural)]
pub struct Token(pub usize);

/// `mio::Events`, of whose inside nothing is known but what the functions below say.
#[verifier::external_type_specification]
#[verifier::external_body]
pub struct ExEvents(mio::Events);

/// The tokens of the readiness events that `events` holds, in the order in which they are walked.
pub uninterp spec fn ready_tokens(events: mio::Events) -> Seq<Token>;

/// The number of readiness events that `events` was made to hold.
pub uninterp spec fn event_limit(events: mio::Events) -> nat;

/// Calls `mio::Events::with_capacity`. Claimed is that what it gives holds no event, and was made
/// to hold `capacity` of them.
#[verifier::external_body]
pub(crate) fn events_with_capacity(capacity: usize) -> (events: mio::Events)
    requires
        capacity <= DEFAULT_EVENTS_CAPACITY,
    ensures
        ready_tokens(events) == Seq::<Token>::empty(),
        event_limit(events) == capacity,
{
    mio::Events::with_capacity(capacity)
}

/// Walks `mio::Events::iter` and gives each event's `mio::event::Event::token`. Claimed is that
/// every event contributes its token, in the order of the walk.
#[verifier::external_body]
pub(crate) fn tokens_of(events: &mio::Events) -> (tokens: Vec<Token>)
    ensures
        tokens@ == ready_tokens(*events),
{
    events.iter().map(|event| Token(event.token().0)).collect()
}

/// Calls `mio::Events::is_empty`. Claimed is that the answer is whether there is no event to walk.
#[verifier::external_body]
pub(crate) fn holds_no_event(events: &mio::Events) -> (none: bool)
    ensures
        none == (ready_tokens(*events).len() == 0),
{
    events.is_empty()
}

} // verus!
