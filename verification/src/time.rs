//! Spans of time, readings of a clock, and the clock itself.

use vstd::prelude::*;

verus! {

/// Nanoseconds in a second.
pub const NANOS_PER_SEC: u32 = 1_000_000_000;

/// A span of time with nanosecond resolution.
///
/// Its view is the whole span in nanoseconds.
#[derive(Clone, Copy, Debug, PartialEq, Eq, Structural)]
pub struct Duration {
    secs: u64,
    nanos: u32,
}

impl View for Duration {
    type V = nat;

    closed spec fn view(&self) -> nat {
        self.secs as nat * NANOS_PER_SEC as nat + self.nanos as nat
    }
}

impl Duration {
    #[verifier::type_invariant]
    spec fn normalized(self) -> bool {
        self.nanos < NANOS_PER_SEC
    }

    /// `secs` seconds and `nanos` nanoseconds; a billion nanoseconds or more carry over into the
    /// seconds.
    pub fn new(secs: u64, nanos: u32) -> (span: Duration)
        requires
            secs + nanos / NANOS_PER_SEC <= u64::MAX,
        ensures
            span@ == secs * NANOS_PER_SEC + nanos,
    {
        Duration { secs: secs + (nanos / NANOS_PER_SEC) as u64, nanos: nanos % NANOS_PER_SEC }
    }

    /// `secs` whole seconds.
    pub fn from_secs(secs: u64) -> (span: Duration)
        ensures
            span@ == secs * NANOS_PER_SEC,
    {
        Duration { secs, nanos: 0 }
    }

    /// `millis` milliseconds.
    pub fn from_millis(millis: u64) -> (span: Duration)
        ensures
            span@ == millis * 1_000_000,
    {
        Duration { secs: millis / 1000, nanos: (millis % 1000) as u32 * 1_000_000 }
    }

    /// The whole seconds of the span.
    pub fn as_secs(&self) -> (secs: u64)
        ensures
            secs == self@ / NANOS_PER_SEC as nat,
    {
        proof {
            use_type_invariant(self);
        }
        self.secs
    }

    /// What the span has beyond its whole seconds, in nanoseconds.
    pub fn subsec_nanos(&self) -> (nanos: u32)
        ensures
            nanos == self@ % NANOS_PER_SEC as nat,
    {
        proof {
            use_type_invariant(self);
        }
        self.nanos
    }

    /// Whether this span is strictly shorter than `other`.
    pub fn is_shorter_than(&self, other: &Duration) -> (shorter: bool)
        ensures
            shorter == (self@ < other@),
    {
        proof {
            use_type_invariant(self);
            use_type_invariant(other);
        }
        self.secs < other.secs || (self.secs == other.secs && self.nanos < other.nanos)
    }

    /// This span less `other`, or the empty span where `other` is longer.
    pub fn saturating_sub(self, other: Duration) -> (rest: Duration)
        ensures
            rest@ == saturating_difference(self@, other@),
    {
        proof {
            use_type_invariant(&self);
            use_type_invariant(&other);
        }
        if self.is_shorter_than(&other) {
            Duration { secs: 0, nanos: 0 }
        } else if self.nanos >= other.nanos {
            Duration { secs: self.secs - other.secs, nanos: self.nanos - other.nanos }
        } else {
            Duration {
                secs: self.secs - other.secs - 1,
                nanos: self.nanos + NANOS_PER_SEC - other.nanos,
            }
        }
    }
}

/// `a - b`, or zero where `b` exceeds `a`.
pub open spec fn saturating_difference(a: nat, b: nat) -> nat {
    if a >= b {
        (a - b) as nat
    } else {
        0
    }
}

/// A difference makes up for what the one span lacks of the other, and there is none where it lacks
/// nothing.
pub proof fn law_difference_makes_up(a: nat, b: nat)
    ensures
        b <= a ==> b + saturating_difference(a, b) == a,
        a <= b ==> saturating_difference(a, b) == 0,
{
}

/// A reading of a [`Clock`].
///
/// Its view is the time since the clock was started, in nanoseconds.
#[derive(Clone, Copy, Debug, PartialEq, Eq, Structural)]
pub struct Instant {
    since_start: Duration,
}

impl View for Instant {
    type V = nat;

    closed spec fn view(&self) -> nat {
        self.since_start@
    }
}

impl Instant {
    /// The reading that a clock gives once `since_start` has passed since its start.
    pub fn at(since_start: Duration) -> (reading: Instant)
        ensures
            reading@ == since_start@,
    {
        Instant { since_start }
    }

    /// The time from `earlier` to this reading, or the empty span where `earlier` is the later of
    /// the two.
    pub fn duration_since(&self, earlier: Instant) -> (span: Duration)
        ensures
            span@ == saturating_difference(self@, earlier@),
    {
        self.since_start.saturating_sub(earlier.since_start)
    }
}

/// `std::time::Instant`, of whose inside nothing is known.
#[verifier::external_type_specification]
#[verifier::external_body]
pub struct ExStdInstant(std::time::Instant);

/// `std::time::Instant::now` takes a reading of the machine's monotonic clock. Nothing is claimed
/// of which reading that is.
pub assume_specification[ std::time::Instant::now ]() -> (reading: std::time::Instant)
;

/// Calls `std::time::Instant::elapsed` and gives the span as whole seconds and the nanoseconds
/// beyond them. Claimed is that those nanoseconds are less than a second, as
/// `std::time::Duration::subsec_nanos` promises. How long the span is depends on when the call is
/// made, so nothing is claimed of that.
#[verifier::external_body]
fn elapsed_parts(start: &std::time::Instant) -> (parts: (u64, u32))
    ensures
        parts.1 < NANOS_PER_SEC,
{
    let elapsed = start.elapsed();
    (elapsed.as_secs(), elapsed.subsec_nanos())
}

/// A clock that counts from the moment it was started.
pub struct Clock {
    start: std::time::Instant,
}

impl Clock {
    /// Whether `reading` is the time since the start of this clock, as
    /// `std::time::Instant::elapsed` may give it.
    pub closed spec fn reads(self, reading: Instant) -> bool {
        exists|parts: (u64, u32)| #[trigger]
            call_ensures(elapsed_parts, (&self.start,), parts) && reading@ == parts.0
                * NANOS_PER_SEC + parts.1
    }

    /// Whether each of `readings` is one that this clock may give.
    pub open spec fn reads_all(self, readings: Seq<Instant>) -> bool {
        forall|i: int| 0 <= i < readings.len() ==> self.reads(#[trigger] readings[i])
    }

    /// Whether this clock was started at a moment that `std::time::Instant::now` may give.
    pub closed spec fn is_started(self) -> bool {
        call_ensures(std::time::Instant::now, (), self.start)
    }

    /// Starts a clock.
    pub(crate) fn start() -> (clock: Clock)
        ensures
            clock.is_started(),
    {
        Clock { start: std::time::Instant::now() }
    }

    /// Reads the clock. Which reading comes back depends on the moment of the call.
    pub(crate) fn now(&self) -> (reading: Instant)
        ensures
            self.reads(reading),
    {
        let (secs, nanos) = elapsed_parts(&self.start);
        Instant::at(Duration::new(secs, nanos))
    }

    /// Reads the clock `count` times, one reading after the other.
    pub(crate) fn readings(&self, count: usize) -> (readings: Vec<Instant>)
        ensures
            readings@.len() == count,
            self.reads_all(readings@),
    {
        let mut readings: Vec<Instant> = Vec::new();
        while readings.len() < count
            invariant
                readings@.len() <= count,
                self.reads_all(readings@),
            decreases count - readings@.len(),
        {
            readings.push(self.now());
        }
        readings
    }
}

/// What a clock reads is what `std::time::Instant::elapsed` gives of the time since its start: the
/// same whole seconds, and the same nanoseconds beyond them.
proof fn law_reading_is_the_time_since_the_start(clock: Clock, reading: Instant)
    requires
        clock.reads(reading),
    ensures
        exists|secs: u64, nanos: u32| #[trigger]
            call_ensures(elapsed_parts, (&clock.start,), (secs, nanos)) && reading@
                / NANOS_PER_SEC as nat == secs && reading@ % NANOS_PER_SEC as nat == nanos,
{
    let (secs, nanos) = choose|parts: (u64, u32)| #[trigger]
        call_ensures(elapsed_parts, (&clock.start,), parts) && reading@ == parts.0 * NANOS_PER_SEC
            + parts.1;
    assert(call_ensures(elapsed_parts, (&clock.start,), (secs, nanos)));
}

/// Each of several readings of a clock is one that it may give.
pub proof fn law_readings_are_readings(clock: Clock, readings: Seq<Instant>, i: int)
    requires
        clock.reads_all(readings),
        0 <= i < readings.len(),
    ensures
        clock.reads(readings[i]),
{
}

} // verus!
