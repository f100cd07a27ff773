//! Time, as the cache sees it: nanoseconds on a line that starts when the
//! clock was installed and never runs backwards.
//!
//! The readings come from a `quanta::Clock`, which a test can replace by a
//! mocked one.  A reading that is earlier than one already seen is raised
//! to it, so the times that the cache stores are ordered like the
//! operations that stored them.

use vstd::prelude::*;
use quanta::Clock;
use quanta::Instant;
use std::time::Duration;

verus! {

/// `quanta::Clock`, a source of time.  Nothing inside it is looked at.
#[verifier::external_type_specification]
#[verifier::external_body]
pub struct ExClock(Clock);

/// `quanta::Instant`, a reading of a clock.  Nothing inside it is looked
/// at.
#[verifier::external_type_specification]
#[verifier::external_body]
pub struct ExInstant(Instant);

/// The length of a duration in nanoseconds.
pub uninterp spec fn duration_nanos(d: Duration) -> nat;

/// `Duration::as_nanos`: the total number of nanoseconds of the duration.
#[verifier::external_body]
fn duration_as_nanos(d: &Duration) -> (n: u128)
    ensures
        n == duration_nanos(*d),
{
    d.as_nanos()
}

/// `Duration::from_nanos`: the duration of the given number of
/// nanoseconds.
#[verifier::external_body]
fn duration_from_nanos(nanos: u64) -> (d: Duration)
    ensures
        duration_nanos(d) == nanos,
{
    Duration::from_nanos(nanos)
}

/// `quanta::Clock::new`: a clock over the machine's fastest time source.
#[verifier::external_body]
pub(crate) fn clock_new() -> Clock {
    Clock::new()
}

/// `Clone::clone` of `quanta::Clock`: the same clock once more.  The clone
/// copies the time source and its calibration as they are, and the clone
/// of a mocked clock shares the mocked time, so nothing tells the clone
/// from the clock it was made of.
#[verifier::external_body]
fn clock_clone(clock: &Clock) -> (c: Clock)
    ensures
        c == *clock,
{
    clock.clone()
}

/// `quanta::Clock::now`: the current reading of the clock.
#[verifier::external_body]
fn clock_now(clock: &Clock) -> Instant {
    clock.now()
}

/// `quanta::Instant::saturating_duration_since`: the time from `earlier`
/// to `later`, zero when `later` is not the later one.
#[verifier::external_body]
fn time_between(earlier: &Instant, later: &Instant) -> Duration {
    later.saturating_duration_since(*earlier)
}

/// A number of nanoseconds as the cache counts it: the number itself, or
/// `u64::MAX` if it is larger than that.
pub open spec fn counted(nanos: nat) -> u64 {
    if nanos > u64::MAX {
        u64::MAX
    } else {
        nanos as u64
    }
}

/// The length of `d` in nanoseconds, or `u64::MAX` if it is longer than
/// that.
pub open spec fn span_of(d: Duration) -> u64 {
    counted(duration_nanos(d))
}

/// A number of nanoseconds as the cache counts it.
pub fn to_span(nanos: u128) -> (n: u64)
    ensures
        n == counted(nanos as nat),
{
    if nanos > 0xffff_ffff_ffff_ffff {
        u64::MAX
    } else {
        nanos as u64
    }
}

/// The length of a duration as the cache counts it.
pub fn span(d: &Duration) -> (n: u64)
    ensures
        n == span_of(*d),
{
    to_span(duration_as_nanos(d))
}

/// The duration that the cache counts as `span` nanoseconds.
pub fn lasting(span: u64) -> (d: Duration)
    ensures
        duration_nanos(d) == span,
        span_of(d) == span,
{
    duration_from_nanos(span)
}

/// The later of the latest time seen so far and a new reading.
pub fn later_of(latest: u64, reading: u64) -> (t: u64)
    ensures
        t == (if reading >= latest {
            reading
        } else {
            latest
        }),
{
    if reading >= latest {
        reading
    } else {
        latest
    }
}

/// Another handle on the time source of `clock`: the same clock, to be
/// held by another owner.
pub fn share_clock(clock: &Clock) -> (c: Clock)
    ensures
        c == *clock,
{
    clock_clone(clock)
}

/// A clock together with the point from which its readings are counted,
/// and the time that the line had reached at that point.
pub struct Timeline {
    clock: Clock,
    origin: Instant,
    since: u64,
    latest: u64,
}

impl Timeline {
    /// The latest time this line has reported.
    pub closed spec fn latest(&self) -> u64 {
        self.latest
    }

    /// The clock that this line reads.
    pub closed spec fn clock(&self) -> Clock {
        self.clock
    }

    /// A line over the machine's clock that starts now.
    pub fn new() -> (t: Self)
        ensures
            t.latest() == 0,
    {
        Self::starting_with(clock_new())
    }

    /// A line over `clock` that starts at the clock's current reading.
    pub fn starting_with(clock: Clock) -> (t: Self)
        ensures
            t.clock() == clock,
            t.latest() == 0,
    {
        let origin = clock_now(&clock);
        Timeline { clock, origin, since: 0, latest: 0 }
    }

    /// Goes on with `clock`: from now on the line advances as `clock`
    /// does, starting from the latest time it has reported.
    pub fn switch_to(&mut self, clock: Clock)
        ensures
            final(self).clock() == clock,
            final(self).latest() == old(self).latest(),
    {
        self.origin = clock_now(&clock);
        self.clock = clock;
        self.since = self.latest;
    }

    /// The current time: the nanoseconds that the line's clock has
    /// advanced since the line took it up, added to the time the line had
    /// reached then; or the latest time reported before, if that is
    /// later.
    pub fn now(&mut self) -> (t: u64)
        ensures
            t >= old(self).latest(),
            final(self).latest() == t,
            final(self).clock() == old(self).clock(),
    {
        let reading = clock_now(&self.clock);
        let elapsed: Duration = time_between(&self.origin, &reading);
        let t: u64 = later_of(self.latest, self.since.saturating_add(span(&elapsed)));
        self.latest = t;
        t
    }
}

} // verus!
