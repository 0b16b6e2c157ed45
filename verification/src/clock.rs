//! Time sources.

use clock_lib::{ManualClock, Monotonic};
use std::sync::Arc;
use vstd::prelude::*;

use crate::time::{min_int, parts_nanos, Duration, MAX_NANOS};

verus! {

/// A source of monotonic time.
///
/// A reading is the time since some fixed origin of the clock's own choosing. Nothing is promised
/// of a reading: every operation that takes one is correct for any value of it.
pub trait Clock: Send + Sync {
    /// The time since the clock's origin.
    fn elapsed(&self) -> Duration;
}

/// Whether `now` is a reading that `clock` may give.
pub open spec fn reading_of<C: Clock>(clock: C, now: Duration) -> bool {
    call_ensures(C::elapsed, (&clock,), now)
}

/// A point on the operating system's monotonic clock, carried as an opaque value.
#[verifier::external_type_specification]
#[verifier::external_body]
pub struct ExMonotonic(clock_lib::Monotonic);

/// A clock that moves only when told to, carried as an opaque value.
#[verifier::external_type_specification]
#[verifier::external_body]
pub struct ExManualClock(clock_lib::ManualClock);

/// `clock_lib::now`, the present point on the operating system's clock.
#[verifier::external_body]
fn system_now() -> Monotonic {
    clock_lib::now()
}

/// `clock_lib::elapsed`, the time since `origin` as seconds and nanoseconds.
///
/// Claimed: only that the second part is a fraction of a second. The rest depends on the time.
#[verifier::external_body]
fn system_elapsed(origin: Monotonic) -> (parts: (u64, u32))
    ensures
        parts.1 < 1_000_000_000,
{
    let elapsed = clock_lib::elapsed(origin);
    (elapsed.as_secs(), elapsed.subsec_nanos())
}

/// `clock_lib::ManualClock::offset`, how far the clock has been advanced, as seconds and
/// nanoseconds.
///
/// Claimed: only that the second part is a fraction of a second. The rest depends on who has
/// advanced the clock.
#[verifier::external_body]
fn manual_elapsed(clock: &ManualClock) -> (parts: (u64, u32))
    ensures
        parts.1 < 1_000_000_000,
{
    let offset = clock.offset();
    (offset.as_secs(), offset.subsec_nanos())
}

/// `clock_lib::unix`, the present Unix time in seconds. Nothing is claimed of it.
#[verifier::external_body]
fn system_unix() -> u64 {
    clock_lib::unix()
}

/// Whether `origin` is a point that `clock_lib::now` may give.
pub closed spec fn may_be_now(origin: Monotonic) -> bool {
    call_ensures(system_now, (), origin)
}

/// Whether `parts` are the seconds and nanoseconds that `clock_lib::elapsed` may give as the time
/// since `origin`.
pub closed spec fn may_have_passed(origin: Monotonic, parts: (u64, u32)) -> bool {
    call_ensures(system_elapsed, (origin,), parts)
}

/// Whether `parts` are the seconds and nanoseconds that `clock` may say it was advanced by.
pub closed spec fn may_be_advanced_by(clock: ManualClock, parts: (u64, u32)) -> bool {
    call_ensures(manual_elapsed, (&clock,), parts)
}

/// Whether `unix` is a number of seconds that `clock_lib::unix` may give.
pub closed spec fn may_be_unix(unix: u64) -> bool {
    call_ensures(system_unix, (), unix)
}

/// A Unix time as a signed number of seconds, `i64::MAX` if it is more than that.
pub open spec fn signed_seconds(unix: u64) -> i64 {
    min_int(unix as int, i64::MAX as int) as i64
}

/// A Unix time as a signed number of seconds, `i64::MAX` if it is more than that.
pub fn to_signed_seconds(unix: u64) -> (secs: i64)
    ensures
        secs == signed_seconds(unix),
{
    if unix > i64::MAX as u64 {
        i64::MAX
    } else {
        unix as i64
    }
}

/// Whether `secs` is what the present Unix time may be.
pub open spec fn may_be_unix_now(secs: i64) -> bool {
    exists|unix: u64| #[trigger] may_be_unix(unix) && secs == signed_seconds(unix)
}

/// The present Unix time in seconds, zero for times before the epoch.
pub fn unix_now() -> (secs: i64)
    ensures
        secs >= 0,
        may_be_unix_now(secs),
{
    let unix: u64 = system_unix();
    assert(may_be_unix(unix));
    to_signed_seconds(unix)
}

/// The operating system's monotonic clock, read from the moment the value was made.
#[derive(Clone, Copy)]
pub struct SystemClock {
    origin: Monotonic,
}

impl SystemClock {
    /// The point from which the clock counts.
    pub closed spec fn origin(&self) -> Monotonic {
        self.origin
    }

    /// A clock whose origin is now.
    pub fn new() -> (clock: Self)
        ensures
            may_be_now(clock.origin()),
    {
        SystemClock { origin: system_now() }
    }
}

impl Clock for SystemClock {
    /// The time since the origin, as the operating system gives it.
    fn elapsed(&self) -> (now: Duration)
        ensures
            now@ <= MAX_NANOS,
            exists|parts: (u64, u32)| #[trigger]
                may_have_passed(self.origin(), parts) && now@ == parts_nanos(parts.0, parts.1),
    {
        let (secs, nanos) = system_elapsed(self.origin);
        assert(may_have_passed(self.origin(), (secs, nanos)));
        Duration::from_parts(secs, nanos)
    }
}

impl Clock for Arc<ManualClock> {
    /// How far the clock has been advanced.
    fn elapsed(&self) -> (now: Duration)
        ensures
            now@ <= MAX_NANOS,
            exists|parts: (u64, u32)| #[trigger]
                may_be_advanced_by(**self, parts) && now@ == parts_nanos(parts.0, parts.1),
    {
        let (secs, nanos) = manual_elapsed(self);
        assert(may_be_advanced_by(**self, (secs, nanos)));
        Duration::from_parts(secs, nanos)
    }
}

/// A Unix time stays what it is when it becomes signed, as far as it fits.
pub proof fn lemma_signed_seconds(unix: u64)
    ensures
        unix <= i64::MAX ==> signed_seconds(unix) == unix,
        unix > i64::MAX ==> signed_seconds(unix) == i64::MAX,
{
}

} // verus!
