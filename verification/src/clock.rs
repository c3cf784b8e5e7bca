//! Readings of clocks, as whole numbers.
use vstd::prelude::*;

verus! {

/// How many nanoseconds make a second.
pub const NANOS_PER_SEC: u128 = 1_000_000_000;

/// The longest span that the standard library's durations reach, in nanoseconds.
pub const LONGEST_SPAN: u128 = 18_446_744_073_709_551_615_999_999_999;

/// `std::time::Instant`, a point in time that only the standard library can look into.
#[verifier::external_type_specification]
#[verifier::external_body]
pub struct ExInstant(std::time::Instant);

/// Calls `std::time::Instant::now`. Nothing is claimed of the result.
#[verifier::external_body]
fn instant_now() -> (r: std::time::Instant) {
    std::time::Instant::now()
}

/// Calls `std::time::Instant::elapsed`, and hands the duration on in nanoseconds. What is
/// claimed is the range of a `std::time::Duration`: whole seconds in a `u64`, and less than
/// a second of nanoseconds. How much time has passed is left open.
#[verifier::external_body]
fn nanos_since(origin: &std::time::Instant) -> (r: u128)
    ensures
        r <= LONGEST_SPAN,
{
    origin.elapsed().as_nanos()
}

/// A clock that counts nanoseconds from the moment it was started.
pub struct Clock {
    origin: std::time::Instant,
}

impl Clock {
    /// Whether `nanos` is something that the clock can show. Only a reading of the clock is
    /// known to be.
    pub closed spec fn can_show(&self, nanos: u128) -> bool {
        nanos <= LONGEST_SPAN
    }

    /// Starts a clock. What it will show is not known beforehand.
    pub fn start() -> (r: Clock) {
        Clock { origin: instant_now() }
    }

    /// The nanoseconds since the clock was started. How many they are is left to time.
    pub fn now(&self) -> (r: u128)
        ensures
            self.can_show(r),
            r <= LONGEST_SPAN,
    {
        nanos_since(&self.origin)
    }
}

/// The nanoseconds from `then` to `now`; 0 where `then` is later.
pub open spec fn span(now: u128, then: u128) -> int {
    if now >= then {
        now - then
    } else {
        0
    }
}

/// The whole seconds from `then` to `now`; 0 where `then` is later.
pub open spec fn seconds(now: u128, then: u128) -> int {
    span(now, then) / (NANOS_PER_SEC as int)
}

/// The nanoseconds from `then` to `now`; 0 where `then` is later.
pub fn nanos_between(now: u128, then: u128) -> (r: u128)
    ensures
        r == span(now, then),
{
    if now >= then {
        now - then
    } else {
        0
    }
}

/// The whole seconds from `then` to `now`; 0 where `then` is later.
pub fn seconds_between(now: u128, then: u128) -> (r: u128)
    ensures
        r == seconds(now, then),
{
    nanos_between(now, then) / NANOS_PER_SEC
}

/// The clocks of the system that are read.
#[derive(Clone, Copy, Debug, PartialEq, Eq, Structural)]
pub enum ClockId {
    /// The time of day.
    Realtime,
    /// Time since some moment in the past, which is never set back.
    Monotonic,
}

/// Calls `rustix::time::clock_gettime`, and hands on the seconds and the nanoseconds of
/// the reading. What is claimed is that the nanoseconds are less than a second. What the
/// clock shows is left open.
#[verifier::external_body]
fn clock_gettime(clock: ClockId) -> (r: (i64, i64))
    ensures
        0 <= r.1 < 1_000_000_000,
{
    let reading = rustix::time::clock_gettime(
        match clock {
            ClockId::Realtime => rustix::time::ClockId::Realtime,
            ClockId::Monotonic => rustix::time::ClockId::Monotonic,
        },
    );
    (reading.tv_sec, reading.tv_nsec)
}

/// A time in seconds and nanoseconds: a reading of a clock of the system, or any other.
#[derive(Clone, Copy, Debug)]
pub struct Time {
    /// The clock that this is a reading of; `None` where it is none.
    clock: Option<ClockId>,
    secs: i64,
    nsecs: i64,
}

/// How many milliseconds a day has.
pub const DAY_MS: i64 = 86_400_000;

impl Time {
    /// Whether this is a reading of `clock`. Only what `new` returns is known to be one.
    pub closed spec fn read_from(self, clock: ClockId) -> bool {
        self.clock == Some(clock)
    }

    /// The whole seconds.
    pub closed spec fn spec_secs(self) -> i64 {
        self.secs
    }

    /// The nanoseconds beyond the whole seconds.
    pub closed spec fn spec_nsecs(self) -> i64 {
        self.nsecs
    }

    /// Whether the nanoseconds are less than a second.
    pub open spec fn valid(self) -> bool {
        0 <= self.spec_nsecs() < 1_000_000_000
    }

    /// The whole milliseconds of the reading.
    pub open spec fn total_ms(self) -> int {
        self.spec_secs() * 1000 + self.spec_nsecs() as int / 1_000_000
    }

    /// The whole milliseconds of the reading, held within 0 and the largest `i64`.
    pub open spec fn held_ms(self) -> int {
        if self.total_ms() < 0 {
            0
        } else if self.total_ms() > i64::MAX {
            i64::MAX as int
        } else {
            self.total_ms()
        }
    }

    /// The milliseconds from the last midnight, universal time, to the reading.
    pub open spec fn since_midnight(self) -> int {
        self.total_ms() % (DAY_MS as int)
    }

    /// A time with the given parts, which is no reading of a clock.
    pub fn from_parts(secs: i64, nsecs: i64) -> (r: Time)
        requires
            0 <= nsecs < 1_000_000_000,
        ensures
            r.valid(),
            forall|clock: ClockId| !r.read_from(clock),
            r.spec_secs() == secs,
            r.spec_nsecs() == nsecs,
    {
        Time { clock: None, secs, nsecs }
    }

    /// Reads `clock`. What it shows is not known beforehand.
    pub fn new(clock: ClockId) -> (r: Time)
        ensures
            r.valid(),
            r.read_from(clock),
    {
        let (secs, nsecs) = clock_gettime(clock);
        Time { clock: Some(clock), secs, nsecs }
    }

    /// The whole seconds.
    pub fn secs(&self) -> (r: i64)
        ensures
            r == self.spec_secs(),
    {
        self.secs
    }

    /// The nanoseconds beyond the whole seconds.
    pub fn nsecs(&self) -> (r: i64)
        ensures
            r == self.spec_nsecs(),
    {
        self.nsecs
    }

    /// The reading in milliseconds, held within 0 and the largest `i64`.
    pub fn to_milliseconds(&self) -> (r: u64)
        requires
            self.valid(),
        ensures
            r == self.held_ms(),
    {
        let ms: i128 = self.secs as i128 * 1000 + (self.nsecs / 1_000_000) as i128;
        if ms < 0 {
            0
        } else if ms > i64::MAX as i128 {
            i64::MAX as u64
        } else {
            ms as u64
        }
    }

    /// The milliseconds since the last midnight, universal time.
    pub fn get_time_since_midnight(&self) -> (r: i64)
        requires
            self.valid(),
        ensures
            r == self.since_midnight(),
            0 <= r < DAY_MS,
    {
        let second: i64 = match self.secs.checked_rem_euclid(86_400) {
            Some(s) => s,
            None => 0,
        };
        second * 1000 + self.nsecs / 1_000_000
    }
}

} // verus!
