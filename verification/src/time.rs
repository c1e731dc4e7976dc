//! Points in time, spans between them, and waiting times.
//!
//! A [`Timestamp`] holds the seconds and nanoseconds of a UTC date and time,
//! within the range of the `chrono` crate; calendar work is left to `chrono`.

use chrono::{DateTime, TimeDelta, Utc};
use vstd::prelude::*;

verus! {

/// First second of the earliest representable date (1 January of year -262143).
pub const MIN_SECONDS: i64 = -8_334_601_228_800;

/// Last second of the latest representable date (31 December of year 262142).
pub const MAX_SECONDS: i64 = 8_210_266_876_799;

/// Seconds since the Unix epoch and the nanoseconds on top of them. A leap second
/// is the last second of a minute with a billion or more nanoseconds.
pub struct TimestampView {
    pub secs: int,
    pub nanos: int,
}

pub open spec fn valid_parts(secs: int, nanos: int) -> bool {
    &&& MIN_SECONDS <= secs <= MAX_SECONDS
    &&& 0 <= nanos < 2_000_000_000
    &&& nanos >= 1_000_000_000 ==> secs % 60 == 59
}

/// Whether a clock can show this moment: it is in range and not inside a leap second.
pub open spec fn is_clock_time(at: TimestampView) -> bool {
    valid_parts(at.secs, at.nanos) && at.nanos < 1_000_000_000
}

/// Whether `a` is the same instant as `b` or a later one.
pub open spec fn at_or_after(a: TimestampView, b: TimestampView) -> bool {
    a.secs > b.secs || (a.secs == b.secs && a.nanos >= b.nanos)
}

/// Nanoseconds from `earlier` to `later`. A leap second that only one end lies in
/// counts when the time of day of that end comes first.
pub open spec fn elapsed(later: TimestampView, earlier: TimestampView) -> int {
    let leap: int = if later.secs % 86_400 > earlier.secs % 86_400 && earlier.nanos
        >= 1_000_000_000 {
        1
    } else if later.secs % 86_400 < earlier.secs % 86_400 && later.nanos >= 1_000_000_000 {
        -1
    } else {
        0
    };
    (later.secs - earlier.secs + leap) * 1_000_000_000 + (later.nanos - earlier.nanos)
}

/// A moment in UTC.
#[derive(Debug, Clone, Copy, PartialEq, Eq, Hash, Structural)]
pub struct Timestamp {
    secs: i64,
    nanos: u32,
}

impl View for Timestamp {
    type V = TimestampView;

    closed spec fn view(&self) -> TimestampView {
        TimestampView { secs: self.secs as int, nanos: self.nanos as int }
    }
}

/// A signed span of time, to the nanosecond.
#[derive(Debug, Clone, Copy, PartialEq, Eq, Hash, Structural)]
pub struct TimeSpan {
    secs: i64,
    nanos: u32,
}

impl View for TimeSpan {
    type V = int;

    /// The length in nanoseconds.
    closed spec fn view(&self) -> int {
        self.secs * 1_000_000_000 + self.nanos
    }
}

/// The longest span in either direction, in nanoseconds.
pub open spec fn span_limit() -> int {
    i64::MAX * 1_000_000
}

/// A non-negative waiting time in nanoseconds.
#[derive(Debug, Clone, Copy, PartialEq, Eq, PartialOrd, Ord, Hash, Structural)]
pub struct Delay {
    pub nanos: u128,
}

/// The current time as seconds and nanoseconds since the Unix epoch:
/// `chrono::Utc::now`. Every moment the clock gives is within chrono's range and
/// never inside a leap second. A clock set before 1970 makes chrono panic.
#[verifier::external_body]
fn clock_parts() -> (r: (i64, u32))
    ensures
        valid_parts(r.0 as int, r.1 as int),
        r.1 < 1_000_000_000,
{
    let now = Utc::now();
    (now.timestamp(), now.timestamp_subsec_nanos())
}

/// What chrono's parser reads from a date and time in the relaxed form of
/// RFC 3339: seconds and nanoseconds, or the text of its error.
pub uninterp spec fn parsed_timestamp(text: Seq<char>) -> Result<(i64, u32), Seq<char>>;

/// Parse a date and time with `<DateTime<Utc> as FromStr>::from_str` of chrono. The
/// result is named by `parsed_timestamp`; a date that parses is within chrono's
/// range.
#[verifier::external_body]
fn parse_parts(text: &str) -> (r: Result<(i64, u32), String>)
    ensures
        match r {
            Ok(parts) => parsed_timestamp(text@) == Ok::<(i64, u32), Seq<char>>(parts)
                && valid_parts(parts.0 as int, parts.1 as int),
            Err(error) => parsed_timestamp(text@) == Err::<(i64, u32), Seq<char>>(error@),
        },
{
    match text.parse::<DateTime<Utc>>() {
        Ok(at) => Ok((at.timestamp(), at.timestamp_subsec_nanos())),
        Err(error) => Err(error.to_string()),
    }
}

/// The difference of two moments, as chrono's `DateTime - DateTime` gives it in
/// whole seconds and the nanoseconds left over (both of the sign of the whole).
#[verifier::external_body]
fn difference_parts(later: (i64, u32), earlier: (i64, u32)) -> (r: (i64, i32))
    requires
        valid_parts(later.0 as int, later.1 as int),
        valid_parts(earlier.0 as int, earlier.1 as int),
    ensures
        r.0 * 1_000_000_000 + r.1 == elapsed(
            TimestampView { secs: later.0 as int, nanos: later.1 as int },
            TimestampView { secs: earlier.0 as int, nanos: earlier.1 as int },
        ),
        -1_000_000_000 < r.1 < 1_000_000_000,
{
    let to = DateTime::from_timestamp(later.0, later.1).unwrap();
    let from = DateTime::from_timestamp(earlier.0, earlier.1).unwrap();
    let span = to - from;
    (span.num_seconds(), span.subsec_nanos())
}

/// A span of whole seconds: chrono's `TimeDelta::try_seconds`, which gives `None`
/// beyond `i64::MAX / 1000` seconds in either direction.
#[verifier::external_body]
fn seconds_parts(secs: i64) -> (r: Option<(i64, i32)>)
    ensures
        r == if -9_223_372_036_854_775 <= secs <= 9_223_372_036_854_775 {
            Some((secs, 0i32))
        } else {
            None
        },
{
    TimeDelta::try_seconds(secs).map(|span| (span.num_seconds(), span.subsec_nanos()))
}

/// A moment moved back by a span, with chrono's `DateTime::checked_sub_signed`. From
/// a moment outside leap seconds the result is the plain difference, and `None` when
/// that lies outside chrono's range.
#[verifier::external_body]
fn moved_back_parts(at: (i64, u32), span: (i64, u32)) -> (r: Option<(i64, u32)>)
    requires
        valid_parts(at.0 as int, at.1 as int),
        at.1 < 1_000_000_000,
        span.1 < 1_000_000_000,
        -span_limit() <= span.0 * 1_000_000_000 + span.1 <= span_limit(),
    ensures
        match r {
            Some(parts) => valid_parts(parts.0 as int, parts.1 as int) && parts.1 < 1_000_000_000
                && parts.0 * 1_000_000_000 + parts.1 == (at.0 * 1_000_000_000 + at.1) - (span.0
                * 1_000_000_000 + span.1),
            None => {
                let target = (at.0 * 1_000_000_000 + at.1) - (span.0 * 1_000_000_000 + span.1);
                target < MIN_SECONDS * 1_000_000_000 || target >= (MAX_SECONDS + 1) * 1_000_000_000
            },
        },
{
    let from = DateTime::<Utc>::from_timestamp(at.0, at.1).unwrap();
    let by = TimeDelta::new(span.0, span.1).unwrap();
    from.checked_sub_signed(by).map(|to| (to.timestamp(), to.timestamp_subsec_nanos()))
}

impl Timestamp {
    #[verifier::type_invariant]
    spec fn in_range(self) -> bool {
        valid_parts(self.secs as int, self.nanos as int)
    }

    /// The moment `secs` seconds and `nanos` nanoseconds after the Unix epoch, when
    /// it can be represented.
    pub fn new(secs: i64, nanos: u32) -> (r: Option<Timestamp>)
        ensures
            r is Some <==> valid_parts(secs as int, nanos as int),
            r matches Some(at) ==> at@ == (TimestampView { secs: secs as int, nanos: nanos as int }),
    {
        if secs < MIN_SECONDS || secs > MAX_SECONDS || nanos >= 2_000_000_000 {
            return None;
        }
        if nanos >= 1_000_000_000 {
            let offset: u64 = (secs - MIN_SECONDS) as u64;
            if offset % 60 != 59 {
                return None;
            }
        }
        Some(Timestamp { secs, nanos })
    }

    /// The current moment.
    pub fn now() -> (r: Timestamp)
        ensures
            is_clock_time(r@),
    {
        let parts = clock_parts();
        Timestamp { secs: parts.0, nanos: parts.1 }
    }

    /// Read a date and time such as `2026-06-01T00:00:00Z`.
    pub fn parse(text: &str) -> (r: Result<Timestamp, String>)
        ensures
            match r {
                Ok(at) => parsed_timestamp(text@) is Ok && at@ == (TimestampView {
                    secs: parsed_timestamp(text@)->Ok_0.0 as int,
                    nanos: parsed_timestamp(text@)->Ok_0.1 as int,
                }),
                Err(error) => parsed_timestamp(text@) == Err::<(i64, u32), Seq<char>>(error@),
            },
    {
        match parse_parts(text) {
            Ok(parts) => Ok(Timestamp { secs: parts.0, nanos: parts.1 }),
            Err(error) => Err(error),
        }
    }

    /// Whole seconds since the Unix epoch.
    pub fn seconds(&self) -> (r: i64)
        ensures
            r == self@.secs,
    {
        self.secs
    }

    /// Nanoseconds on top of the whole seconds.
    pub fn subsec_nanos(&self) -> (r: u32)
        ensures
            r == self@.nanos,
    {
        self.nanos
    }

    /// Whether this moment is `other` or later.
    pub fn at_or_after(&self, other: &Timestamp) -> (r: bool)
        ensures
            r == at_or_after(self@, other@),
    {
        self.secs > other.secs || (self.secs == other.secs && self.nanos >= other.nanos)
    }

    /// The span from `earlier` to this moment; negative when `earlier` is later.
    pub fn since(&self, earlier: &Timestamp) -> (r: TimeSpan)
        ensures
            r@ == elapsed(self@, earlier@),
    {
        proof {
            use_type_invariant(self);
            use_type_invariant(earlier);
        }
        let parts = difference_parts((self.secs, self.nanos), (earlier.secs, earlier.nanos));
        if parts.1 < 0 {
            TimeSpan { secs: parts.0 - 1, nanos: (parts.1 + 1_000_000_000) as u32 }
        } else {
            TimeSpan { secs: parts.0, nanos: parts.1 as u32 }
        }
    }

    /// Whether `span` before this moment is still representable.
    pub open spec fn reaches_back(at: TimestampView, span: int) -> bool {
        let target = at.secs * 1_000_000_000 + at.nanos - span;
        MIN_SECONDS * 1_000_000_000 <= target < (MAX_SECONDS + 1) * 1_000_000_000
    }

    /// The moment `span` before this one, when it can be represented.
    pub fn minus(&self, span: &TimeSpan) -> (r: Option<Timestamp>)
        requires
            self@.nanos < 1_000_000_000,
        ensures
            r is Some <==> Timestamp::reaches_back(self@, span@),
            r matches Some(at) ==> 0 <= at@.nanos < 1_000_000_000 && at@.secs * 1_000_000_000
                + at@.nanos == self@.secs * 1_000_000_000 + self@.nanos - span@,
    {
        proof {
            use_type_invariant(self);
            use_type_invariant(span);
        }
        match moved_back_parts((self.secs, self.nanos), (span.secs, span.nanos)) {
            Some(parts) => Some(Timestamp { secs: parts.0, nanos: parts.1 }),
            None => None,
        }
    }
}

impl TimeSpan {
    #[verifier::type_invariant]
    spec fn in_range(self) -> bool {
        &&& self.nanos < 1_000_000_000
        &&& -span_limit() <= self.secs * 1_000_000_000 + self.nanos <= span_limit()
    }

    /// A span of whole seconds, when it is within the limit.
    pub fn seconds(secs: i64) -> (r: Option<TimeSpan>)
        ensures
            r is Some <==> -span_limit() <= secs * 1_000_000_000 <= span_limit(),
            r matches Some(span) ==> span@ == secs * 1_000_000_000,
    {
        match seconds_parts(secs) {
            Some(parts) => Some(TimeSpan { secs: parts.0, nanos: 0 }),
            None => None,
        }
    }

    /// Whether this span is longer than `other`.
    pub fn exceeds(&self, other: &TimeSpan) -> (r: bool)
        ensures
            r == (self@ > other@),
    {
        proof {
            use_type_invariant(self);
            use_type_invariant(other);
        }
        self.secs > other.secs || (self.secs == other.secs && self.nanos > other.nanos)
    }

    /// The span as a waiting time, unless it is negative.
    pub fn to_delay(&self) -> (r: Option<Delay>)
        ensures
            r is Some <==> self@ >= 0,
            r matches Some(delay) ==> delay.nanos == self@,
    {
        proof {
            use_type_invariant(self);
        }
        if self.secs < 0 {
            None
        } else {
            Some(Delay { nanos: self.secs as u128 * 1_000_000_000 + self.nanos as u128 })
        }
    }
}

impl Delay {
    /// `millis` milliseconds.
    pub fn from_millis(millis: u64) -> (r: Delay)
        ensures
            r.nanos == millis * 1_000_000,
    {
        Delay { nanos: millis as u128 * 1_000_000 }
    }

    /// `secs` seconds.
    pub fn from_secs(secs: u64) -> (r: Delay)
        ensures
            r.nanos == secs * 1_000_000_000,
    {
        Delay { nanos: secs as u128 * 1_000_000_000 }
    }
}

/// Moments are totally ordered.
pub proof fn law_moments_are_totally_ordered(a: TimestampView, b: TimestampView, c: TimestampView)
    ensures
        at_or_after(a, a),
        at_or_after(a, b) || at_or_after(b, a),
        at_or_after(a, b) && at_or_after(b, a) ==> a == b,
        at_or_after(a, b) && at_or_after(b, c) ==> at_or_after(a, c),
{
}

/// Outside leap seconds the order is that of the nanoseconds since the epoch, and the time
/// elapsed is their difference.
pub proof fn law_clock_times_are_counted_in_nanoseconds(a: TimestampView, b: TimestampView)
    requires
        0 <= a.nanos < 1_000_000_000,
        0 <= b.nanos < 1_000_000_000,
    ensures
        at_or_after(a, b) <==> a.secs * 1_000_000_000 + a.nanos >= b.secs * 1_000_000_000 + b.nanos,
        elapsed(a, b) == (a.secs * 1_000_000_000 + a.nanos) - (b.secs * 1_000_000_000 + b.nanos),
{
}

/// The time elapsed between two moments is the same in both directions, but for its sign,
/// and nothing elapses between a moment and itself.
pub proof fn law_elapsed_time_is_antisymmetric(a: TimestampView, b: TimestampView)
    ensures
        elapsed(a, b) == -elapsed(b, a),
        elapsed(a, a) == 0,
{
}

/// Which seconds and nanoseconds make a moment: those within chrono's range, with less than a
/// second of nanoseconds, or less than two in the last second of a minute.
pub proof fn law_moments_are_in_range(secs: int, nanos: int)
    ensures
        0 <= nanos < 1_000_000_000 ==> (valid_parts(secs, nanos) <==> -8_334_601_228_800 <= secs
            <= 8_210_266_876_799),
        1_000_000_000 <= nanos < 2_000_000_000 ==> (valid_parts(secs, nanos) <==> valid_parts(
            secs,
            0,
        ) && (secs + 1) % 60 == 0),
        nanos < 0 || nanos >= 2_000_000_000 ==> !valid_parts(secs, nanos),
        is_clock_time(TimestampView { secs, nanos }) <==> valid_parts(secs, nanos) && nanos
            < 1_000_000_000,
        span_limit() == 9_223_372_036_854_775_807 * 1_000_000,
{
}

} // verus!
