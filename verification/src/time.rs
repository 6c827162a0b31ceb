//! UTC instants.
//!
//! [`Timestamp`] holds what the library reads of a `chrono::DateTime<Utc>`:
//! the whole seconds since the Unix epoch and the sub-second nanoseconds,
//! over `chrono`'s whole range of dates. As in `chrono`, a leap second is the
//! last second of a minute carrying `1_000_000_000..2_000_000_000`
//! nanoseconds. Elapsed time and the calendar year are computed by `chrono`.

use vstd::prelude::*;
use chrono::{DateTime, Datelike, Utc};

verus! {

/// Seconds per (non-leap) day.
pub const SECS_PER_DAY: i64 = 86_400;

/// Nanoseconds per second.
pub const NANOS_PER_SEC: u32 = 1_000_000_000;

/// Seconds since the epoch of `chrono`'s earliest instant
/// (`DateTime::<Utc>::MIN_UTC`: January 1 of the proleptic Gregorian year
/// -262143, that is 262144 BCE, at 00:00:00).
pub const MIN_TIMESTAMP_SECS: i64 = -8_334_601_228_800;

/// Seconds since the epoch of `chrono`'s latest whole second
/// (`DateTime::<Utc>::MAX_UTC`, December 31 of the year 262142).
pub const MAX_TIMESTAMP_SECS: i64 = 8_210_266_876_799;

/// The largest day count `chrono::TimeDelta::days` accepts (`i64::MAX`
/// milliseconds, in whole days).
pub const MAX_DELTA_DAYS: i64 = 106_751_991_167;

/// The proleptic Gregorian (UTC) calendar year of the instant `secs` seconds
/// after the Unix epoch: the civil date of day `secs / 86_400` (rounded
/// down), counted in 400-year eras from March 1 of the year 0, with January
/// and February belonging to the next year.
pub closed spec fn calendar_year_utc(secs: int) -> int {
    let z = secs / (SECS_PER_DAY as int) + 719_468;
    let era = z / 146_097;
    let doe = z - era * 146_097;
    let yoe = (doe - doe / 1_460 + doe / 36_524 - doe / 146_096) / 365;
    let doy = doe - (365 * yoe + yoe / 4 - yoe / 100);
    let mp = (5 * doy + 2) / 153;
    yoe + era * 400 + if mp >= 10 {
        1int
    } else {
        0int
    }
}

/// The earliest representable second opens its year: it falls in the year
/// -262143 and the second before it in the year -262144, so it is the first
/// second of January 1; the latest falls in the year 262142 and the second
/// after it in the year 262143.
pub proof fn lemma_range_ends_on_year_boundaries()
    ensures
        calendar_year_utc(MIN_TIMESTAMP_SECS as int) == -262143,
        calendar_year_utc(MIN_TIMESTAMP_SECS - 1) == -262144,
        calendar_year_utc(MAX_TIMESTAMP_SECS as int) == 262142,
        calendar_year_utc(MAX_TIMESTAMP_SECS + 1) == 262143,
{
}

/// `(secs, nanos)` is an instant `chrono` represents: `secs` within its range
/// of dates, and `nanos` below one second, or below two seconds in the last
/// second of a minute (a leap second).
pub open spec fn valid_instant(secs: int, nanos: int) -> bool {
    &&& MIN_TIMESTAMP_SECS <= secs <= MAX_TIMESTAMP_SECS
    &&& 0 <= nanos < 2 * NANOS_PER_SEC
    &&& nanos >= NANOS_PER_SEC ==> secs % 60 == 59
}

/// The second of the day of `secs` seconds after the epoch.
pub open spec fn second_of_day(secs: int) -> int {
    secs % (SECS_PER_DAY as int)
}

/// A UTC instant: `secs` whole seconds since 1970-01-01T00:00:00Z plus
/// `nanos` nanoseconds (at least one second's worth during a leap second).
#[derive(Clone, Copy, Debug, PartialEq, Eq, Structural)]
pub struct Timestamp {
    secs: i64,
    nanos: u32,
}

impl Timestamp {
    #[verifier::type_invariant]
    closed spec fn inv(self) -> bool {
        valid_instant(self.secs as int, self.nanos as int)
    }

    /// Whole seconds since the epoch.
    pub closed spec fn secs_spec(self) -> int {
        self.secs as int
    }

    /// Sub-second nanoseconds (from one second up during a leap second).
    pub closed spec fn nanos_spec(self) -> int {
        self.nanos as int
    }

    /// A key that orders instants as `chrono` does: by whole seconds, then by
    /// nanoseconds.
    pub open spec fn order_key(self) -> int {
        self.secs_spec() * (2 * NANOS_PER_SEC) + self.nanos_spec()
    }

    /// `self` is strictly earlier than `other`.
    pub open spec fn before(self, other: Timestamp) -> bool {
        self.order_key() < other.order_key()
    }

    /// The UTC calendar year of the instant.
    pub open spec fn year_spec(self) -> int {
        calendar_year_utc(self.secs_spec())
    }

    /// Nanoseconds elapsed from `from` to `to`, as `chrono` measures them
    /// (negative when `to` is earlier): the difference of the seconds and
    /// nanoseconds, plus one second when `to` is later in its day than
    /// `from` and `from` is a leap second, minus one when `to` is earlier in
    /// its day than `from` and `to` is a leap second.
    pub open spec fn elapsed_nanos(from: Timestamp, to: Timestamp) -> int {
        let f = second_of_day(from.secs_spec());
        let t = second_of_day(to.secs_spec());
        let adjust = if t > f && from.nanos_spec() >= NANOS_PER_SEC {
            1int
        } else if t < f && to.nanos_spec() >= NANOS_PER_SEC {
            -1int
        } else {
            0int
        };
        (to.secs_spec() - from.secs_spec() + adjust) * NANOS_PER_SEC + to.nanos_spec() - from.nanos_spec()
    }

    /// More than `days` whole days elapsed from `from` to `to`.
    pub open spec fn held_more_than(from: Timestamp, to: Timestamp, days: int) -> bool {
        Self::elapsed_nanos(from, to) > days * SECS_PER_DAY * NANOS_PER_SEC
    }

    /// The instant `secs` seconds and `nanos` nanoseconds after the epoch, or
    /// `None` when `chrono` cannot represent it (see [`valid_instant`]).
    pub fn from_unix(secs: i64, nanos: u32) -> (r: Option<Timestamp>)
        ensures
            r is Some <==> valid_instant(secs as int, nanos as int),
            r matches Some(t) ==> t.secs_spec() == secs && t.nanos_spec() == nanos,
    {
        if MIN_TIMESTAMP_SECS <= secs && secs <= MAX_TIMESTAMP_SECS && nanos < 2 * NANOS_PER_SEC {
            let shifted: u64 = (secs as i128 + 9_000_000_000_000_000i128) as u64;
            proof {
                assert((secs + 9_000_000_000_000_000int) % 60 == secs % 60);
            }
            if nanos < NANOS_PER_SEC || shifted % 60 == 59 {
                return Some(Timestamp { secs, nanos });
            }
        }
        None
    }

    /// Whole seconds since the epoch.
    pub fn unix_seconds(&self) -> (r: i64)
        ensures
            r == self.secs_spec(),
            MIN_TIMESTAMP_SECS <= r <= MAX_TIMESTAMP_SECS,
    {
        proof {
            use_type_invariant(self);
        }
        self.secs
    }

    /// Sub-second nanoseconds (from `1_000_000_000` up during a leap second).
    pub fn subsec_nanos(&self) -> (r: u32)
        ensures
            r == self.nanos_spec(),
            r < 2 * NANOS_PER_SEC,
            r >= NANOS_PER_SEC ==> self.secs_spec() % 60 == 59,
    {
        proof {
            use_type_invariant(self);
        }
        self.nanos
    }

    /// `self` is strictly earlier than `other`.
    pub fn is_before(&self, other: &Timestamp) -> (r: bool)
        ensures
            r == self.before(*other),
    {
        let a = self.unix_seconds();
        let b = other.unix_seconds();
        let an = self.subsec_nanos();
        let bn = other.subsec_nanos();
        proof {
            lemma_nanos_order(a as int, an as int, b as int, bn as int);
        }
        a < b || (a == b && an < bn)
    }

    /// `self` and `other` are the same instant.
    pub fn is_same_instant(&self, other: &Timestamp) -> (r: bool)
        ensures
            r == (self.order_key() == other.order_key()),
    {
        let a = self.unix_seconds();
        let b = other.unix_seconds();
        let an = self.subsec_nanos();
        let bn = other.subsec_nanos();
        proof {
            lemma_nanos_order(a as int, an as int, b as int, bn as int);
        }
        a == b && an == bn
    }

    /// The UTC calendar year of the instant, as `chrono` computes it.
    pub fn year(&self) -> (r: i32)
        ensures
            r == self.year_spec(),
    {
        proof {
            use_type_invariant(self);
        }
        utc_year(*self)
    }

    /// More than `days` whole days elapsed from `from` to `to`, as
    /// `to - from > TimeDelta::days(days)` decides it.
    pub fn held_longer_than(from: &Timestamp, to: &Timestamp, days: i64) -> (r: bool)
        requires
            -MAX_DELTA_DAYS <= days <= MAX_DELTA_DAYS,
        ensures
            r == Self::held_more_than(*from, *to, days as int),
    {
        proof {
            use_type_invariant(from);
            use_type_invariant(to);
        }
        let (secs, nanos) = elapsed_between(*from, *to);
        let threshold: i128 = (days as i128) * (SECS_PER_DAY as i128);
        let total: i128 = (secs as i128) * 1_000_000_000i128 + (nanos as i128);
        let limit: i128 = threshold * 1_000_000_000i128;
        total > limit
    }
}

/// Instants compare by whole seconds first, then by nanoseconds.
proof fn lemma_nanos_order(a: int, an: int, b: int, bn: int)
    requires
        0 <= an < 2_000_000_000,
        0 <= bn < 2_000_000_000,
    ensures
        a < b ==> a * 2_000_000_000 + an < b * 2_000_000_000 + bn,
        a > b ==> a * 2_000_000_000 + an > b * 2_000_000_000 + bn,
{
    assert(a < b ==> a * 2_000_000_000 + an < b * 2_000_000_000 + bn) by (nonlinear_arith)
        requires
            an < 2_000_000_000,
            bn >= 0,
    ;
    assert(a > b ==> a * 2_000_000_000 + an > b * 2_000_000_000 + bn) by (nonlinear_arith)
        requires
            an >= 0,
            bn < 2_000_000_000,
    ;
}

/// `DateTime::from_timestamp(secs, nanos)` then `Datelike::year`: the
/// proleptic Gregorian year of the instant's UTC date.
#[verifier::external_body]
fn utc_year(t: Timestamp) -> (r: i32)
    requires
        valid_instant(t.secs as int, t.nanos as int),
    ensures
        r == calendar_year_utc(t.secs as int),
{
    DateTime::<Utc>::from_timestamp(t.secs, t.nanos).unwrap().year()
}

/// `DateTime::signed_duration_since` of two instants, read back as
/// `(num_seconds, subsec_nanos)`: the difference of the dates in days plus
/// `NaiveTime::signed_duration_since` of the times of day, which counts a
/// leap second only when the later time of day lies past it (see
/// [`Timestamp::elapsed_nanos`]); it never overflows.
#[verifier::external_body]
fn elapsed_between(from: Timestamp, to: Timestamp) -> (r: (i64, i32))
    requires
        valid_instant(from.secs as int, from.nanos as int),
        valid_instant(to.secs as int, to.nanos as int),
    ensures
        r.0 * 1_000_000_000int + r.1 == Timestamp::elapsed_nanos(from, to),
        -1_000_000_000 < r.1 < 1_000_000_000,
{
    let a = DateTime::<Utc>::from_timestamp(from.secs, from.nanos).unwrap();
    let b = DateTime::<Utc>::from_timestamp(to.secs, to.nanos).unwrap();
    let d = b.signed_duration_since(a);
    (d.num_seconds(), d.subsec_nanos())
}

} // verus!
