//! Timestamps and their conversion from and to dates.

use chrono::FixedOffset;
use chrono::LocalResult;
use chrono::TimeZone;
use chrono::Utc;
use vstd::prelude::*;

verus! {

/// The second at which the range of dates begins, counted from the Unix epoch.
pub const MIN_SECS: i64 = -8_334_601_228_800;

/// The last second in the range of dates, counted from the Unix epoch.
pub const MAX_SECS: i64 = 8_210_266_876_799;

/// A timestamp does not fall in the range of dates.
#[derive(Clone, Copy, Debug, PartialEq, Eq, Structural)]
pub struct TimestampOutOfRange;

/// The number of milliseconds since the Unix epoch.
#[derive(Hash, Debug, PartialEq, Eq, Structural, Clone, Copy, PartialOrd, Ord)]
pub struct MillisSinceEpoch(pub i64);

/// A timestamp with millisecond precision and a time zone offset.
#[derive(Hash, Debug, PartialEq, Eq, Structural, Clone, Copy, PartialOrd, Ord)]
pub struct Timestamp {
    /// The number of milliseconds since the Unix epoch.
    pub timestamp: MillisSinceEpoch,
    /// Timezone offset in minutes
    pub tz_offset: i32,
}

/// A date and time of day, with its offset from UTC.
#[derive(Hash, Debug, PartialEq, Eq, Structural, Clone, Copy)]
pub struct DateTime {
    /// Seconds since the Unix epoch, leap seconds not counted.
    pub secs: i64,
    /// Nanoseconds since that second. In a leap second they go on past a
    /// second's worth.
    pub nanos: u32,
    /// Local time minus UTC, in seconds.
    pub offset: i32,
}

impl DateTime {
    /// Whether this is a date in range, with an offset of less than a day.
    pub open spec fn valid(self) -> bool {
        &&& MIN_SECS <= self.secs <= MAX_SECS
        &&& self.nanos < 2_000_000_000
        &&& -86_400 < self.offset < 86_400
    }
}

/// Calls `TimeZone::timestamp_opt` on chrono's `Utc`: for a number of
/// nanoseconds within a second, it is the date with these seconds and
/// nanoseconds since the Unix epoch, if the seconds fall in the range of dates.
#[verifier::external_body]
fn utc_timestamp_opt(secs: i64, nanos: u32) -> (r: Option<(i64, u32)>)
    requires
        nanos < 1_000_000_000,
    ensures
        r == (if MIN_SECS <= secs <= MAX_SECS {
            Some((secs, nanos))
        } else {
            None
        }),
{
    match Utc.timestamp_opt(secs, nanos) {
        LocalResult::None => None,
        LocalResult::Single(x) => Some((x.timestamp(), x.timestamp_subsec_nanos())),
        LocalResult::Ambiguous(y, _z) => Some((y.timestamp(), y.timestamp_subsec_nanos())),
    }
}

/// Calls `FixedOffset::east_opt` of chrono: the offset, if it is less than a
/// day.
#[verifier::external_body]
fn east_opt(secs: i32) -> (r: Option<i32>)
    ensures
        r == (if -86_400 < secs < 86_400 {
            Some(secs)
        } else {
            None
        }),
{
    FixedOffset::east_opt(secs).map(|offset| offset.local_minus_utc())
}

/// Calls `Local::now` of chrono: the current time with the local offset. Which
/// time that is cannot be said, only that it is a valid date.
#[verifier::external_body]
fn local_now() -> (r: DateTime)
    ensures
        r.valid(),
{
    let now = chrono::offset::Local::now();
    DateTime {
        secs: now.timestamp(),
        nanos: now.timestamp_subsec_nanos(),
        offset: now.offset().local_minus_utc(),
    }
}

/// The quotient of the division, rounded towards zero.
pub open spec fn truncated_quotient(a: int, b: int) -> int {
    if a >= 0 {
        a / b
    } else {
        -(-a / b)
    }
}

/// The timestamp of a date: whole milliseconds, and the offset in minutes
/// rounded towards UTC.
pub open spec fn timestamp_of(datetime: DateTime) -> Timestamp {
    Timestamp {
        timestamp: MillisSinceEpoch((datetime.secs * 1000 + datetime.nanos / 1_000_000) as i64),
        tz_offset: truncated_quotient(datetime.offset as int, 60) as i32,
    }
}

/// Whether the seconds of `timestamp` fall in the range of dates.
pub open spec fn in_range(timestamp: Timestamp) -> bool {
    MIN_SECS <= timestamp.timestamp.0 as int / 1000 <= MAX_SECS
}

/// The date of a timestamp. An offset of a day or more counts as none.
pub open spec fn datetime_of(timestamp: Timestamp) -> DateTime {
    let offset = timestamp.tz_offset * 60;
    DateTime {
        secs: (timestamp.timestamp.0 as int / 1000) as i64,
        nanos: ((timestamp.timestamp.0 as int % 1000) * 1_000_000) as u32,
        offset: if -86_400 < offset < 86_400 {
            offset as i32
        } else {
            0
        },
    }
}

impl Timestamp {
    /// Returns the current local time as a `Timestamp`.
    pub fn now() -> (r: Self)
        ensures
            exists|datetime: DateTime| datetime.valid() && r == #[trigger] timestamp_of(datetime),
    {
        Self::from_datetime(local_now())
    }

    /// Creates a `Timestamp` from the given `DateTime`.
    pub fn from_datetime(datetime: DateTime) -> (r: Self)
        requires
            datetime.valid(),
        ensures
            r == timestamp_of(datetime),
    {
        let millis = datetime.secs * 1000 + (datetime.nanos / 1_000_000) as i64;
        let minutes = if datetime.offset >= 0 {
            datetime.offset / 60
        } else {
            -((-datetime.offset) / 60)
        };
        Timestamp { timestamp: MillisSinceEpoch(millis), tz_offset: minutes }
    }

    /// Converts this `Timestamp` to a `DateTime`.
    pub fn to_datetime(&self) -> (r: Result<DateTime, TimestampOutOfRange>)
        requires
            i32::MIN <= self.tz_offset * 60 <= i32::MAX,
        ensures
            r == (if in_range(*self) {
                Ok(datetime_of(*self))
            } else {
                Err(TimestampOutOfRange)
            }),
    {
        let millis = self.timestamp.0;
        let secs = millis.checked_div_euclid(1000).unwrap();
        let rest = millis.checked_rem_euclid(1000).unwrap();
        let (secs, nanos) = match utc_timestamp_opt(secs, rest as u32 * 1_000_000) {
            None => return Err(TimestampOutOfRange),
            Some(utc) => utc,
        };
        let offset = match east_opt(self.tz_offset * 60) {
            Some(offset) => offset,
            None => 0,
        };
        Ok(DateTime { secs, nanos, offset })
    }
}

/// A timestamp comes back from its date, if it is in range and its offset is
/// less than a day. A larger offset comes back as none.
pub proof fn law_timestamp_round_trip(timestamp: Timestamp)
    requires
        in_range(timestamp),
        i32::MIN <= timestamp.tz_offset * 60 <= i32::MAX,
    ensures
        datetime_of(timestamp).valid(),
        timestamp_of(datetime_of(timestamp)).timestamp == timestamp.timestamp,
        timestamp_of(datetime_of(timestamp)).tz_offset == (if -1440 < timestamp.tz_offset < 1440 {
            timestamp.tz_offset
        } else {
            0
        }),
{
}

} // verus!
