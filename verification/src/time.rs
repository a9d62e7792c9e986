//! APFS timestamps.
//!
//! Every APFS timestamp is a 64-bit count of nanoseconds since the Unix epoch
//! (1970-01-01 00:00 UTC), disregarding leap seconds. This module decodes that
//! value and converts it to the date-time types of `chrono` and `time`.

use vstd::prelude::*;

verus! {

/// Nanoseconds per second.
pub const NANOS_PER_SEC: u64 = 1_000_000_000;

/// The `chrono` date-time type without a time zone.
#[verifier::external_type_specification]
#[verifier::external_body]
pub struct ExNaiveDateTime(chrono::NaiveDateTime);

/// The `time` date-time type.
#[verifier::external_type_specification]
#[verifier::external_body]
pub struct ExOffsetDateTime(time::OffsetDateTime);

/// The `chrono` date-time, in UTC, at `secs` seconds and `nanos` nanoseconds after the
/// Unix epoch.
pub uninterp spec fn chrono_at(secs: i64, nanos: u32) -> Option<chrono::NaiveDateTime>;

/// The `time` date-time at `nanos` nanoseconds after the Unix epoch.
pub uninterp spec fn offset_date_time_at(nanos: i128) -> Option<time::OffsetDateTime>;

/// Makes a `chrono` date-time with `DateTime::from_timestamp` and takes its UTC
/// reading with `DateTime::naive_utc`.
///
/// The result is a function of the arguments. There is one for every whole
/// second of the first thousand years after the epoch, with any nanosecond
/// within it.
#[verifier::external_body]
fn chrono_date_time(secs: i64, nanos: u32) -> (date: Option<chrono::NaiveDateTime>)
    ensures
        date == chrono_at(secs, nanos),
        0 <= secs < 31_536_000_000 && nanos < NANOS_PER_SEC ==> date is Some,
{
    chrono::DateTime::from_timestamp(secs, nanos).map(|date| date.naive_utc())
}

/// Makes a `time` date-time with `OffsetDateTime::from_unix_timestamp_nanos`.
///
/// The result is a function of the argument. There is one for every nanosecond
/// of the first thousand years after the epoch.
#[verifier::external_body]
fn offset_date_time(nanos: i128) -> (date: Option<time::OffsetDateTime>)
    ensures
        date == offset_date_time_at(nanos),
        0 <= nanos < 31_536_000_000_000_000_000 ==> date is Some,
{
    time::OffsetDateTime::from_unix_timestamp_nanos(nanos).ok()
}

/// An APFS timestamp: nanoseconds since the Unix epoch.
#[derive(Debug, Clone, Copy, PartialEq, Eq, PartialOrd, Ord, Hash, Structural)]
pub struct ApfsTimestamp(pub u64);

impl ApfsTimestamp {
    /// The raw nanoseconds-since-epoch value.
    #[must_use]
    pub fn nanos(self) -> (nanos: u64)
        ensures
            nanos == self.0,
    {
        self.0
    }

    /// Whole seconds since the Unix epoch.
    #[must_use]
    pub fn as_secs(self) -> (secs: u64)
        ensures
            secs == self.0 / NANOS_PER_SEC,
    {
        self.0 / NANOS_PER_SEC
    }

    /// The sub-second part, in nanoseconds (`0..1_000_000_000`).
    #[must_use]
    pub fn subsec_nanos(self) -> (nanos: u32)
        ensures
            nanos == self.0 % NANOS_PER_SEC,
    {
        (self.0 % NANOS_PER_SEC) as u32
    }

    /// Whether the timestamp is unset (the epoch itself).
    #[must_use]
    pub fn is_zero(self) -> (zero: bool)
        ensures
            zero == (self.0 == 0),
    {
        self.0 == 0
    }

    /// Converts the timestamp to a `chrono` date-time, read in UTC.
    ///
    /// Every timestamp is in `chrono`'s representable range.
    #[must_use]
    pub fn to_chrono(self) -> (date: Option<chrono::NaiveDateTime>)
        ensures
            date == chrono_at((self.0 / NANOS_PER_SEC) as i64, (self.0 % NANOS_PER_SEC) as u32),
            date is Some,
    {
        chrono_date_time(self.as_secs() as i64, self.subsec_nanos())
    }

    /// Converts the timestamp to a `time` UTC offset date-time.
    ///
    /// Every timestamp is in `time`'s representable range.
    #[must_use]
    pub fn to_time(self) -> (date: Option<time::OffsetDateTime>)
        ensures
            date == offset_date_time_at(self.0 as i128),
            date is Some,
    {
        offset_date_time(self.0 as i128)
    }
}

impl vstd::std_specs::convert::FromSpecImpl<u64> for ApfsTimestamp {
    open spec fn obeys_from_spec() -> bool {
        true
    }

    open spec fn from_spec(nanos: u64) -> ApfsTimestamp {
        ApfsTimestamp(nanos)
    }
}

impl From<u64> for ApfsTimestamp {
    fn from(nanos: u64) -> (timestamp: ApfsTimestamp) {
        ApfsTimestamp(nanos)
    }
}

/// A timestamp is its whole seconds and its sub-second nanoseconds together.
pub proof fn law_timestamp_parts(timestamp: ApfsTimestamp)
    ensures
        timestamp.0 == timestamp.0 / NANOS_PER_SEC * NANOS_PER_SEC + timestamp.0 % NANOS_PER_SEC,
        timestamp.0 % NANOS_PER_SEC < NANOS_PER_SEC,
{
}

} // verus!
