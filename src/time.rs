//! Event-time vocabulary: timestamps and durations as signed milliseconds.
use vstd::prelude::*;

verus! {

/// A point in event time: milliseconds since the Unix epoch.
pub type Timestamp = i64;

/// The latest representable timestamp, chrono's `DateTime::<Utc>::MAX_UTC`
/// (262142-12-31T23:59:59.999Z) in milliseconds; later instants saturate to it.
pub const MAX_TIMESTAMP: i64 = 8_210_266_876_799_999;

/// The earliest representable timestamp, chrono's `DateTime::<Utc>::MIN_UTC`
/// (-262143-01-01T00:00:00Z) in milliseconds.
pub const MIN_TIMESTAMP: i64 = -8_334_601_315_200_000;

/// A timestamp lies within the representable range.
pub open spec fn valid_timestamp(t: int) -> bool {
    MIN_TIMESTAMP <= t <= MAX_TIMESTAMP
}

/// `t` capped at the latest representable timestamp.
pub open spec fn saturate(t: int) -> int {
    if t > MAX_TIMESTAMP {
        MAX_TIMESTAMP as int
    } else {
        t
    }
}

/// Relies on `std::time::SystemTime::now` and on chrono's
/// `From<SystemTime> for DateTime<Utc>` with `DateTime::timestamp_millis`: the
/// current wall-clock instant in milliseconds, negative before the Unix epoch.
/// Every `DateTime<Utc>` lies between `DateTime::MIN_UTC` and
/// `DateTime::MAX_UTC`, whose millisecond counts bound the representable range.
#[verifier::external_body]
pub(crate) fn wall_clock_millis() -> (r: Timestamp)
    ensures
        valid_timestamp(r as int),
{
    chrono::DateTime::<chrono::Utc>::from(std::time::SystemTime::now()).timestamp_millis()
}

} // verus!
