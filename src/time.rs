use vstd::prelude::*;

verus! {

/// A point in time as whole seconds since the Unix epoch, UTC.
pub type ServerTime = i64;

/// The earliest Unix timestamp with a date-time: -262143-01-01T00:00:00Z.
pub const MIN_TIMESTAMP: i64 = -8334601228800;

/// The latest Unix timestamp with a date-time: +262142-12-31T23:59:59Z.
pub const MAX_TIMESTAMP: i64 = 8210266876799;

/// Relies on `chrono::DateTime::from_timestamp`: `None` for a timestamp
/// outside the range of dates from year -262143 to year 262142, otherwise
/// the date-time, whose `timestamp` gives the seconds back.
#[verifier::external_body]
fn checked_timestamp(secs: i64) -> (r: Option<i64>)
    ensures
        r == (if MIN_TIMESTAMP <= secs <= MAX_TIMESTAMP {
            Some(secs)
        } else {
            None
        }),
{
    chrono::DateTime::from_timestamp(secs, 0).map(|t| t.timestamp())
}

/// The [`ServerTime`] of a Unix timestamp: the timestamp itself where a
/// date-time exists for it, the epoch otherwise.
pub open spec fn server_time(t: i64) -> ServerTime {
    if MIN_TIMESTAMP <= t <= MAX_TIMESTAMP {
        t
    } else {
        0
    }
}

/// Converts a Unix timestamp to a [`ServerTime`].
pub fn timestamp_to_server_time(timestamp: i64) -> (r: ServerTime)
    ensures
        r == server_time(timestamp),
{
    match checked_timestamp(timestamp) {
        Some(t) => t,
        None => 0,
    }
}

/// Relies on chrono's `From<SystemTime> for DateTime<Utc>`: the current time
/// of the system clock, negative for a clock set before the epoch.
#[verifier::external_body]
pub fn get_server_time_now() -> (r: ServerTime) {
    chrono::DateTime::<chrono::Utc>::from(std::time::SystemTime::now()).timestamp()
}

/// `later - earlier` in seconds, saturating at the bounds of `i64`.
pub open spec fn seconds_between(earlier: int, later: int) -> int {
    if later - earlier > i64::MAX {
        i64::MAX as int
    } else if later - earlier < i64::MIN {
        i64::MIN as int
    } else {
        later - earlier
    }
}

/// Seconds elapsed from `earlier` to `later`.
pub fn difference(earlier: ServerTime, later: ServerTime) -> (r: i64)
    ensures
        r == seconds_between(earlier as int, later as int),
{
    match later.checked_sub(earlier) {
        Some(d) => d,
        None => if earlier < 0 {
            i64::MAX
        } else {
            i64::MIN
        },
    }
}

/// Seconds elapsed from `date` until now.
pub fn date_difference_from_now(date: &ServerTime) -> (r: i64)
    ensures
        exists|now: ServerTime| r == seconds_between(*date as int, now as int),
{
    let now = get_server_time_now();
    difference(*date, now)
}

} // verus!
