//! Time bucketing: truncating a timestamp to the start of its fixed
//! 86400-second UTC day, and the UTC calendar date of an epoch second
//! (computed by chrono, which this library trusts for calendar
//! arithmetic).

use vstd::prelude::*;
use chrono::Datelike;
use chrono::TimeZone;
use chrono::Utc;

verus! {

/// The number of seconds in one fixed UTC day window.
pub const DAY_SECONDS: i64 = 86400;

/// A timestamp truncated to the start of its UTC calendar day:
/// `t - (t mod 86400)` with the mathematical (Euclidean) modulus, that
/// is, the greatest multiple of 86400 not exceeding `t`. Day windows are
/// fixed 86400-second UTC windows for every timestamp, before and after
/// the epoch alike.
pub open spec fn day_key(t: int) -> int {
    t - t % 86400
}

/// The day key of a timestamp: the start of its UTC day. Always a
/// multiple-of-86400 boundary at most 86399 seconds below `t`, so it
/// stays well inside `i64`.
pub fn day_of(t: i32) -> (d: i64)
    ensures
        d as int == day_key(t as int),
        -0x1_0000_0000 <= d <= 0x1_0000_0000,
{
    let t64: i64 = t as i64;
    if t64 >= 0 {
        t64 - t64 % DAY_SECONDS
    } else {
        let m: i64 = (-t64) % DAY_SECONDS;
        if m == 0 {
            t64
        } else {
            t64 - (DAY_SECONDS - m)
        }
    }
}

/// The UTC calendar date `(year, month, day-of-month)` of an epoch
/// second, as chrono's proleptic Gregorian calendar gives it: a fixed
/// mathematical function of the timestamp alone (no locale, no zone).
pub uninterp spec fn civil_of(t: int) -> (int, int, int);

/// Relies on chrono: `Utc.timestamp_opt(t, 0)` and `Datelike::{year,
/// month, day}` give the UTC calendar date of an epoch second. By
/// chrono's documentation `month` is 1..=12, `day` is 1..=31, and its
/// datetimes span about +/-262,000 years around the epoch, so the year
/// stays within +/-0x40000 and timestamps within +/-2^33 are far inside
/// the supported range (`timestamp_opt` cannot fail on them).
#[verifier::external_body]
pub fn civil_of_epoch(t: i64) -> (r: (i32, u32, u32))
    requires
        -0x2_0000_0000 <= t <= 0x2_0000_0000,
    ensures
        (r.0 as int, r.1 as int, r.2 as int) == civil_of(t as int),
        -0x40000 <= r.0 <= 0x40000,
        1 <= r.1 <= 12,
        1 <= r.2 <= 31,
{
    let dt = Utc.timestamp_opt(t, 0).unwrap();
    (dt.year(), dt.month(), dt.day())
}

} // verus!
