//! Clock and calendar access. Both results depend on the machine, so nothing
//! beyond non-negativity of the clock reading is assumed about them.
use vstd::prelude::*;

use chrono::TimeZone;

verus! {

/// Relies on std::time::SystemTime::now and duration_since: seconds since the
/// Unix epoch; reads before the epoch, or past i64's range, yield zero.
#[verifier::external_body]
pub fn now_ts() -> (r: i64)
    ensures
        r >= 0,
{
    match std::time::SystemTime::now().duration_since(std::time::UNIX_EPOCH) {
        Ok(duration) => i64::try_from(duration.as_secs()).unwrap_or(0),
        Err(_) => 0,
    }
}

/// Relies on chrono::Local (timestamp_opt, date_naive, from_local_datetime):
/// the timestamp of the current calendar day's midnight in the process's local
/// time zone, falling back to any valid candidate and ultimately to `now`
/// itself around daylight-saving edges. The result depends on the machine's
/// time zone, so nothing is assumed about it.
#[verifier::external_body]
pub fn local_day_start_ts(now: i64) -> i64 {
    let Some(local_now) = chrono::Local.timestamp_opt(now, 0).single() else {
        return now;
    };
    let Some(naive_midnight) = local_now.date_naive().and_hms_opt(0, 0, 0) else {
        return local_now.timestamp();
    };
    chrono::Local
        .from_local_datetime(&naive_midnight)
        .single()
        .or_else(|| chrono::Local.from_local_datetime(&naive_midnight).earliest())
        .or_else(|| chrono::Local.from_local_datetime(&naive_midnight).latest())
        .unwrap_or(local_now)
        .timestamp()
}

} // verus!
