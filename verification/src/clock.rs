//! Wall-clock time in Unix seconds.

use vstd::prelude::*;

verus! {

#[verifier::external_type_specification]
#[verifier::external_body]
pub struct ExSystemTime(std::time::SystemTime);

/// `SystemTime::now`: the current time (nothing is known of it).
#[verifier::external_body]
fn system_now() -> std::time::SystemTime {
    std::time::SystemTime::now()
}

/// `SystemTime::duration_since(UNIX_EPOCH)`: `None` for a time before the
/// epoch (nothing is known of the reading itself).
#[verifier::external_body]
fn since_epoch(t: &std::time::SystemTime) -> Option<std::time::Duration> {
    match t.duration_since(std::time::UNIX_EPOCH) {
        Ok(d) => Some(d),
        Err(_) => None,
    }
}

/// `Duration::as_secs`: whole seconds.
#[verifier::external_body]
fn whole_seconds(d: &std::time::Duration) -> u64 {
    d.as_secs()
}

/// The timestamp of a clock reading given as whole seconds since the epoch:
/// 0 for a reading before the epoch, otherwise the seconds as an `i64` (as
/// the `as` cast gives them).
pub open spec fn unix_seconds_spec(since: Option<u64>) -> i64 {
    match since {
        Some(s) => s as i64,
        None => 0,
    }
}

/// Turns a clock reading (whole seconds since the epoch, `None` before it)
/// into the stored timestamp.
pub fn unix_seconds(since: Option<u64>) -> (r: i64)
    ensures
        since is None ==> r == 0,
        since matches Some(s) ==> r == s as i64,
        r == unix_seconds_spec(since),
{
    match since {
        Some(s) => {
            #[verifier::truncate]
            (s as i64)
        },
        None => 0,
    }
}

/// Seconds since the Unix epoch, 0 when the clock reads before the epoch:
/// the timestamp of whatever reading the clock gave.
pub fn now() -> (r: i64)
    ensures
        exists|since: Option<u64>| r == unix_seconds_spec(since),
{
    let t = system_now();
    let since = match since_epoch(&t) {
        Some(d) => Some(whole_seconds(&d)),
        None => None,
    };
    unix_seconds(since)
}

} // verus!
