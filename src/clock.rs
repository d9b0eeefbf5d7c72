//! Wall-clock readings.
use vstd::prelude::*;

verus! {

/// Relies on std::time::SystemTime::elapsed applied to UNIX_EPOCH: the time
/// from the epoch to the system clock's reading, in milliseconds; 0 when
/// the clock reads earlier than the epoch. Nothing is promised of the
/// reading.
#[verifier::external_body]
pub(crate) fn unix_time_millis() -> (r: u64) {
    match std::time::UNIX_EPOCH.elapsed() {
        Ok(d) => d.as_millis() as u64,
        Err(_) => 0,
    }
}

/// Milliseconds from `since` to `now`; zero when `now` is the earlier one.
pub open spec fn elapsed(since: u64, now: u64) -> nat {
    if now >= since {
        (now - since) as nat
    } else {
        0
    }
}

/// Milliseconds from `since` to `now`, saturating at zero.
pub fn elapsed_millis(since: u64, now: u64) -> (r: u64)
    ensures
        r == elapsed(since, now),
{
    if now >= since {
        now - since
    } else {
        0
    }
}

} // verus!
