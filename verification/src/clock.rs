//! Spans of time, in nanoseconds.
use vstd::prelude::*;

verus! {

/// Time that has passed since `since`; none where the clock went back.
pub open spec fn elapsed(since: u64, now: u64) -> int {
    if now >= since {
        now - since
    } else {
        0
    }
}

/// Time that has passed since `since`.
pub fn nanos_since(since: u64, now: u64) -> (r: u64)
    ensures
        r == elapsed(since, now),
{
    if now >= since {
        now - since
    } else {
        0
    }
}

/// As much time has passed as was added, and none where the clock went back.
pub proof fn law_time_passes(since: u64, later: u64, now: u64)
    ensures
        since <= now ==> since + elapsed(since, now) == now,
        now <= since ==> elapsed(since, now) == 0,
        since <= later <= now ==> elapsed(since, later) + elapsed(later, now) == elapsed(since, now),
{
}

} // verus!
