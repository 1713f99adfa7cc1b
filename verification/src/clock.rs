//! Time, in nanoseconds of a clock that never goes back.

use vstd::prelude::*;

verus! {

/// How many nanoseconds a millisecond has.
pub const MILLISECOND: u64 = 1_000_000;

/// How long after `since` the moment `now` is; nothing, where `now` comes first.
pub open spec fn spec_elapsed(since: u64, now: u64) -> u64 {
    if now >= since {
        (now - since) as u64
    } else {
        0
    }
}

/// How long after `since` the moment `now` is; nothing, where `now` comes first.
pub fn elapsed(since: u64, now: u64) -> (r: u64)
    ensures
        r == spec_elapsed(since, now),
{
    if now >= since {
        now - since
    } else {
        0
    }
}

} // verus!
