//! Moments of the system clock.

use vstd::prelude::*;

verus! {

/// A moment: whole seconds since the start of 1970 in UTC, negative before it,
/// and nanoseconds of the second that follows.
#[derive(Clone, Copy, Debug, PartialEq, Eq, Structural)]
pub struct Timestamp {
    pub secs: i64,
    pub nanos: u32,
}

/// The start of 1970 in UTC.
pub open spec fn epoch() -> Timestamp {
    Timestamp { secs: 0, nanos: 0 }
}

/// Whether one moment comes before another.
pub open spec fn moment_before(a: Timestamp, b: Timestamp) -> bool {
    a.secs < b.secs || (a.secs == b.secs && a.nanos < b.nanos)
}

/// Whole seconds since the start of 1970; none before it.
pub open spec fn whole_seconds(time: Timestamp) -> u64 {
    if time.secs < 0 {
        0
    } else {
        time.secs as u64
    }
}

/// The moment some seconds earlier, where the clock can tell it.
pub open spec fn earlier_by(time: Timestamp, secs: u64) -> Option<Timestamp> {
    if time.secs - secs < i64::MIN {
        None
    } else {
        Some(Timestamp { secs: (time.secs - secs) as i64, nanos: time.nanos })
    }
}

/// Whether at least `secs` seconds passed from the start of second `since` of
/// 1970 and later, up to `now`.
pub open spec fn passed(since: u64, now: Timestamp, secs: u64) -> bool {
    now.secs - since >= secs
}

/// Whole seconds since the start of 1970; none before it.
pub fn unix_seconds(time: Timestamp) -> (secs: u64)
    ensures
        secs == whole_seconds(time),
{
    if time.secs < 0 {
        0
    } else {
        time.secs as u64
    }
}

/// The moment some seconds earlier, where the clock can tell it.
pub fn checked_earlier(time: Timestamp, secs: u64) -> (earlier: Option<Timestamp>)
    ensures
        earlier == earlier_by(time, secs),
{
    let left: i128 = time.secs as i128 - secs as i128;
    if left < i64::MIN as i128 {
        None
    } else {
        Some(Timestamp { secs: left as i64, nanos: time.nanos })
    }
}

/// Whether one moment comes before another.
pub fn is_before(a: Timestamp, b: Timestamp) -> (before: bool)
    ensures
        before == moment_before(a, b),
{
    a.secs < b.secs || (a.secs == b.secs && a.nanos < b.nanos)
}

/// Whether at least `secs` seconds passed since a second of 1970 or later.
pub fn has_passed(since: u64, now: Timestamp, secs: u64) -> (has: bool)
    ensures
        has == passed(since, now, secs),
{
    now.secs as i128 - since as i128 >= secs as i128
}

// ---------------------------------------------------------------------------
// Laws
// ---------------------------------------------------------------------------
/// Seconds decide which of two moments comes first, and nanoseconds within a second.
pub proof fn law_moments_are_ordered(a: Timestamp, b: Timestamp)
    ensures
        a.secs < b.secs ==> moment_before(a, b) && !moment_before(b, a),
        a.secs == b.secs ==> moment_before(a, b) == (a.nanos < b.nanos),
{
}

/// A moment some seconds earlier is that many seconds away, to the nanosecond. It
/// cannot be told only where its seconds are out of range.
pub proof fn law_earlier_moment(time: Timestamp, secs: u64)
    ensures
        match earlier_by(time, secs) {
            Some(earlier) => earlier.secs + secs == time.secs && earlier.nanos == time.nanos,
            None => time.secs - secs < i64::MIN,
        },
{
}

/// The whole seconds of a moment since the start of 1970 are its seconds, and none
/// before.
pub proof fn law_whole_seconds(time: Timestamp)
    ensures
        time.secs >= 0 ==> whole_seconds(time) == time.secs,
        time.secs < 0 ==> whole_seconds(time) == 0,
        whole_seconds(epoch()) == 0,
{
}

/// Some seconds have passed since a second once the clock shows that many more, and
/// from then on.
pub proof fn law_seconds_pass(since: u64, now: Timestamp, secs: u64)
    ensures
        passed(since, now, secs) <==> since + secs <= now.secs,
{
}

} // verus!
