//! Times as nanoseconds since the Unix epoch.
use vstd::prelude::*;

verus! {

/// The whole seconds from `at` to `now`, both in nanoseconds; none where `at` lies ahead.
pub open spec fn elapsed_secs(now: int, at: int) -> nat {
    if now <= at {
        0
    } else {
        let s = (now - at) / 1000000000;
        if s <= u64::MAX {
            s as nat
        } else {
            u64::MAX as nat
        }
    }
}

/// The whole seconds from `at` to `now`, both in nanoseconds; none where `at` lies ahead,
/// and at most `u64::MAX`.
pub fn seconds_since(now: i128, at: i128) -> (r: u64)
    ensures
        r == elapsed_secs(now as int, at as int),
{
    if now <= at {
        return 0;
    }
    match now.checked_sub(at) {
        Some(d) => {
            let s: i128 = d / 1000000000;
            if s <= u64::MAX as i128 {
                s as u64
            } else {
                u64::MAX
            }
        },
        None => u64::MAX,
    }
}

/// The nanoseconds from `at` to `now` on a clock that does not go back.
pub open spec fn span(now: u64, at: u64) -> int {
    if now >= at {
        now - at
    } else {
        0
    }
}

/// The nanoseconds from `at` to `now` on a clock that does not go back.
pub fn since(now: u64, at: u64) -> (r: u64)
    ensures
        r == span(now, at),
{
    if now >= at {
        now - at
    } else {
        0
    }
}

/// The distance between two numbers of which the first is not the smaller.
pub fn distance(a: i128, b: i128) -> (r: u128)
    requires
        a >= b,
    ensures
        r == a - b,
{
    if b >= 0 || a < 0 {
        (a - b) as u128
    } else {
        let below: i128 = -(b + 1);
        a as u128 + below as u128 + 1
    }
}

/// The sign and the size of `a - b`.
pub open spec fn signed(negative: bool, size: u128) -> int {
    if negative {
        -(size as int)
    } else {
        size as int
    }
}

/// The difference of two numbers, which may not fit the type that they have.
pub fn difference(a: i128, b: i128) -> (r: (bool, u128))
    ensures
        signed(r.0, r.1) == a - b,
{
    if a >= b {
        (false, distance(a, b))
    } else {
        (true, distance(b, a))
    }
}

/// Whether one difference is greater than another.
pub fn greater(x: (bool, u128), y: (bool, u128)) -> (r: bool)
    ensures
        r == (signed(x.0, x.1) > signed(y.0, y.1)),
{
    if x.0 {
        y.0 && x.1 < y.1
    } else if y.0 {
        x.1 > 0 || y.1 > 0
    } else {
        x.1 > y.1
    }
}

/// Seconds are whole ones: what has passed is at least so many, and less than one more; nothing has
/// passed of what lies ahead.
pub proof fn law_seconds_are_whole(now: int, at: int)
    requires
        now - at < 1000000000 * u64::MAX,
    ensures
        at <= now ==> elapsed_secs(now, at) * 1000000000 <= now - at < (elapsed_secs(now, at) + 1) * 1000000000,
        now <= at ==> elapsed_secs(now, at) == 0,
{
}

/// A span runs from the earlier time to the later one, and is none for times that lie ahead.
pub proof fn law_spans_run_forward(now: u64, at: u64)
    ensures
        at <= now ==> at + span(now, at) == now,
        now <= at ==> span(now, at) == 0,
{
}

} // verus!
