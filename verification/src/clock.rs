//! Times are milliseconds on a clock that never runs backwards.

use vstd::prelude::*;

verus! {

/// How long it is since `then`; nothing when `then` is still to come.
pub open spec fn since(now: u64, then: u64) -> nat {
    if now > then {
        (now - then) as nat
    } else {
        0
    }
}

pub fn elapsed(now: u64, then: u64) -> (r: u64)
    ensures
        r == since(now, then),
{
    if now > then {
        now - then
    } else {
        0
    }
}

/// How long it is until `deadline`, unless that has passed.
pub open spec fn until(deadline: int, now: u64) -> Option<int> {
    if deadline >= now {
        Some(deadline - now)
    } else {
        None
    }
}

/// What is left until `deadline`. `None` once it has passed.
pub fn left(deadline: u64, now: u64) -> (r: Option<u64>)
    ensures
        match r {
            Some(d) => until(deadline as int, now) == Some(d as int),
            None => until(deadline as int, now) is None,
        },
{
    if deadline >= now {
        Some(deadline - now)
    } else {
        None
    }
}

/// What has passed since a time leads from it to now, and what is left until a time leads from
/// now to it.
pub proof fn law_times_add_up(then: u64, now: u64)
    ensures
        now >= then ==> then + since(now, then) == now,
        now <= then ==> since(now, then) == 0,
        until(then as int, now) is Some <==> now <= then,
        until(then as int, now) matches Some(left) ==> now + left == then,
{
}

} // verus!
