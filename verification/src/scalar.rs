use vstd::prelude::*;

verus! {

/// Scalars are fixed-point numbers carried in an `i64`: `SCALE` stands for
/// one unit, so three decimal digits survive the encoding.
pub const SCALE: i64 = 1000;

/// The largest magnitude a stored scalar may take; writes saturate here.
pub const SCALAR_MAX: i64 = 1_000_000_000_000_000;

/// A tension is the distance between two clamped scalars, so it never
/// exceeds twice the scalar bound.
pub const TENSION_MAX: i64 = 2_000_000_000_000_000;

/// Tension threshold under which a resolve commits: two whole units.
pub const RESOLVE_LIMIT: i64 = 2000;

/// Half-width of a drift draw while no tension was ever recorded: half a unit.
pub const DRIFT_DEFAULT_RANGE: i64 = 500;

/// A value forced into the representable scalar range.
pub open spec fn clamp_s(x: int) -> int {
    if x < -(SCALAR_MAX as int) {
        -(SCALAR_MAX as int)
    } else if x > SCALAR_MAX as int {
        SCALAR_MAX as int
    } else {
        x
    }
}

/// A value forced into the interval `[lo, hi]`.
pub open spec fn clamp_to(lo: int, hi: int, x: int) -> int {
    if x < lo {
        lo
    } else if x > hi {
        hi
    } else {
        x
    }
}

pub open spec fn sabs(x: int) -> int {
    if x < 0 {
        -x
    } else {
        x
    }
}

pub fn clamp_scalar(x: i64) -> (r: i64)
    ensures
        r as int == clamp_s(x as int),
{
    if x < -SCALAR_MAX {
        -SCALAR_MAX
    } else if x > SCALAR_MAX {
        SCALAR_MAX
    } else {
        x
    }
}

/// The distance between two scalars that both lie in the clamped range.
pub fn scalar_distance(a: i64, b: i64) -> (r: i64)
    requires
        -(SCALAR_MAX as int) <= a as int <= SCALAR_MAX as int,
        -(SCALAR_MAX as int) <= b as int <= SCALAR_MAX as int,
    ensures
        r as int == sabs(a as int - b as int),
        0 <= r as int <= TENSION_MAX as int,
{
    if a >= b {
        a - b
    } else {
        b - a
    }
}

} // verus!
