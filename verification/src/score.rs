//! Bounds of trust scores, clamping, and the integer steps of decay and
//! forgiveness.

use vstd::prelude::*;

verus! {

/// Minimum possible trust score.
pub const TRUST_MIN: i32 = -100;

/// Maximum possible trust score.
pub const TRUST_MAX: i32 = 100;

/// A score forced into `[TRUST_MIN, TRUST_MAX]`.
pub open spec fn clamped(v: int) -> int {
    if v < TRUST_MIN {
        TRUST_MIN as int
    } else if v > TRUST_MAX {
        TRUST_MAX as int
    } else {
        v
    }
}

/// Whether a score lies within the trust bounds.
pub open spec fn in_bounds(v: int) -> bool {
    TRUST_MIN <= v <= TRUST_MAX
}

/// Clamp a score into `[TRUST_MIN, TRUST_MAX]`.
pub fn clamp(v: i32) -> (r: i32)
    ensures
        r == clamped(v as int),
        in_bounds(r as int),
        in_bounds(v as int) ==> r == v,
{
    if v < TRUST_MIN {
        TRUST_MIN
    } else if v > TRUST_MAX {
        TRUST_MAX
    } else {
        v
    }
}

/// Clamp a sum computed in a wider type into `[TRUST_MIN, TRUST_MAX]`.
pub fn clamp_wide(v: i64) -> (r: i32)
    ensures
        r == clamped(v as int),
        in_bounds(r as int),
{
    if v < TRUST_MIN as i64 {
        TRUST_MIN
    } else if v > TRUST_MAX as i64 {
        TRUST_MAX
    } else {
        v as i32
    }
}

/// A score moved toward zero by `delta`, stopping at zero.
pub open spec fn decayed(v: int, delta: int) -> int {
    if v == 0 {
        0
    } else if v > 0 {
        if v - delta > 0 { v - delta } else { 0 }
    } else {
        if v + delta < 0 { v + delta } else { 0 }
    }
}

/// Whether moving `v` toward zero by `delta` stays within `i32`.
pub open spec fn decay_fits(v: int, delta: int) -> bool {
    &&& v > 0 ==> i32::MIN <= v - delta <= i32::MAX
    &&& v < 0 ==> i32::MIN <= v + delta <= i32::MAX
}

/// Move a score toward zero by `delta` (the rounded fraction of its
/// magnitude that a decay rate asks for); a score never crosses zero.
pub fn decay_toward_zero(v: i32, delta: i32) -> (r: i32)
    requires
        decay_fits(v as int, delta as int),
    ensures
        r == decayed(v as int, delta as int),
        delta >= 0 && v >= 0 ==> 0 <= r <= v,
        delta >= 0 && v <= 0 ==> v <= r <= 0,
{
    if v == 0 {
        return 0;
    }
    if v > 0 {
        let d = v - delta;
        if d > 0 { d } else { 0 }
    } else {
        let d = v + delta;
        if d < 0 { d } else { 0 }
    }
}

/// Whether a forgiveness step applies: trust is negative, not below the
/// threshold, and the cooldown has passed.
pub open spec fn forgiveness_applies(threshold: int, cooldown: int, trust: int, steps: int) -> bool {
    !(trust >= 0 || trust < threshold || steps < cooldown)
}

/// The outcome `(new_trust, steps_since_last_forgiveness)` of one forgiveness step.
pub open spec fn forgiven(threshold: int, cooldown: int, trust: int, steps: int, delta: int) -> (int, int) {
    if forgiveness_applies(threshold, cooldown, trust, steps) {
        (decayed(trust, delta), 0)
    } else {
        (trust, steps + 1)
    }
}

/// Decide whether forgiveness applies to `trust` with the given threshold,
/// cooldown and steps since the last forgiveness.
pub fn forgiveness_due(threshold: i32, cooldown: u32, trust: i32, steps_since_last: u32) -> (due: bool)
    ensures
        due == forgiveness_applies(threshold as int, cooldown as int, trust as int, steps_since_last as int),
{
    !(trust >= 0 || trust < threshold || steps_since_last < cooldown)
}

/// One forgiveness step: where forgiveness applies, trust moves toward zero
/// by `delta` and the step counter resets; otherwise trust stays and the
/// counter advances.
pub fn forgive(threshold: i32, cooldown: u32, trust: i32, steps_since_last: u32, delta: i32) -> (r: (i32, u32))
    requires
        !forgiveness_applies(threshold as int, cooldown as int, trust as int, steps_since_last as int)
            ==> steps_since_last < u32::MAX,
        forgiveness_applies(threshold as int, cooldown as int, trust as int, steps_since_last as int)
            ==> decay_fits(trust as int, delta as int),
    ensures
        (r.0 as int, r.1 as int) == forgiven(threshold as int, cooldown as int, trust as int,
            steps_since_last as int, delta as int),
        trust >= 0 ==> r.0 == trust,
        trust < threshold ==> r.0 == trust,
        delta >= 0 ==> trust <= r.0 <= 0 || r.0 == trust,
{
    if !forgiveness_due(threshold, cooldown, trust, steps_since_last) {
        return (trust, steps_since_last + 1);
    }
    let new_trust = decay_toward_zero(trust, delta);
    (new_trust, 0)
}

} // verus!
