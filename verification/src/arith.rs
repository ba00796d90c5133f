//! Saturating 64-bit arithmetic for the smooth weighted round-robin
//! accumulators. The accumulators live in `i64`; additions and the
//! subtraction of the round's total weight clamp at the type bounds instead
//! of wrapping, and the specification functions here state that clamping
//! exactly.

use vstd::prelude::*;

verus! {

/// The value `x` clamped to the range of `i64`.
pub open spec fn sat64(x: int) -> int {
    if x > i64::MAX as int {
        i64::MAX as int
    } else if x < i64::MIN as int {
        i64::MIN as int
    } else {
        x
    }
}

/// `a + b`, clamped to the range of `i64`.
pub fn sat_add_i64(a: i64, b: i64) -> (r: i64)
    ensures
        r as int == sat64(a + b),
{
    if b >= 0 {
        if a > i64::MAX - b {
            i64::MAX
        } else {
            a + b
        }
    } else {
        if a < i64::MIN - b {
            i64::MIN
        } else {
            a + b
        }
    }
}

/// `x` narrowed from `i128` to `i64`, clamped to the range of `i64`.
pub fn clamp_i128_to_i64(x: i128) -> (r: i64)
    ensures
        r as int == sat64(x as int),
{
    if x > i64::MAX as i128 {
        i64::MAX
    } else if x < i64::MIN as i128 {
        i64::MIN
    } else {
        x as i64
    }
}

} // verus!
