//! Fixed-point arithmetic shared by the election and the equaliser.

use vstd::prelude::*;

verus! {

/// A balance type wide enough that every operation on stakes converted to `u64` is safe.
pub type ExtendedBalance = u128;

/// Fixed-point shift used while scoring candidates (`u32::MAX + 1`).
pub const SCALE_FACTOR: u128 = 4294967296u128;

/// The fixed accuracy of every ratio handed to callers (`u32::MAX + 1`).
pub const ACCURACY: u128 = 4294967296u128;

/// `a + b`, clamped at `u128::MAX`.
pub open spec fn sat_add(a: u128, b: int) -> u128 {
    if a + b > u128::MAX {
        u128::MAX
    } else {
        (a + b) as u128
    }
}

/// `a - b`, clamped at zero.
pub open spec fn sat_sub(a: u128, b: u128) -> u128 {
    if a < b {
        0
    } else {
        (a - b) as u128
    }
}

/// `a * b`, clamped at `u128::MAX`.
pub open spec fn sat_mul(a: u128, b: u128) -> u128 {
    if a * b > u128::MAX {
        u128::MAX
    } else {
        (a * b) as u128
    }
}

/// Saturating multiplication of two `u128` values.
pub fn saturating_mul(a: u128, b: u128) -> (r: u128)
    ensures
        r == sat_mul(a, b),
{
    match a.checked_mul(b) {
        Some(p) => p,
        None => u128::MAX,
    }
}

} // verus!
