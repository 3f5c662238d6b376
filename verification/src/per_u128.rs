//! A fraction stored as parts per `u128::MAX`.

use vstd::prelude::*;

verus! {

/// A value between zero and one, in fixed point: parts per `u128::MAX`.
#[derive(Clone, Copy, Debug, Default, PartialEq, Eq, Structural)]
pub struct PerU128(pub u128);

/// `u128::MAX / max(x, 1)`: the fraction `1 / x`.
pub open spec fn xth(x: u128) -> u128 {
    if x == 0 {
        u128::MAX
    } else {
        u128::MAX / x
    }
}

impl PerU128 {
    /// Nothing.
    pub fn zero() -> (r: PerU128)
        ensures
            r.0 == 0,
    {
        PerU128(0)
    }

    /// Everything.
    pub fn one() -> (r: PerU128)
        ensures
            r.0 == u128::MAX,
    {
        PerU128(u128::MAX)
    }

    /// From an explicit number of parts per `u128::MAX`.
    pub fn from_parts(x: u128) -> (r: PerU128)
        ensures
            r.0 == x,
    {
        PerU128(x)
    }

    /// The fraction `1 / x`; a zero `x` is read as one.
    pub fn from_xth(x: u128) -> (r: PerU128)
        ensures
            r.0 == xth(x),
    {
        if x == 0 {
            PerU128(u128::MAX)
        } else {
            PerU128(u128::MAX / x)
        }
    }

    /// The number of parts.
    pub fn parts(&self) -> (r: u128)
        ensures
            r == self.0,
    {
        self.0
    }

    /// Whether this is nothing.
    pub fn is_zero(&self) -> (r: bool)
        ensures
            r == (self.0 == 0),
    {
        self.0 == 0
    }
}

} // verus!
