//! Points and directions on an integer grid.
//!
//! Coordinates are signed 64-bit grid units. A caller that works with
//! real-valued positions quantizes them onto the grid first; every
//! comparison and every enclosing-box computation on the grid is exact.

use vstd::prelude::*;

verus! {

/// A point or direction with three integer grid coordinates.
#[derive(Clone, Copy, Debug, PartialEq, Eq)]
pub struct Vector3(pub [i64; 3]);

/// Largest integer not above `x / 2`.
pub open spec fn floor_half(x: int) -> int {
    x / 2
}

/// Exact `floor((a + b) / 2)` for two grid coordinates.
pub(crate) fn midpoint(a: i64, b: i64) -> (m: i64)
    ensures
        m == floor_half(a + b),
{
    let s: i128 = a as i128 + b as i128;
    if s >= 0 {
        (s / 2) as i64
    } else {
        let t: i128 = -s;
        let q: i128 = (t + 1) / 2;
        (-q) as i64
    }
}

/// Exact `floor((hi - lo) / 2)`.
pub(crate) fn half_difference(hi: i64, lo: i64) -> (d: i64)
    ensures
        d == floor_half(hi - lo),
{
    let s: i128 = hi as i128 - lo as i128;
    if s >= 0 {
        (s / 2) as i64
    } else {
        let t: i128 = -s;
        let q: i128 = (t + 1) / 2;
        (-q) as i64
    }
}

impl Vector3 {
    /// Create a vector from its three coordinates.
    pub fn new(x: i64, y: i64, z: i64) -> (v: Self)
        ensures
            v.0[0] == x,
            v.0[1] == y,
            v.0[2] == z,
    {
        Vector3([x, y, z])
    }

    /// The origin.
    pub fn zero() -> (v: Self)
        ensures
            v.0[0] == 0 && v.0[1] == 0 && v.0[2] == 0,
    {
        Vector3([0, 0, 0])
    }

    /// Coordinate-wise negation.
    pub fn negate(&self) -> (v: Self)
        requires
            self.0[0] != i64::MIN,
            self.0[1] != i64::MIN,
            self.0[2] != i64::MIN,
        ensures
            v.0[0] == -self.0[0],
            v.0[1] == -self.0[1],
            v.0[2] == -self.0[2],
    {
        Vector3([-self.0[0], -self.0[1], -self.0[2]])
    }
}

} // verus!
