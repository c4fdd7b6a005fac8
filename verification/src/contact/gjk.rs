//! Support maps of convex shapes on the integer grid.
//!
//! A support map answers, for a direction, the point of the shape lying
//! farthest along that direction; distance and penetration queries are built
//! on top of it.

use vstd::prelude::*;
use crate::geometry::Vector3;

verus! {

/// A convex shape that can provide a support point in any direction.
pub trait SupportMap {
    /// Return the support point of the shape in direction `dir`.
    fn support(&self, dir: &Vector3) -> Vector3;
}

/// Axis-aligned bounding box support map.
#[derive(Clone, Copy, Debug, PartialEq, Eq)]
pub struct Aabb {
    /// Minimum corner.
    pub min: Vector3,
    /// Maximum corner.
    pub max: Vector3,
}

impl Aabb {
    /// Create a new AABB.
    pub fn new(min: Vector3, max: Vector3) -> (b: Self)
        ensures
            b.min == min,
            b.max == max,
    {
        Aabb { min, max }
    }
}

/// On axis `i`, the support coordinate of `b` for direction `dir`: the
/// upper bound when the direction does not point down, the lower otherwise.
pub open spec fn aabb_support_coord(b: Aabb, dir: Vector3, i: int) -> i64 {
    if dir.0[i] >= 0 {
        b.max.0[i]
    } else {
        b.min.0[i]
    }
}

/// Dot product of two grid vectors.
pub open spec fn dot(a: Vector3, b: Vector3) -> int {
    a.0[0] * b.0[0] + a.0[1] * b.0[1] + a.0[2] * b.0[2]
}

/// `p` lies inside the box `b`.
pub open spec fn aabb_contains_point(b: Aabb, p: Vector3) -> bool {
    &&& b.min.0[0] <= p.0[0] <= b.max.0[0]
    &&& b.min.0[1] <= p.0[1] <= b.max.0[1]
    &&& b.min.0[2] <= p.0[2] <= b.max.0[2]
}

impl SupportMap for Aabb {
    fn support(&self, dir: &Vector3) -> (s: Vector3)
        ensures
            s.0[0] == aabb_support_coord(*self, *dir, 0),
            s.0[1] == aabb_support_coord(*self, *dir, 1),
            s.0[2] == aabb_support_coord(*self, *dir, 2),
    {
        Vector3::new(
            if dir.0[0] >= 0 {
                self.max.0[0]
            } else {
                self.min.0[0]
            },
            if dir.0[1] >= 0 {
                self.max.0[1]
            } else {
                self.min.0[1]
            },
            if dir.0[2] >= 0 {
                self.max.0[2]
            } else {
                self.min.0[2]
            },
        )
    }
}

/// The support point of a box lies farthest along the direction: no point
/// of the box has a larger dot product with `dir`.
pub proof fn lemma_aabb_support_is_extreme(b: Aabb, dir: Vector3, s: Vector3, p: Vector3)
    requires
        s.0[0] == aabb_support_coord(b, dir, 0),
        s.0[1] == aabb_support_coord(b, dir, 1),
        s.0[2] == aabb_support_coord(b, dir, 2),
        aabb_contains_point(b, p),
    ensures
        dot(dir, p) <= dot(dir, s),
{
    lemma_axis_extreme(dir.0[0] as int, p.0[0] as int, s.0[0] as int, b.min.0[0] as int, b.max.0[0] as int);
    lemma_axis_extreme(dir.0[1] as int, p.0[1] as int, s.0[1] as int, b.min.0[1] as int, b.max.0[1] as int);
    lemma_axis_extreme(dir.0[2] as int, p.0[2] as int, s.0[2] as int, b.min.0[2] as int, b.max.0[2] as int);
}

/// One axis of the extremality argument.
proof fn lemma_axis_extreme(d: int, p: int, s: int, lo: int, hi: int)
    requires
        lo <= p <= hi,
        s == (if d >= 0 { hi } else { lo }),
    ensures
        d * p <= d * s,
{
    if d >= 0 {
        assert(d * p <= d * hi) by (nonlinear_arith)
            requires
                d >= 0,
                p <= hi,
        ;
    } else {
        assert(d * p <= d * lo) by (nonlinear_arith)
            requires
                d < 0,
                lo <= p,
        ;
    }
}

} // verus!
