//! Axis-aligned bounding boxes on the integer grid and the discrete overlap
//! tests used by the broad phase.

use vstd::prelude::*;
use crate::geometry::{Vector3, floor_half, half_difference, midpoint};

verus! {

/// Axis-aligned bounding box for broad-phase collision detection.
#[derive(Clone, Copy, Debug, PartialEq, Eq)]
pub struct BroadPhaseAABB {
    /// Minimum corner of the bounding box.
    pub min: Vector3,
    /// Maximum corner of the bounding box.
    pub max: Vector3,
}

/// On axis `i`, the closed intervals of `a` and `b` meet.
pub open spec fn axis_overlap(a: BroadPhaseAABB, b: BroadPhaseAABB, i: int) -> bool {
    a.max.0[i] >= b.min.0[i] && a.min.0[i] <= b.max.0[i]
}

/// The closed intervals of `a` and `b` meet on every axis.
pub open spec fn boxes_overlap(a: BroadPhaseAABB, b: BroadPhaseAABB) -> bool {
    axis_overlap(a, b, 0) && axis_overlap(a, b, 1) && axis_overlap(a, b, 2)
}

/// On axis `i`, the interval of `outer` encloses that of `inner`.
pub open spec fn axis_contains(outer: BroadPhaseAABB, inner: BroadPhaseAABB, i: int) -> bool {
    outer.min.0[i] <= inner.min.0[i] && inner.max.0[i] <= outer.max.0[i]
}

/// `outer` encloses `inner` on every axis.
pub open spec fn box_contains(outer: BroadPhaseAABB, inner: BroadPhaseAABB) -> bool {
    axis_contains(outer, inner, 0) && axis_contains(outer, inner, 1) && axis_contains(outer, inner, 2)
}

/// Smaller of two integers.
pub open spec fn min_int(a: int, b: int) -> int {
    if a <= b { a } else { b }
}

/// Larger of two integers.
pub open spec fn max_int(a: int, b: int) -> int {
    if a >= b { a } else { b }
}

/// On axis `i`, `u` spans exactly the hull of the intervals of `a` and `b`.
pub open spec fn axis_union(u: BroadPhaseAABB, a: BroadPhaseAABB, b: BroadPhaseAABB, i: int) -> bool {
    u.min.0[i] == min_int(a.min.0[i] as int, b.min.0[i] as int) && u.max.0[i] == max_int(a.max.0[i] as int, b.max.0[i] as int)
}

/// `u` is the smallest box enclosing both `a` and `b`.
pub open spec fn is_union_box(u: BroadPhaseAABB, a: BroadPhaseAABB, b: BroadPhaseAABB) -> bool {
    axis_union(u, a, b, 0) && axis_union(u, a, b, 1) && axis_union(u, a, b, 2)
}

/// On axis `i`, `r` spans exactly the common part of the intervals of `a` and `b`.
pub open spec fn axis_intersection(r: BroadPhaseAABB, a: BroadPhaseAABB, b: BroadPhaseAABB, i: int) -> bool {
    r.min.0[i] == max_int(a.min.0[i] as int, b.min.0[i] as int) && r.max.0[i] == min_int(a.max.0[i] as int, b.max.0[i] as int)
}

/// `r` is the common part of `a` and `b`: the larger minimum and the smaller
/// maximum on every axis.
pub open spec fn is_intersection_box(r: BroadPhaseAABB, a: BroadPhaseAABB, b: BroadPhaseAABB) -> bool {
    axis_intersection(r, a, b, 0) && axis_intersection(r, a, b, 1) && axis_intersection(r, a, b, 2)
}

impl BroadPhaseAABB {
    /// Create a new AABB from min and max corners.
    pub fn new(min: Vector3, max: Vector3) -> (b: Self)
        ensures
            b.min == min,
            b.max == max,
    {
        Self { min, max }
    }

    /// Center of the AABB, rounded down to the grid on each axis.
    pub fn center(&self) -> (c: Vector3)
        ensures
            c.0[0] == floor_half(self.min.0[0] + self.max.0[0]),
            c.0[1] == floor_half(self.min.0[1] + self.max.0[1]),
            c.0[2] == floor_half(self.min.0[2] + self.max.0[2]),
    {
        Vector3::new(
            midpoint(self.min.0[0], self.max.0[0]),
            midpoint(self.min.0[1], self.max.0[1]),
            midpoint(self.min.0[2], self.max.0[2]),
        )
    }

    /// Half extents of the AABB, rounded down to the grid on each axis.
    pub fn half_extents(&self) -> (h: Vector3)
        ensures
            h.0[0] == floor_half(self.max.0[0] - self.min.0[0]),
            h.0[1] == floor_half(self.max.0[1] - self.min.0[1]),
            h.0[2] == floor_half(self.max.0[2] - self.min.0[2]),
    {
        Vector3::new(
            half_difference(self.max.0[0], self.min.0[0]),
            half_difference(self.max.0[1], self.min.0[1]),
            half_difference(self.max.0[2], self.min.0[2]),
        )
    }
}

/// Returns true if two AABBs overlap: their closed intervals meet on each
/// of the three axes.
pub fn aabb_overlap(a: &BroadPhaseAABB, b: &BroadPhaseAABB) -> (r: bool)
    ensures
        r == boxes_overlap(*a, *b),
        r == (forall|i: int| 0 <= i < 3 ==> a.max.0[i] >= b.min.0[i] && a.min.0[i] <= b.max.0[i]),
{
    let mut i: usize = 0;
    while i < 3
        invariant
            i <= 3,
            forall|j: int| 0 <= j < i ==> #[trigger] axis_overlap(*a, *b, j),
        decreases 3 - i,
    {
        if a.max.0[i] < b.min.0[i] || a.min.0[i] > b.max.0[i] {
            proof {
                lemma_overlap_is_every_axis(*a, *b);
            }
            return false;
        }
        i = i + 1;
    }
    proof {
        lemma_overlap_is_every_axis(*a, *b);
    }
    true
}

/// Larger of two coordinates.
fn coord_max(a: i64, b: i64) -> (m: i64)
    ensures
        m == (if a >= b { a } else { b }),
{
    if a >= b { a } else { b }
}

/// Smaller of two coordinates.
fn coord_min(a: i64, b: i64) -> (m: i64)
    ensures
        m == (if a <= b { a } else { b }),
{
    if a <= b { a } else { b }
}

/// Returns the intersection AABB if two AABBs overlap, or None.
pub fn aabb_intersect(a: &BroadPhaseAABB, b: &BroadPhaseAABB) -> (r: Option<BroadPhaseAABB>)
    ensures
        r is None <==> !boxes_overlap(*a, *b),
        r matches Some(x) ==> is_intersection_box(x, *a, *b),
        r matches Some(x) ==> forall|i: int|
            0 <= i < 3 ==> x.min.0[i] == (if a.min.0[i] >= b.min.0[i] {
                a.min.0[i]
            } else {
                b.min.0[i]
            }) && x.max.0[i] == (if a.max.0[i] <= b.max.0[i] {
                a.max.0[i]
            } else {
                b.max.0[i]
            }),
{
    if !aabb_overlap(a, b) {
        return None;
    }
    let min = Vector3::new(
        coord_max(a.min.0[0], b.min.0[0]),
        coord_max(a.min.0[1], b.min.0[1]),
        coord_max(a.min.0[2], b.min.0[2]),
    );
    let max = Vector3::new(
        coord_min(a.max.0[0], b.max.0[0]),
        coord_min(a.max.0[1], b.max.0[1]),
        coord_min(a.max.0[2], b.max.0[2]),
    );
    let x = BroadPhaseAABB::new(min, max);
    assert forall|i: int| 0 <= i < 3 implies x.min.0[i] == (if a.min.0[i] >= b.min.0[i] {
        a.min.0[i]
    } else {
        b.min.0[i]
    }) && x.max.0[i] == (if a.max.0[i] <= b.max.0[i] {
        a.max.0[i]
    } else {
        b.max.0[i]
    }) by {
        assert(i == 0 || i == 1 || i == 2);
    }
    Some(x)
}

/// Smallest box enclosing both `a` and `b`.
pub fn enclosing_box(a: &BroadPhaseAABB, b: &BroadPhaseAABB) -> (u: BroadPhaseAABB)
    ensures
        is_union_box(u, *a, *b),
        forall|i: int|
            0 <= i < 3 ==> u.min.0[i] == (if a.min.0[i] <= b.min.0[i] {
                a.min.0[i]
            } else {
                b.min.0[i]
            }) && u.max.0[i] == (if a.max.0[i] >= b.max.0[i] {
                a.max.0[i]
            } else {
                b.max.0[i]
            }),
{
    let min = Vector3::new(
        coord_min(a.min.0[0], b.min.0[0]),
        coord_min(a.min.0[1], b.min.0[1]),
        coord_min(a.min.0[2], b.min.0[2]),
    );
    let max = Vector3::new(
        coord_max(a.max.0[0], b.max.0[0]),
        coord_max(a.max.0[1], b.max.0[1]),
        coord_max(a.max.0[2], b.max.0[2]),
    );
    let u = BroadPhaseAABB::new(min, max);
    assert forall|i: int| 0 <= i < 3 implies u.min.0[i] == (if a.min.0[i] <= b.min.0[i] {
        a.min.0[i]
    } else {
        b.min.0[i]
    }) && u.max.0[i] == (if a.max.0[i] >= b.max.0[i] {
        a.max.0[i]
    } else {
        b.max.0[i]
    }) by {
        assert(i == 0 || i == 1 || i == 2);
    }
    u
}

// ---------------------------------------------------------------------------
// Laws
// ---------------------------------------------------------------------------

/// Two boxes overlap exactly when their closed intervals meet on every one
/// of the three axes; boxes whose intervals are apart on any single axis
/// never overlap.
pub proof fn lemma_overlap_is_every_axis(a: BroadPhaseAABB, b: BroadPhaseAABB)
    ensures
        boxes_overlap(a, b) <==> (forall|i: int|
            0 <= i < 3 ==> a.max.0[i] >= b.min.0[i] && a.min.0[i] <= b.max.0[i]),
        forall|i: int|
            0 <= i < 3 && (a.max.0[i] < b.min.0[i] || b.max.0[i] < a.min.0[i]) ==> !boxes_overlap(a, b),
{
    if forall|i: int| 0 <= i < 3 ==> a.max.0[i] >= b.min.0[i] && a.min.0[i] <= b.max.0[i] {
        assert(a.max.0[2] >= b.min.0[2] && a.min.0[2] <= b.max.0[2]);
        assert(a.max.0[1] >= b.min.0[1] && a.min.0[1] <= b.max.0[1]);
        assert(a.max.0[0] >= b.min.0[0] && a.min.0[0] <= b.max.0[0]);
    }
    if boxes_overlap(a, b) {
        assert forall|i: int| 0 <= i < 3 implies a.max.0[i] >= b.min.0[i] && a.min.0[i] <= b.max.0[i] by {
            assert(axis_overlap(a, b, i));
        }
    }
}

/// The intersection of two overlapping boxes, each with its minimum at or
/// below its maximum on every axis, is such a box too and lies inside both.
pub proof fn lemma_intersection_of_overlapping_boxes(x: BroadPhaseAABB, a: BroadPhaseAABB, b: BroadPhaseAABB)
    requires
        boxes_overlap(a, b),
        is_intersection_box(x, a, b),
        forall|i: int| 0 <= i < 3 ==> a.min.0[i] <= a.max.0[i] && b.min.0[i] <= b.max.0[i],
    ensures
        forall|i: int|
            0 <= i < 3 ==> x.min.0[i] <= x.max.0[i] && a.min.0[i] <= x.min.0[i] && b.min.0[i] <= x.min.0[i]
                && x.max.0[i] <= a.max.0[i] && x.max.0[i] <= b.max.0[i],
{
    lemma_overlap_is_every_axis(a, b);
    assert forall|i: int| 0 <= i < 3 implies x.min.0[i] <= x.max.0[i] && a.min.0[i] <= x.min.0[i] && b.min.0[i]
        <= x.min.0[i] && x.max.0[i] <= a.max.0[i] && x.max.0[i] <= b.max.0[i] by {
        assert(axis_intersection(x, a, b, i)) by {
            assert(i == 0 || i == 1 || i == 2);
        }
    }
}

/// Overlap is symmetric: `a` meets `b` exactly when `b` meets `a`.
pub proof fn lemma_overlap_symmetric(a: BroadPhaseAABB, b: BroadPhaseAABB)
    ensures
        boxes_overlap(a, b) == boxes_overlap(b, a),
{
}

/// Enlarging boxes keeps an overlap: if `a` and `b` meet, so do any boxes
/// that enclose them.
pub proof fn lemma_overlap_monotone(a: BroadPhaseAABB, b: BroadPhaseAABB, big_a: BroadPhaseAABB, big_b: BroadPhaseAABB)
    requires
        box_contains(big_a, a),
        box_contains(big_b, b),
        boxes_overlap(a, b),
    ensures
        boxes_overlap(big_a, big_b),
{
}

/// A box meets itself exactly when its minimum corner lies below its
/// maximum corner on every axis.
pub proof fn lemma_self_overlap(a: BroadPhaseAABB)
    ensures
        boxes_overlap(a, a) <==> (a.min.0[0] <= a.max.0[0] && a.min.0[1] <= a.max.0[1] && a.min.0[2] <= a.max.0[2]),
{
}

/// The intersection of two boxes is the largest box inside both: it lies in
/// `a` and in `b`, and every box inside both lies in it.
pub proof fn lemma_intersection_is_greatest_common_box(
    r: BroadPhaseAABB,
    a: BroadPhaseAABB,
    b: BroadPhaseAABB,
    c: BroadPhaseAABB,
)
    requires
        is_intersection_box(r, a, b),
    ensures
        box_contains(a, r),
        box_contains(b, r),
        box_contains(a, c) && box_contains(b, c) ==> box_contains(r, c),
{
}

/// The enclosing box of `a` and `b` contains both of them, and lies inside
/// every box that contains both.
pub proof fn lemma_union_is_least_enclosing_box(
    u: BroadPhaseAABB,
    a: BroadPhaseAABB,
    b: BroadPhaseAABB,
    c: BroadPhaseAABB,
)
    requires
        is_union_box(u, a, b),
    ensures
        box_contains(u, a),
        box_contains(u, b),
        box_contains(c, a) && box_contains(c, b) ==> box_contains(c, u),
{
}

/// Box containment is transitive.
pub proof fn lemma_contains_transitive(a: BroadPhaseAABB, b: BroadPhaseAABB, c: BroadPhaseAABB)
    requires
        box_contains(a, b),
        box_contains(b, c),
    ensures
        box_contains(a, c),
{
}


/// Intersecting a box with itself gives the same corners back, whatever
/// its corners are.
pub proof fn lemma_self_intersection(r: BroadPhaseAABB, a: BroadPhaseAABB)
    requires
        is_intersection_box(r, a, a),
    ensures
        r.min.0[0] == a.min.0[0] && r.min.0[1] == a.min.0[1] && r.min.0[2] == a.min.0[2],
        r.max.0[0] == a.max.0[0] && r.max.0[1] == a.max.0[1] && r.max.0[2] == a.max.0[2],
{
}

/// On an axis where the box spans an even number of grid units, the centre
/// plus the half extent gives the maximum and the centre minus the half
/// extent gives the minimum.
pub proof fn lemma_center_half_extents_recover_corners(lo: int, hi: int)
    requires
        (hi - lo) % 2 == 0,
    ensures
        floor_half(lo + hi) + floor_half(hi - lo) == hi,
        floor_half(lo + hi) - floor_half(hi - lo) == lo,
{
}

} // verus!
