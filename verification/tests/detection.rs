use tpt_mbd::contact::detection::{aabb_intersect, aabb_overlap, enclosing_box, BroadPhaseAABB};
use tpt_mbd::geometry::Vector3;

/// Grid units per unit length used by these tests.
const UNITS: f64 = 1024.0;

fn grid(x: f64, y: f64, z: f64) -> Vector3 {
    Vector3::new(
        (x * UNITS).round() as i64,
        (y * UNITS).round() as i64,
        (z * UNITS).round() as i64,
    )
}

#[test]
fn test_aabb_overlap_disjoint() {
    let a = BroadPhaseAABB::new(grid(0.0, 0.0, 0.0), grid(1.0, 1.0, 1.0));
    let b = BroadPhaseAABB::new(grid(2.0, 2.0, 2.0), grid(3.0, 3.0, 3.0));
    assert!(!aabb_overlap(&a, &b));
}

#[test]
fn test_aabb_overlap_contained() {
    let a = BroadPhaseAABB::new(grid(0.0, 0.0, 0.0), grid(2.0, 2.0, 2.0));
    let b = BroadPhaseAABB::new(grid(0.5, 0.5, 0.5), grid(1.5, 1.5, 1.5));
    assert!(aabb_overlap(&a, &b));
}

#[test]
fn test_aabb_overlap_partial() {
    let a = BroadPhaseAABB::new(grid(0.0, 0.0, 0.0), grid(2.0, 2.0, 2.0));
    let b = BroadPhaseAABB::new(grid(1.0, 1.0, 1.0), grid(3.0, 3.0, 3.0));
    assert!(aabb_overlap(&a, &b));
}

#[test]
fn test_aabb_intersect_returns_intersection() {
    let a = BroadPhaseAABB::new(grid(0.0, 0.0, 0.0), grid(2.0, 2.0, 2.0));
    let b = BroadPhaseAABB::new(grid(1.0, 1.0, 1.0), grid(3.0, 3.0, 3.0));
    let inter = aabb_intersect(&a, &b).unwrap();
    assert_eq!(inter.min, grid(1.0, 1.0, 1.0));
    assert_eq!(inter.max, grid(2.0, 2.0, 2.0));
}

#[test]
fn test_aabb_intersect_no_overlap() {
    let a = BroadPhaseAABB::new(grid(0.0, 0.0, 0.0), grid(1.0, 1.0, 1.0));
    let b = BroadPhaseAABB::new(grid(2.0, 2.0, 2.0), grid(3.0, 3.0, 3.0));
    assert!(aabb_intersect(&a, &b).is_none());
}

#[test]
fn test_aabb_intersect_identical() {
    let a = BroadPhaseAABB::new(grid(0.0, 0.0, 0.0), grid(1.0, 1.0, 1.0));
    let inter = aabb_intersect(&a, &a).unwrap();
    assert_eq!(inter.min, grid(0.0, 0.0, 0.0));
    assert_eq!(inter.max, grid(1.0, 1.0, 1.0));
}

#[test]
fn test_broad_phase_aabb_center() {
    let aabb = BroadPhaseAABB::new(grid(0.0, 0.0, 0.0), grid(2.0, 2.0, 2.0));
    assert_eq!(aabb.center(), grid(1.0, 1.0, 1.0));
}

#[test]
fn test_broad_phase_aabb_half_extents() {
    let aabb = BroadPhaseAABB::new(grid(-1.0, -1.0, -1.0), grid(1.0, 1.0, 1.0));
    assert_eq!(aabb.half_extents(), grid(1.0, 1.0, 1.0));
}

// ---------------------------------------------------------------------------
// Further checks
// ---------------------------------------------------------------------------

#[test]
fn touching_faces_overlap() {
    let a = BroadPhaseAABB::new(grid(0.0, 0.0, 0.0), grid(1.0, 1.0, 1.0));
    let b = BroadPhaseAABB::new(grid(1.0, 0.0, 0.0), grid(2.0, 1.0, 1.0));
    assert!(aabb_overlap(&a, &b));
    let inter = aabb_intersect(&a, &b).unwrap();
    assert_eq!(inter.min, grid(1.0, 0.0, 0.0));
    assert_eq!(inter.max, grid(1.0, 1.0, 1.0));
}

#[test]
fn overlap_is_symmetric_on_samples() {
    let a = BroadPhaseAABB::new(grid(0.0, 0.0, 0.0), grid(1.0, 1.0, 1.0));
    let b = BroadPhaseAABB::new(grid(0.5, 2.0, 0.0), grid(1.5, 3.0, 1.0));
    assert_eq!(aabb_overlap(&a, &b), aabb_overlap(&b, &a));
    assert!(!aabb_overlap(&a, &b));
}

#[test]
fn center_and_half_extents_round_down() {
    let aabb = BroadPhaseAABB::new(Vector3::new(-3, 0, 1), Vector3::new(0, 5, 2));
    assert_eq!(aabb.center(), Vector3::new(-2, 2, 1));
    assert_eq!(aabb.half_extents(), Vector3::new(1, 2, 0));
}

#[test]
fn center_of_extreme_box_does_not_overflow() {
    let aabb = BroadPhaseAABB::new(Vector3::new(i64::MIN, i64::MIN, 0), Vector3::new(i64::MAX, i64::MIN, 0));
    assert_eq!(aabb.center(), Vector3::new(-1, i64::MIN, 0));
    assert_eq!(aabb.half_extents(), Vector3::new(i64::MAX, 0, 0));
}

#[test]
fn enclosing_box_spans_both() {
    let a = BroadPhaseAABB::new(grid(0.0, 2.0, 0.0), grid(1.0, 3.0, 1.0));
    let b = BroadPhaseAABB::new(grid(-1.0, 0.0, 0.5), grid(0.5, 1.0, 4.0));
    let u = enclosing_box(&a, &b);
    assert_eq!(u.min, grid(-1.0, 0.0, 0.0));
    assert_eq!(u.max, grid(1.0, 3.0, 4.0));
}
