use tpt_mbd::contact::gjk::{Aabb, SupportMap};
use tpt_mbd::geometry::Vector3;

/// Grid units per unit length used by these tests.
const UNITS: f64 = 1024.0;

fn grid(x: f64, y: f64, z: f64) -> Vector3 {
    Vector3::new(
        (x * UNITS).round() as i64,
        (y * UNITS).round() as i64,
        (z * UNITS).round() as i64,
    )
}

#[test]
fn test_aabb_support() {
    let aabb = Aabb::new(grid(-1.0, -1.0, -1.0), grid(1.0, 1.0, 1.0));
    let dir = grid(1.0, 1.0, 1.0);
    let s = aabb.support(&dir);
    assert_eq!(s, grid(1.0, 1.0, 1.0));
}

#[test]
fn aabb_support_picks_the_corner_facing_the_direction() {
    let aabb = Aabb::new(grid(-1.0, -2.0, -3.0), grid(1.0, 2.0, 3.0));
    assert_eq!(aabb.support(&grid(-1.0, 0.0, 1.0)), grid(-1.0, 2.0, 3.0));
    assert_eq!(aabb.support(&grid(0.5, -0.5, -2.0)), grid(1.0, -2.0, -3.0));
}

#[test]
fn negate_flips_every_coordinate() {
    assert_eq!(Vector3::new(1, -2, 0).negate(), Vector3::new(-1, 2, 0));
    assert_eq!(Vector3::zero().negate(), Vector3::zero());
}
