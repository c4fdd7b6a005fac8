use tpt_mbd::contact::bvh::BvhTree;
use tpt_mbd::contact::detection::{aabb_intersect, aabb_overlap, enclosing_box, BroadPhaseAABB};
use tpt_mbd::contact::gjk::{Aabb, SupportMap};
use tpt_mbd::geometry::Vector3;

fn b(min: [i64; 3], max: [i64; 3]) -> BroadPhaseAABB {
    BroadPhaseAABB::new(Vector3::new(min[0], min[1], min[2]), Vector3::new(max[0], max[1], max[2]))
}

fn contains(outer: &BroadPhaseAABB, inner: &BroadPhaseAABB) -> bool {
    (0..3).all(|i| outer.min.0[i] <= inner.min.0[i] && inner.max.0[i] <= outer.max.0[i])
}

#[test]
fn enlarged_boxes_keep_an_overlap() {
    let a = b([0, 0, 0], [2, 2, 2]);
    let c = b([2, 1, 0], [4, 3, 1]);
    assert!(aabb_overlap(&a, &c));
    let big_a = b([-5, -5, -5], [2, 2, 2]);
    let big_c = b([2, 0, -1], [9, 9, 9]);
    assert!(aabb_overlap(&big_a, &big_c));
}

#[test]
fn intersection_is_the_greatest_common_box() {
    let a = b([0, 0, 0], [4, 4, 4]);
    let c = b([2, -1, 1], [6, 3, 5]);
    let r = aabb_intersect(&a, &c).unwrap();
    assert!(contains(&a, &r) && contains(&c, &r));
    let inside_both = b([2, 0, 1], [3, 2, 4]);
    assert!(contains(&r, &inside_both));
    assert_eq!(r, b([2, 0, 1], [4, 3, 4]));
}

#[test]
fn enclosing_box_is_the_least_common_cover() {
    let a = b([0, 0, 0], [1, 1, 1]);
    let c = b([3, -2, 0], [4, 0, 2]);
    let u = enclosing_box(&a, &c);
    assert!(contains(&u, &a) && contains(&u, &c));
    assert_eq!(u, b([0, -2, 0], [4, 1, 2]));
}

#[test]
fn centre_and_half_extent_give_back_the_corners() {
    let a = b([-6, 2, 10], [4, 8, 10]);
    let c = a.center();
    let h = a.half_extents();
    for i in 0..3 {
        assert_eq!(c.0[i] + h.0[i], a.max.0[i]);
        assert_eq!(c.0[i] - h.0[i], a.min.0[i]);
    }
}

#[test]
fn box_support_point_is_farthest_along_the_direction() {
    let shape = Aabb::new(Vector3::new(-2, -1, 0), Vector3::new(3, 4, 5));
    let dirs = [[1, 1, 1], [-1, 2, -3], [0, -1, 0], [5, 0, -2]];
    for d in dirs {
        let dir = Vector3::new(d[0], d[1], d[2]);
        let s = shape.support(&dir);
        let dot = |p: [i64; 3]| p[0] * d[0] + p[1] * d[1] + p[2] * d[2];
        for x in -2..=3 {
            for y in -1..=4 {
                for z in 0..=5 {
                    assert!(dot([x, y, z]) <= dot(s.0));
                }
            }
        }
    }
}

#[test]
fn every_node_box_encloses_the_objects_below_it() {
    let aabbs = vec![
        b([0, 0, 0], [2, 2, 2]),
        b([5, 1, 0], [6, 3, 1]),
        b([-3, 4, 2], [-1, 6, 3]),
        b([8, -2, 7], [9, 0, 9]),
        b([1, 1, 1], [4, 4, 4]),
    ];
    let tree = BvhTree::build(&aabbs);
    fn objects_below(tree: &BvhTree, k: usize, out: &mut Vec<usize>) {
        let n = &tree.nodes[k];
        if let Some(o) = n.object_index {
            out.push(o);
        } else {
            objects_below(tree, n.left.unwrap(), out);
            objects_below(tree, n.right.unwrap(), out);
        }
    }
    for k in 0..tree.nodes.len() {
        let mut below = Vec::new();
        objects_below(&tree, k, &mut below);
        for o in below {
            assert!(contains(&tree.nodes[k].aabb, &aabbs[o]));
        }
    }
    let root = tree.root.unwrap();
    let mut all = Vec::new();
    objects_below(&tree, root, &mut all);
    all.sort();
    assert_eq!(all, vec![0, 1, 2, 3, 4]);
}
