use tpt_mbd::contact::bvh::{bvh_broad_phase, narrow_phase_test, BvhNode, BvhTree};
use tpt_mbd::contact::detection::BroadPhaseAABB;
use tpt_mbd::geometry::Vector3;

/// Grid units per unit length used by these tests.
const UNITS: f64 = 1024.0;

fn grid(x: f64, y: f64, z: f64) -> Vector3 {
    Vector3::new(
        (x * UNITS).round() as i64,
        (y * UNITS).round() as i64,
        (z * UNITS).round() as i64,
    )
}

fn boxed(min: (f64, f64, f64), max: (f64, f64, f64)) -> BroadPhaseAABB {
    BroadPhaseAABB::new(grid(min.0, min.1, min.2), grid(max.0, max.1, max.2))
}

#[test]
fn test_bvh_empty() {
    let tree = BvhTree::new();
    assert!(tree.root.is_none());
    assert!(tree.find_potential_pairs().is_empty());
}

#[test]
fn test_bvh_single_object() {
    let aabbs = vec![boxed((0.0, 0.0, 0.0), (1.0, 1.0, 1.0))];
    let tree = BvhTree::build(&aabbs);
    assert!(tree.root.is_some());
    assert!(tree.nodes[tree.root.unwrap()].is_leaf());
    assert!(tree.find_potential_pairs().is_empty());
}

#[test]
fn test_bvh_two_non_overlapping() {
    let aabbs = vec![
        boxed((0.0, 0.0, 0.0), (1.0, 1.0, 1.0)),
        boxed((5.0, 5.0, 5.0), (6.0, 6.0, 6.0)),
    ];
    let tree = BvhTree::build(&aabbs);
    assert!(tree.find_potential_pairs().is_empty());
}

#[test]
fn test_bvh_two_overlapping() {
    let aabbs = vec![
        boxed((0.0, 0.0, 0.0), (2.0, 2.0, 2.0)),
        boxed((1.0, 1.0, 1.0), (3.0, 3.0, 3.0)),
    ];
    let pairs = bvh_broad_phase(&aabbs);
    assert!(pairs.contains(&(0, 1)));
}

#[test]
fn test_bvh_multiple_objects() {
    let aabbs = vec![
        boxed((0.0, 0.0, 0.0), (1.0, 1.0, 1.0)),
        boxed((0.5, 0.5, 0.5), (1.5, 1.5, 1.5)),
        boxed((2.0, 2.0, 2.0), (3.0, 3.0, 3.0)),
        boxed((5.0, 5.0, 5.0), (6.0, 6.0, 6.0)),
    ];
    let pairs = bvh_broad_phase(&aabbs);
    assert!(pairs.contains(&(0, 1)));
    assert!(!pairs.contains(&(0, 3)));
    assert!(!pairs.contains(&(2, 3)));
}

#[test]
fn test_bvh_refit() {
    let aabbs = vec![
        boxed((0.0, 0.0, 0.0), (1.0, 1.0, 1.0)),
        boxed((2.0, 2.0, 2.0), (3.0, 3.0, 3.0)),
    ];
    let mut tree = BvhTree::build(&aabbs);
    assert!(tree.root.is_some());
    tree.refit();
    assert!(tree.root.is_some());
}

// ---------------------------------------------------------------------------
// Further checks of the hierarchy and of the broad phase
// ---------------------------------------------------------------------------

/// Every overlapping pair, by comparing all pairs directly.
fn brute_force(aabbs: &[BroadPhaseAABB]) -> Vec<(usize, usize)> {
    let mut out = Vec::new();
    for i in 0..aabbs.len() {
        for j in (i + 1)..aabbs.len() {
            let (a, b) = (&aabbs[i], &aabbs[j]);
            let meet = (0..3).all(|k| a.max.0[k] >= b.min.0[k] && a.min.0[k] <= b.max.0[k]);
            if meet {
                out.push((i, j));
            }
        }
    }
    out
}

fn sorted(mut v: Vec<(usize, usize)>) -> Vec<(usize, usize)> {
    v.sort();
    v
}

#[test]
fn broad_phase_finds_pairs_across_deep_subtrees() {
    // Two clusters that overlap each other: pairs between two internal
    // subtrees must be reported too.
    let aabbs = vec![
        boxed((0.0, 0.0, 0.0), (1.0, 1.0, 1.0)),
        boxed((0.2, 0.0, 0.0), (1.2, 1.0, 1.0)),
        boxed((0.9, 0.0, 0.0), (1.9, 1.0, 1.0)),
        boxed((1.1, 0.0, 0.0), (2.1, 1.0, 1.0)),
        boxed((10.0, 0.0, 0.0), (11.0, 1.0, 1.0)),
    ];
    let pairs = bvh_broad_phase(&aabbs);
    assert_eq!(sorted(pairs.clone()), brute_force(&aabbs));
    assert!(pairs.contains(&(0, 2)));
    assert!(pairs.contains(&(1, 3)));
}

#[test]
fn broad_phase_matches_all_pairs_on_a_grid() {
    let mut aabbs = Vec::new();
    for i in 0..4 {
        for j in 0..4 {
            let x = i as f64 * 0.75;
            let y = j as f64 * 0.75;
            aabbs.push(boxed((x, y, 0.0), (x + 1.0, y + 1.0, 1.0)));
        }
    }
    let pairs = bvh_broad_phase(&aabbs);
    let mut dedup = sorted(pairs.clone());
    dedup.dedup();
    assert_eq!(dedup.len(), pairs.len());
    assert_eq!(sorted(pairs), brute_force(&aabbs));
}

#[test]
fn build_shape_and_parent_links() {
    let aabbs = vec![
        boxed((0.0, 0.0, 0.0), (1.0, 1.0, 1.0)),
        boxed((4.0, 0.0, 0.0), (5.0, 1.0, 1.0)),
        boxed((2.0, 0.0, 0.0), (3.0, 1.0, 1.0)),
    ];
    let tree = BvhTree::build(&aabbs);
    assert_eq!(tree.nodes.len(), 5);
    assert_eq!(tree.root, Some(4));
    let root = &tree.nodes[4];
    assert!(root.parent.is_none());
    assert_eq!(root.aabb.min, grid(0.0, 0.0, 0.0));
    assert_eq!(root.aabb.max, grid(5.0, 1.0, 1.0));
    for (k, node) in tree.nodes.iter().enumerate() {
        if let (Some(l), Some(r)) = (node.left, node.right) {
            assert_eq!(tree.nodes[l].parent, Some(k));
            assert_eq!(tree.nodes[r].parent, Some(k));
        }
    }
    let mut leaves: Vec<usize> = tree.nodes.iter().filter_map(|n| n.object_index).collect();
    leaves.sort();
    assert_eq!(leaves, vec![0, 1, 2]);
}

#[test]
fn build_splits_at_the_median_along_the_widest_axis() {
    // The centres spread most along x, so the two leftmost boxes form the
    // first subtree.
    let aabbs = vec![
        boxed((4.0, 0.0, 0.0), (5.0, 1.0, 1.0)),
        boxed((0.0, 0.0, 0.0), (1.0, 1.0, 1.0)),
        boxed((6.0, 0.0, 0.0), (7.0, 1.0, 1.0)),
        boxed((2.0, 0.0, 0.0), (3.0, 1.0, 1.0)),
    ];
    let tree = BvhTree::build(&aabbs);
    let root = tree.nodes[tree.root.unwrap()];
    let left = tree.nodes[root.left.unwrap()];
    assert_eq!(left.aabb.min, grid(0.0, 0.0, 0.0));
    assert_eq!(left.aabb.max, grid(3.0, 1.0, 1.0));
}

#[test]
fn refit_follows_moved_objects() {
    let aabbs = vec![
        boxed((0.0, 0.0, 0.0), (1.0, 1.0, 1.0)),
        boxed((5.0, 5.0, 5.0), (6.0, 6.0, 6.0)),
    ];
    let mut tree = BvhTree::build(&aabbs);
    assert!(tree.find_potential_pairs().is_empty());
    tree.object_aabbs[1] = boxed((0.5, 0.5, 0.5), (1.5, 1.5, 1.5));
    tree.refit();
    let root = tree.nodes[tree.root.unwrap()];
    assert_eq!(root.aabb.max, grid(1.5, 1.5, 1.5));
    assert_eq!(tree.find_potential_pairs(), vec![(0, 1)]);
}

#[test]
fn default_tree_is_empty() {
    let tree = BvhTree::default();
    assert!(tree.nodes.is_empty());
    assert!(tree.root.is_none());
    assert!(tree.object_aabbs.is_empty());
}

#[test]
fn test_narrow_phase_skips_separated_boxes() {
    let a = BroadPhaseAABB::new(Vector3::new(0, 0, 0), Vector3::new(10, 10, 10));
    let b = BroadPhaseAABB::new(Vector3::new(20, 0, 0), Vector3::new(30, 10, 10));
    let r = narrow_phase_test(|d: Vector3| d, &a, &b);
    assert!(r.is_none());
}

#[test]
fn test_narrow_phase_starts_between_centres() {
    let a = BroadPhaseAABB::new(Vector3::new(10, 0, 4), Vector3::new(20, 10, 10));
    let b = BroadPhaseAABB::new(Vector3::new(0, 0, 0), Vector3::new(14, 10, 6));
    // Centres (15, 5, 7) and (7, 5, 3): twice their gap is (16, 0, 8).
    let r = narrow_phase_test(|d: Vector3| d, &a, &b);
    assert_eq!(r, Some(Vector3::new(16, 0, 8)));
}

#[test]
fn test_narrow_phase_keeps_half_unit_centre_gaps() {
    // Centres (0.5, 0.5, 0.5) and (0, 0, 0): the gap is not lost to rounding.
    let a = BroadPhaseAABB::new(Vector3::new(0, 0, 0), Vector3::new(1, 1, 1));
    let b = BroadPhaseAABB::new(Vector3::new(0, 0, 0), Vector3::new(0, 0, 0));
    let r = narrow_phase_test(|d: Vector3| d, &a, &b);
    assert_eq!(r, Some(Vector3::new(1, 1, 1)));
}

#[test]
fn test_narrow_phase_coincident_centres_start_along_x() {
    let a = BroadPhaseAABB::new(Vector3::new(-4, -4, -4), Vector3::new(4, 4, 4));
    let b = BroadPhaseAABB::new(Vector3::new(-1, -1, -1), Vector3::new(1, 1, 1));
    let r = narrow_phase_test(|d: Vector3| d, &a, &b);
    assert_eq!(r, Some(Vector3::new(1, 0, 0)));
}

#[test]
fn test_surface_area_of_box() {
    let b = BroadPhaseAABB::new(Vector3::new(0, 0, 0), Vector3::new(1, 2, 3));
    assert_eq!(BvhTree::surface_area(&b), 22);
    let unit = boxed((0.0, 0.0, 0.0), (1.0, 1.0, 1.0));
    assert_eq!(BvhTree::surface_area(&unit), 6 * 1024 * 1024);
    let flat = BroadPhaseAABB::new(Vector3::new(-5, 7, 2), Vector3::new(5, 7, 4));
    assert_eq!(BvhTree::surface_area(&flat), 40);
}

#[test]
fn refit_reaches_children_stored_after_their_parent() {
    let zero = BroadPhaseAABB::new(Vector3::zero(), Vector3::zero());
    let mut root = BvhNode::internal(zero, 1, 2);
    root.parent = None;
    let mut a = BvhNode::leaf(0, zero);
    a.parent = Some(0);
    let mut b = BvhNode::leaf(1, zero);
    b.parent = Some(0);
    let mut tree = BvhTree {
        nodes: vec![root, a, b],
        root: Some(0),
        object_aabbs: vec![
            BroadPhaseAABB::new(Vector3::new(0, 0, 0), Vector3::new(1, 1, 1)),
            BroadPhaseAABB::new(Vector3::new(5, 5, 5), Vector3::new(6, 6, 6)),
        ],
    };
    tree.refit();
    assert_eq!(tree.nodes[0].aabb, BroadPhaseAABB::new(Vector3::new(0, 0, 0), Vector3::new(6, 6, 6)));
    assert_eq!(tree.nodes[2].aabb, tree.object_aabbs[1]);
}

#[test]
fn refit_leaves_unreached_nodes_alone() {
    let stale = BroadPhaseAABB::new(Vector3::new(9, 9, 9), Vector3::new(9, 9, 9));
    let mut tree = BvhTree {
        nodes: vec![BvhNode::leaf(0, stale), BvhNode::leaf(0, stale)],
        root: Some(1),
        object_aabbs: vec![BroadPhaseAABB::new(Vector3::new(0, 0, 0), Vector3::new(1, 1, 1))],
    };
    tree.refit();
    assert_eq!(tree.nodes[0].aabb, stale);
    assert_eq!(tree.nodes[1].aabb, tree.object_aabbs[0]);
}

#[test]
fn build_splits_along_widest_axis() {
    // Centres spread 3 units along x and 30 along y: the split is along y.
    let aabbs = vec![
        BroadPhaseAABB::new(Vector3::new(0, 30, 0), Vector3::new(1, 31, 1)),
        BroadPhaseAABB::new(Vector3::new(3, 20, 0), Vector3::new(4, 21, 1)),
        BroadPhaseAABB::new(Vector3::new(0, 10, 0), Vector3::new(1, 11, 1)),
        BroadPhaseAABB::new(Vector3::new(3, 0, 0), Vector3::new(4, 1, 1)),
    ];
    let tree = BvhTree::build(&aabbs);
    let root = tree.nodes[tree.root.unwrap()];
    let left = tree.nodes[root.left.unwrap()];
    let mut below_left = vec![
        tree.nodes[left.left.unwrap()].object_index.unwrap(),
        tree.nodes[left.right.unwrap()].object_index.unwrap(),
    ];
    below_left.sort();
    assert_eq!(below_left, vec![2, 3]);
}

#[test]
fn build_puts_each_object_in_one_leaf() {
    let aabbs: Vec<BroadPhaseAABB> = (0..7)
        .map(|i: i64| BroadPhaseAABB::new(Vector3::new(i * 3, 0, i % 2), Vector3::new(i * 3 + 2, 1, 2)))
        .collect();
    let tree = BvhTree::build(&aabbs);
    assert_eq!(tree.nodes.len(), 13);
    for o in 0..7 {
        let count = tree.nodes.iter().filter(|n| n.object_index == Some(o)).count();
        assert_eq!(count, 1);
    }
}

#[test]
fn build_lays_out_subtrees_before_their_parent_and_keeps_ties_in_index_order() {
    let same = BroadPhaseAABB::new(Vector3::new(0, 0, 0), Vector3::new(2, 2, 2));
    let tree = BvhTree::build(&[same, same, same, same]);
    let objects: Vec<Option<usize>> = tree.nodes.iter().map(|n| n.object_index).collect();
    assert_eq!(objects, vec![Some(0), Some(1), None, Some(2), Some(3), None, None]);
    assert_eq!((tree.nodes[2].left, tree.nodes[2].right), (Some(0), Some(1)));
    assert_eq!((tree.nodes[5].left, tree.nodes[5].right), (Some(3), Some(4)));
    assert_eq!((tree.nodes[6].left, tree.nodes[6].right), (Some(2), Some(5)));
    assert_eq!(tree.root, Some(6));
}

#[test]
fn pairs_of_a_tree_that_misses_appended_objects() {
    let aabbs = vec![
        BroadPhaseAABB::new(Vector3::new(0, 0, 0), Vector3::new(2, 2, 2)),
        BroadPhaseAABB::new(Vector3::new(1, 1, 1), Vector3::new(3, 3, 3)),
    ];
    let mut tree = BvhTree::build(&aabbs);
    tree.object_aabbs.push(BroadPhaseAABB::new(Vector3::new(1, 1, 1), Vector3::new(2, 2, 2)));
    assert_eq!(tree.find_potential_pairs(), vec![(0, 1)]);
}
