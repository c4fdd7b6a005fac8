//! Bounding Volume Hierarchy (BVH) for broad-phase collision detection.
//!
//! The hierarchy is a binary tree stored in an arena: every internal node
//! refers to its two children by index, and children always come before
//! their parent in the arena. Each leaf holds one object; each internal node
//! holds the smallest box enclosing its children's boxes.

use vstd::prelude::*;
use crate::geometry::Vector3;
use crate::contact::detection::{
    min_int, max_int,
    BroadPhaseAABB, aabb_overlap, boxes_overlap, box_contains, enclosing_box, is_union_box,
    lemma_overlap_is_every_axis, lemma_overlap_monotone, lemma_overlap_symmetric, lemma_union_is_least_enclosing_box,
    lemma_contains_transitive,
};

verus! {

// ===========================================================================
// BVH Node and Tree
// ===========================================================================

/// A node in the bounding volume hierarchy.
#[derive(Clone, Copy, Debug)]
pub struct BvhNode {
    /// Axis-aligned bounding box enclosing this node and all children.
    pub aabb: BroadPhaseAABB,
    /// Object index (leaf nodes) or None (internal nodes).
    pub object_index: Option<usize>,
    /// Left child index (internal nodes), or None (leaf nodes).
    pub left: Option<usize>,
    /// Right child index (internal nodes), or None (leaf nodes).
    pub right: Option<usize>,
    /// Parent index, or None for the root.
    pub parent: Option<usize>,
}

impl BvhNode {
    /// Create a new leaf node.
    pub fn leaf(object_index: usize, aabb: BroadPhaseAABB) -> (n: Self)
        ensures
            n == (BvhNode { aabb, object_index: Some(object_index), left: None, right: None, parent: None }),
    {
        BvhNode { aabb, object_index: Some(object_index), left: None, right: None, parent: None }
    }

    /// Create a new internal node.
    pub fn internal(aabb: BroadPhaseAABB, left: usize, right: usize) -> (n: Self)
        ensures
            n == (BvhNode { aabb, object_index: None, left: Some(left), right: Some(right), parent: None }),
    {
        BvhNode { aabb, object_index: None, left: Some(left), right: Some(right), parent: None }
    }

    /// Returns true if this is a leaf node.
    pub fn is_leaf(&self) -> (r: bool)
        ensures
            r == self.object_index is Some,
    {
        self.object_index.is_some()
    }
}

/// Bounding volume hierarchy over AABBs.
#[derive(Clone, Debug)]
pub struct BvhTree {
    /// Nodes of the tree.
    pub nodes: Vec<BvhNode>,
    /// Root node index.
    pub root: Option<usize>,
    /// Object AABBs indexed by object index.
    pub object_aabbs: Vec<BroadPhaseAABB>,
}

// ===========================================================================
// Model of the tree
// ===========================================================================

/// The objects held by the leaves below node `k`.
pub open spec fn subtree_objects(nodes: Seq<BvhNode>, k: int) -> Set<usize>
    decreases k,
{
    if 0 <= k < nodes.len() {
        match nodes[k].object_index {
            Some(o) => Set::empty().insert(o),
            None => match (nodes[k].left, nodes[k].right) {
                (Some(l), Some(r)) => if l < k && r < k {
                    subtree_objects(nodes, l as int).union(subtree_objects(nodes, r as int))
                } else {
                    Set::empty()
                },
                _ => Set::empty(),
            },
        }
    } else {
        Set::empty()
    }
}

/// Node `j` lies in the subtree of node `k`: it is `k` itself, or lies in
/// the subtree of one of `k`'s children, which come earlier in the arena.
pub open spec fn in_subtree(nodes: Seq<BvhNode>, k: int, j: int) -> bool
    decreases k,
{
    if 0 <= k < nodes.len() {
        j == k || match (nodes[k].object_index, nodes[k].left, nodes[k].right) {
            (None, Some(l), Some(r)) => if l < k && r < k {
                in_subtree(nodes, l as int, j) || in_subtree(nodes, r as int, j)
            } else {
                false
            },
            _ => false,
        }
    } else {
        false
    }
}

/// Node `k` is a leaf holding one of the `n` objects, or an internal node
/// whose two children come earlier in the arena and hold disjoint objects.
pub open spec fn node_shape_ok(nodes: Seq<BvhNode>, k: int, n: nat) -> bool {
    match nodes[k].object_index {
        Some(o) => o < n && nodes[k].left is None && nodes[k].right is None,
        None => match (nodes[k].left, nodes[k].right) {
            (Some(l), Some(r)) => l < k && r < k && subtree_objects(nodes, l as int).disjoint(
                subtree_objects(nodes, r as int),
            ),
            _ => false,
        },
    }
}

/// The box of node `k` is tight: a leaf carries its object's box, an
/// internal node the smallest box enclosing its children's boxes.
pub open spec fn node_bounds_ok(nodes: Seq<BvhNode>, k: int, objs: Seq<BroadPhaseAABB>) -> bool {
    match nodes[k].object_index {
        Some(o) => o < objs.len() ==> nodes[k].aabb == objs[o as int],
        None => match (nodes[k].left, nodes[k].right) {
            (Some(l), Some(r)) => (l < k && r < k) ==> is_union_box(
                nodes[k].aabb,
                nodes[l as int].aabb,
                nodes[r as int].aabb,
            ),
            _ => true,
        },
    }
}

/// The children of internal node `k` point back to it.
pub open spec fn node_links_ok(nodes: Seq<BvhNode>, k: int) -> bool {
    match (nodes[k].object_index, nodes[k].left, nodes[k].right) {
        (None, Some(l), Some(r)) => (l < nodes.len() && r < nodes.len()) ==> (nodes[l as int].parent
            == Some(k as usize) && nodes[r as int].parent == Some(k as usize)),
        _ => true,
    }
}

/// The object indices `0 .. n`.
pub open spec fn all_objects(n: nat) -> Set<usize> {
    Set::new(|i: usize| i < n)
}

/// Two nodes agree on everything that decides the tree's shape.
pub open spec fn same_shape(a: BvhNode, b: BvhNode) -> bool {
    a.object_index == b.object_index && a.left == b.left && a.right == b.right
}

/// Some leaf of the arena holds object `o`.
pub open spec fn has_leaf(nodes: Seq<BvhNode>, o: usize) -> bool {
    exists|j: int| 0 <= j < nodes.len() && #[trigger] nodes[j].object_index == Some(o)
}

impl BvhTree {
    /// Every node has a valid shape: a leaf of one of the objects, or an
    /// internal node whose children come earlier and hold disjoint objects.
    pub open spec fn nodes_well_shaped(&self) -> bool {
        forall|k: int|
            0 <= k < self.nodes@.len() ==> #[trigger] node_shape_ok(self.nodes@, k, self.object_aabbs@.len())
    }

    /// Every node has a valid shape and the root holds every object exactly
    /// once; a tree without a root has neither objects nor nodes.
    pub open spec fn shape_wf(&self) -> bool {
        &&& self.nodes_well_shaped()
        &&& match self.root {
            None => self.object_aabbs@.len() == 0 && self.nodes@.len() == 0,
            Some(r) => r < self.nodes@.len() && subtree_objects(self.nodes@, r as int)
                == all_objects(self.object_aabbs@.len()),
        }
    }

    /// Every node's box is tight.
    pub open spec fn bounds_ok(&self) -> bool {
        forall|k: int|
            0 <= k < self.nodes@.len() ==> #[trigger] node_bounds_ok(
                self.nodes@,
                k,
                self.object_aabbs@,
            )
    }

    /// A valid hierarchy: a well-shaped tree whose boxes are tight.
    pub open spec fn wf(&self) -> bool {
        self.shape_wf() && self.bounds_ok()
    }

    /// Every internal node splits its objects at the median of their centres
    /// along some axis.
    pub open spec fn median_split(&self) -> bool {
        forall|k: int| 0 <= k < self.nodes@.len() ==> #[trigger] node_split_ok(self.nodes@, k, self.object_aabbs@)
    }

    /// Every node of the arena lies below the root; a tree without a root
    /// has no nodes.
    pub open spec fn all_below_root(&self) -> bool {
        match self.root {
            Some(r) => forall|j: int| 0 <= j < self.nodes@.len() ==> #[trigger] in_subtree(self.nodes@, r as int, j),
            None => self.nodes@.len() == 0,
        }
    }

    /// Each object is held by exactly one leaf of the arena.
    pub open spec fn objects_in_unique_leaves(&self) -> bool {
        &&& forall|o: usize| o < self.object_aabbs@.len() ==> #[trigger] has_leaf(self.nodes@, o)
        &&& forall|j1: int, j2: int|
            0 <= j1 < self.nodes@.len() && 0 <= j2 < self.nodes@.len() && (#[trigger] self.nodes@[j1]).object_index is Some
                && (#[trigger] self.nodes@[j2]).object_index == self.nodes@[j1].object_index ==> j1 == j2
    }

    /// Every child points back to its parent and the root has no parent.
    pub open spec fn parents_linked(&self) -> bool {
        &&& forall|k: int| 0 <= k < self.nodes@.len() ==> #[trigger] node_links_ok(self.nodes@, k)
        &&& match self.root {
            Some(r) => r < self.nodes@.len() ==> self.nodes@[r as int].parent is None,
            None => true,
        }
    }
}

// ===========================================================================
// Model of the query results
// ===========================================================================

/// `p` is an ordered pair `p.0 < p.1` of objects whose boxes overlap.
pub open spec fn overlapping_pair(objs: Seq<BroadPhaseAABB>, p: (usize, usize)) -> bool {
    p.0 < p.1 && p.1 < objs.len() && boxes_overlap(objs[p.0 as int], objs[p.1 as int])
}

/// All ordered pairs of distinct objects whose boxes overlap.
pub open spec fn overlapping_pairs(objs: Seq<BroadPhaseAABB>) -> Set<(usize, usize)> {
    Set::new(|p: (usize, usize)| overlapping_pair(objs, p))
}

/// One member of `p` lies in `x` and the other in `y`.
pub open spec fn pair_spans(p: (usize, usize), x: Set<usize>, y: Set<usize>) -> bool {
    (x.contains(p.0) && y.contains(p.1)) || (y.contains(p.0) && x.contains(p.1))
}

/// Overlapping pairs with one object from `x` and the other from `y`.
pub open spec fn crossing_pairs(objs: Seq<BroadPhaseAABB>, x: Set<usize>, y: Set<usize>) -> Set<(usize, usize)> {
    Set::new(|p: (usize, usize)| overlapping_pair(objs, p) && pair_spans(p, x, y))
}

/// Overlapping pairs with both objects from `x`.
pub open spec fn inner_pairs(objs: Seq<BroadPhaseAABB>, x: Set<usize>) -> Set<(usize, usize)> {
    Set::new(|p: (usize, usize)| overlapping_pair(objs, p) && x.contains(p.0) && x.contains(p.1))
}

// ===========================================================================
// Lemmas on the model
// ===========================================================================

/// The objects below a node depend only on the shape of that node and of
/// the nodes before it.
proof fn lemma_subtree_frame(n1: Seq<BvhNode>, n2: Seq<BvhNode>, k: int)
    requires
        0 <= k < n1.len(),
        k < n2.len(),
        forall|j: int| 0 <= j <= k ==> same_shape(#[trigger] n1[j], n2[j]),
    ensures
        subtree_objects(n1, k) == subtree_objects(n2, k),
    decreases k,
{
    assert(same_shape(n1[k], n2[k]));
    match (n1[k].object_index, n1[k].left, n1[k].right) {
        (None, Some(l), Some(r)) => {
            if l < k && r < k {
                lemma_subtree_frame(n1, n2, l as int);
                lemma_subtree_frame(n1, n2, r as int);
            }
        },
        _ => {},
    }
}

/// Which nodes lie below a node depends only on the shape of that node and
/// of the nodes before it.
proof fn lemma_in_subtree_frame(n1: Seq<BvhNode>, n2: Seq<BvhNode>, k: int)
    requires
        0 <= k < n1.len(),
        k < n2.len(),
        forall|j: int| 0 <= j <= k ==> same_shape(#[trigger] n1[j], n2[j]),
    ensures
        forall|j: int| #[trigger] in_subtree(n1, k, j) == in_subtree(n2, k, j),
    decreases k,
{
    assert(same_shape(n1[k], n2[k]));
    match (n1[k].object_index, n1[k].left, n1[k].right) {
        (None, Some(l), Some(r)) => {
            if l < k && r < k {
                lemma_in_subtree_frame(n1, n2, l as int);
                lemma_in_subtree_frame(n1, n2, r as int);
            }
        },
        _ => {},
    }
    assert forall|j: int| #[trigger] in_subtree(n1, k, j) == in_subtree(n2, k, j) by {
        match (n1[k].object_index, n1[k].left, n1[k].right) {
            (None, Some(l), Some(r)) => {
                if l < k && r < k {
                    assert(in_subtree(n1, l as int, j) == in_subtree(n2, l as int, j));
                    assert(in_subtree(n1, r as int, j) == in_subtree(n2, r as int, j));
                }
            },
            _ => {},
        }
    }
}

/// Shape, tightness, median split and the set of nodes below node `k`
/// depend only on node `k` and the nodes before it.
proof fn lemma_node_frame(n1: Seq<BvhNode>, n2: Seq<BvhNode>, objs: Seq<BroadPhaseAABB>, k: int)
    requires
        0 <= k < n1.len(),
        k < n2.len(),
        forall|j: int| 0 <= j <= k ==> same_shape(#[trigger] n1[j], n2[j]) && n1[j].aabb == n2[j].aabb,
    ensures
        structure_ok(n1, k, objs) == structure_ok(n2, k, objs),
        subtree_objects(n1, k) == subtree_objects(n2, k),
        forall|j: int| #[trigger] in_subtree(n1, k, j) == in_subtree(n2, k, j),
        node_shape_ok(n1, k, objs.len()) ==> node_split_ok(n1, k, objs) == node_split_ok(n2, k, objs),
        node_shape_ok(n1, k, objs.len()) ==> node_layout_ok(n1, k) == node_layout_ok(n2, k),
{
    lemma_subtree_frame(n1, n2, k);
    lemma_in_subtree_frame(n1, n2, k);
    assert(same_shape(n1[k], n2[k]));
    match (n1[k].object_index, n1[k].left, n1[k].right) {
        (None, Some(l), Some(r)) => {
            if l < k && r < k {
                lemma_subtree_frame(n1, n2, l as int);
                lemma_subtree_frame(n1, n2, r as int);
                assert(same_shape(n1[l as int], n2[l as int]));
                assert(same_shape(n1[r as int], n2[r as int]));
            }
        },
        _ => {},
    }
}

/// Appending nodes to an arena, and changing no earlier node, keeps what
/// holds of one earlier node.
proof fn lemma_append_keeps_node(old_nodes: Seq<BvhNode>, nodes: Seq<BvhNode>, objs: Seq<BroadPhaseAABB>, k: int)
    requires
        old_nodes.len() <= nodes.len(),
        forall|j: int| 0 <= j < old_nodes.len() ==> #[trigger] nodes[j] == old_nodes[j],
        0 <= k < old_nodes.len(),
    ensures
        structure_ok(nodes, k, objs) == structure_ok(old_nodes, k, objs),
        node_shape_ok(old_nodes, k, objs.len()) ==> (node_links_ok(nodes, k) == node_links_ok(old_nodes, k)
            && node_split_ok(nodes, k, objs) == node_split_ok(old_nodes, k, objs)),
{
    assert forall|j: int| 0 <= j <= k implies same_shape(#[trigger] old_nodes[j], nodes[j])
        && old_nodes[j].aabb == nodes[j].aabb by {
        assert(nodes[j] == old_nodes[j]);
    }
    lemma_node_frame(old_nodes, nodes, objs, k);
    if node_shape_ok(old_nodes, k, objs.len()) {
        match (old_nodes[k].object_index, old_nodes[k].left, old_nodes[k].right) {
            (None, Some(l), Some(r)) => {
                assert(nodes[l as int] == old_nodes[l as int]);
                assert(nodes[r as int] == old_nodes[r as int]);
            },
            _ => {},
        }
    }
}

/// Appending nodes to an arena, and changing no earlier node, keeps what
/// holds of each earlier node.
proof fn lemma_append_keeps_earlier(old_nodes: Seq<BvhNode>, nodes: Seq<BvhNode>, objs: Seq<BroadPhaseAABB>)
    requires
        old_nodes.len() <= nodes.len(),
        forall|j: int| 0 <= j < old_nodes.len() ==> #[trigger] nodes[j] == old_nodes[j],
    ensures
        forall|k: int|
            0 <= k < old_nodes.len() ==> #[trigger] structure_ok(nodes, k, objs) == structure_ok(old_nodes, k, objs),
        forall|k: int|
            0 <= k < old_nodes.len() && node_shape_ok(old_nodes, k, objs.len()) ==> (#[trigger] node_links_ok(nodes, k)
                == node_links_ok(old_nodes, k) && node_split_ok(nodes, k, objs) == node_split_ok(old_nodes, k, objs)),
{
    assert forall|k: int| 0 <= k < old_nodes.len() implies #[trigger] structure_ok(nodes, k, objs)
        == structure_ok(old_nodes, k, objs) by {
        lemma_append_keeps_node(old_nodes, nodes, objs, k);
    }
    assert forall|k: int|
        0 <= k < old_nodes.len() && node_shape_ok(old_nodes, k, objs.len()) implies (#[trigger] node_links_ok(nodes, k)
            == node_links_ok(old_nodes, k) && node_split_ok(nodes, k, objs) == node_split_ok(old_nodes, k, objs)) by {
        lemma_append_keeps_node(old_nodes, nodes, objs, k);
    }
}

/// A finished subtree, stored in `lo .. hi` of `nk` with its root at
/// `root`, stays finished in `nodes`, which agrees with `nk` below `hi` on
/// shapes and boxes and changes only the parent of nodes that had none.
proof fn lemma_subtree_carried(
    nk: Seq<BvhNode>,
    nodes: Seq<BvhNode>,
    objs: Seq<BroadPhaseAABB>,
    lo: int,
    hi: int,
    root: int,
)
    requires
        0 <= lo <= root < hi <= nk.len(),
        hi <= nodes.len(),
        forall|j: int|
            0 <= j < hi ==> (#[trigger] nodes[j] == nk[j] || (nk[j].parent is None && same_shape(nk[j], nodes[j])
                && nk[j].aabb == nodes[j].aabb)),
        forall|k: int|
            lo <= k < hi ==> #[trigger] node_built(nk, k, objs) && in_subtree(nk, root, k),
    ensures
        forall|k: int|
            lo <= k < hi ==> #[trigger] node_built(nodes, k, objs) && in_subtree(nodes, root, k),
{
    assert forall|j: int| 0 <= j < hi implies same_shape(#[trigger] nk[j], nodes[j]) && nk[j].aabb == nodes[j].aabb by {
        assert(nodes[j] == nk[j] || (nk[j].parent is None && same_shape(nk[j], nodes[j])));
    }
    lemma_in_subtree_frame(nk, nodes, root);
    assert forall|k: int| lo <= k < hi implies #[trigger] node_built(nodes, k, objs) && in_subtree(nodes, root, k) by {
        assert(node_built(nk, k, objs));
        assert(in_subtree(nk, root, k));
        lemma_node_frame(nk, nodes, objs, k);
        match (nk[k].object_index, nk[k].left, nk[k].right) {
            (None, Some(l), Some(r)) => {
                assert(l < k && r < k);
                assert(nk[l as int].parent == Some(k as usize));
                assert(nk[r as int].parent == Some(k as usize));
                assert(nodes[l as int] == nk[l as int]);
                assert(nodes[r as int] == nk[r as int]);
            },
            _ => {},
        }
    }
}

/// Joining two finished subtrees, stored one after the other, under a new
/// parent node appended after them gives a finished subtree: every node of
/// it is well shaped, tight, linked and split at the median of the widest
/// axis, and lies below the new parent.
proof fn lemma_join_subtrees(
    nodes1: Seq<BvhNode>,
    nodes2: Seq<BvhNode>,
    nodes: Seq<BvhNode>,
    objs: Seq<BroadPhaseAABB>,
    old_len: int,
    left: usize,
    right: usize,
    p: usize,
    left_set: Set<usize>,
    right_set: Set<usize>,
    axis: int,
)
    requires
        0 <= old_len <= left,
        left + 1 == nodes1.len(),
        left + 1 <= right,
        right + 1 == nodes2.len(),
        nodes.len() == nodes2.len() + 1,
        nodes.len() == p + 1,
        forall|j: int| 0 <= j < nodes1.len() ==> #[trigger] nodes2[j] == nodes1[j],
        forall|k: int|
            old_len <= k < nodes1.len() ==> #[trigger] node_built(nodes1, k, objs) && in_subtree(nodes1, left as int, k),
        forall|k: int|
            nodes1.len() <= k < nodes2.len() ==> #[trigger] node_built(nodes2, k, objs) && in_subtree(nodes2, right as int, k),
        nodes2.len() - nodes1.len() == 2 * right_set.len() - 1,
        subtree_objects(nodes1, left as int) == left_set,
        subtree_objects(nodes2, right as int) == right_set,
        nodes1[left as int].parent is None,
        nodes2[right as int].parent is None,
        forall|j: int| 0 <= j < nodes2.len() && j != left as int && j != right as int ==> #[trigger] nodes[j] == nodes2[j],
        same_shape(nodes[left as int], nodes2[left as int]) && nodes[left as int].aabb == nodes2[left as int].aabb,
        same_shape(nodes[right as int], nodes2[right as int]) && nodes[right as int].aabb == nodes2[right as int].aabb,
        nodes[left as int].parent == Some(p),
        nodes[right as int].parent == Some(p),
        nodes[p as int].object_index is None,
        nodes[p as int].left == Some(left),
        nodes[p as int].right == Some(right),
        is_union_box(nodes[p as int].aabb, nodes2[left as int].aabb, nodes2[right as int].aabb),
        left_set.disjoint(right_set),
        left_set.len() == left_set.union(right_set).len() / 2,
        centers_ordered(objs, left_set, right_set, axis),
        is_widest_axis(objs, left_set.union(right_set), axis),
    ensures
        forall|k: int|
            old_len <= k < nodes.len() ==> #[trigger] node_built(nodes, k, objs) && in_subtree(nodes, p as int, k),
        subtree_objects(nodes, p as int) == left_set.union(right_set),
        subtree_objects(nodes, left as int) == left_set,
        subtree_objects(nodes, right as int) == right_set,
{
    let l1 = nodes1.len() as int;
    let l2 = nodes2.len() as int;
    assert forall|j: int| 0 <= j < l1 implies (#[trigger] nodes[j] == nodes1[j] || (nodes1[j].parent is None
        && same_shape(nodes1[j], nodes[j]) && nodes1[j].aabb == nodes[j].aabb)) by {
        assert(nodes2[j] == nodes1[j]);
    }
    lemma_subtree_carried(nodes1, nodes, objs, old_len, l1, left as int);
    let left_done = |k: int| node_built(nodes, k, objs) && in_subtree(nodes, left as int, k);
    assert forall|k: int| old_len <= k < l1 implies #[trigger] left_done(k) by {
        assert(node_built(nodes, k, objs));
    }
    assert forall|j: int| 0 <= j < l2 implies (#[trigger] nodes[j] == nodes2[j] || (nodes2[j].parent is None
        && same_shape(nodes2[j], nodes[j]) && nodes2[j].aabb == nodes[j].aabb)) by {
        if j == left as int {
            assert(nodes2[j] == nodes1[j]);
        }
    }
    assert forall|k: int| l1 <= k < l2 implies #[trigger] node_built(nodes2, k, objs) && in_subtree(nodes2, right as int, k) by {
        assert(node_built(nodes2, k, objs));
    }
    lemma_subtree_carried(nodes2, nodes, objs, l1, l2, right as int);
    let right_done = |k: int| node_built(nodes, k, objs) && in_subtree(nodes, right as int, k);
    assert forall|k: int| l1 <= k < l2 implies #[trigger] right_done(k) by {
        assert(node_built(nodes, k, objs));
    }
    assert forall|j: int| 0 <= j <= left as int implies same_shape(#[trigger] nodes1[j], nodes[j])
        && nodes1[j].aabb == nodes[j].aabb by {
        assert(nodes2[j] == nodes1[j]);
        assert(nodes[j] == nodes1[j] || j == left as int);
    }
    lemma_node_frame(nodes1, nodes, objs, left as int);
    assert forall|j: int| 0 <= j <= right as int implies same_shape(#[trigger] nodes2[j], nodes[j])
        && nodes2[j].aabb == nodes[j].aabb by {
        assert(nodes[j] == nodes2[j] || j == left as int || j == right as int);
    }
    lemma_node_frame(nodes2, nodes, objs, right as int);
    assert(subtree_objects(nodes, p as int) == left_set.union(right_set));
    assert(structure_ok(nodes, p as int, objs));
    assert(node_links_ok(nodes, p as int));
    assert(node_split_ok(nodes, p as int, objs));
    assert(node_layout_ok(nodes, p as int));
    assert(node_built(nodes, p as int, objs));
    assert(in_subtree(nodes, p as int, p as int));
    assert forall|k: int| old_len <= k < nodes.len() implies #[trigger] node_built(nodes, k, objs) && in_subtree(
        nodes,
        p as int,
        k,
    ) by {
        if k < l1 {
            assert(left_done(k));
            assert(in_subtree(nodes, p as int, k));
        } else if k < l2 {
            assert(right_done(k));
            assert(in_subtree(nodes, p as int, k));
        }
    }
}

/// A leaf below a node holds one of the objects below that node.
proof fn lemma_leaf_in_subtree(nodes: Seq<BvhNode>, k: int, j: int)
    requires
        in_subtree(nodes, k, j),
        nodes[j].object_index is Some,
    ensures
        subtree_objects(nodes, k).contains(nodes[j].object_index->0),
    decreases k,
{
    if j != k {
        let l = nodes[k].left->0 as int;
        let r = nodes[k].right->0 as int;
        if in_subtree(nodes, l, j) {
            lemma_leaf_in_subtree(nodes, l, j);
        } else {
            lemma_leaf_in_subtree(nodes, r, j);
        }
    }
}

/// Every object below a node is held by a leaf below that node.
proof fn lemma_object_has_leaf(nodes: Seq<BvhNode>, k: int, o: usize)
    requires
        subtree_objects(nodes, k).contains(o),
    ensures
        exists|j: int| 0 <= j < nodes.len() && in_subtree(nodes, k, j) && #[trigger] nodes[j].object_index == Some(o),
    decreases k,
{
    match nodes[k].object_index {
        Some(x) => {
            assert(in_subtree(nodes, k, k));
        },
        None => {
            let l = nodes[k].left->0 as int;
            let r = nodes[k].right->0 as int;
            if subtree_objects(nodes, l).contains(o) {
                lemma_object_has_leaf(nodes, l, o);
                let j = choose|j: int| 0 <= j < nodes.len() && in_subtree(nodes, l, j) && #[trigger] nodes[j].object_index == Some(o);
                assert(in_subtree(nodes, k, j));
            } else {
                lemma_object_has_leaf(nodes, r, o);
                let j = choose|j: int| 0 <= j < nodes.len() && in_subtree(nodes, r, j) && #[trigger] nodes[j].object_index == Some(o);
                assert(in_subtree(nodes, k, j));
            }
        },
    }
}

/// Below a well-shaped node no two leaves hold the same object.
proof fn lemma_unique_leaf(nodes: Seq<BvhNode>, n: nat, k: int, j1: int, j2: int)
    requires
        forall|j: int| 0 <= j < nodes.len() ==> #[trigger] node_shape_ok(nodes, j, n),
        in_subtree(nodes, k, j1),
        in_subtree(nodes, k, j2),
        nodes[j1].object_index is Some,
        nodes[j2].object_index == nodes[j1].object_index,
    ensures
        j1 == j2,
    decreases k,
{
    assert(node_shape_ok(nodes, k, n));
    if nodes[k].object_index is Some {
        assert(j1 == k && j2 == k);
    } else {
        let l = nodes[k].left->0 as int;
        let r = nodes[k].right->0 as int;
        assert(j1 != k && j2 != k);
        let o = nodes[j1].object_index->0;
        if in_subtree(nodes, l, j1) && in_subtree(nodes, l, j2) {
            lemma_unique_leaf(nodes, n, l, j1, j2);
        } else if in_subtree(nodes, r, j1) && in_subtree(nodes, r, j2) {
            lemma_unique_leaf(nodes, n, r, j1, j2);
        } else if in_subtree(nodes, l, j1) {
            lemma_leaf_in_subtree(nodes, l, j1);
            lemma_leaf_in_subtree(nodes, r, j2);
            assert(subtree_objects(nodes, l).disjoint(subtree_objects(nodes, r)));
        } else {
            lemma_leaf_in_subtree(nodes, r, j1);
            lemma_leaf_in_subtree(nodes, l, j2);
            assert(subtree_objects(nodes, l).disjoint(subtree_objects(nodes, r)));
        }
    }
}

/// Every object below a well-shaped node is one of the `n` objects.
proof fn lemma_subtree_in_range(nodes: Seq<BvhNode>, n: nat, k: int)
    requires
        0 <= k < nodes.len(),
        forall|j: int| 0 <= j < nodes.len() ==> #[trigger] node_shape_ok(nodes, j, n),
    ensures
        forall|o: usize| #[trigger] subtree_objects(nodes, k).contains(o) ==> o < n,
    decreases k,
{
    assert(node_shape_ok(nodes, k, n));
    match nodes[k].object_index {
        Some(o) => {},
        None => {
            let l = nodes[k].left->0;
            let r = nodes[k].right->0;
            lemma_subtree_in_range(nodes, n, l as int);
            lemma_subtree_in_range(nodes, n, r as int);
        },
    }
}

/// The box of a node in a valid arena encloses the box of every object
/// below it.
proof fn lemma_objects_enclosed(nodes: Seq<BvhNode>, objs: Seq<BroadPhaseAABB>, k: int)
    requires
        0 <= k < nodes.len(),
        forall|j: int| 0 <= j < nodes.len() ==> #[trigger] node_shape_ok(nodes, j, objs.len()),
        forall|j: int| 0 <= j < nodes.len() ==> #[trigger] node_bounds_ok(nodes, j, objs),
    ensures
        forall|o: usize| #[trigger] subtree_objects(nodes, k).contains(o) ==> o < objs.len()
            && box_contains(nodes[k].aabb, objs[o as int]),
    decreases k,
{
    assert(node_shape_ok(nodes, k, objs.len()));
    assert(node_bounds_ok(nodes, k, objs));
    match nodes[k].object_index {
        Some(o) => {},
        None => {
            let l = nodes[k].left->0;
            let r = nodes[k].right->0;
            lemma_objects_enclosed(nodes, objs, l as int);
            lemma_objects_enclosed(nodes, objs, r as int);
            lemma_union_is_least_enclosing_box(
                nodes[k].aabb,
                nodes[l as int].aabb,
                nodes[r as int].aabb,
                nodes[k].aabb,
            );
            assert forall|o: usize| #[trigger] subtree_objects(nodes, k).contains(o) implies o
                < objs.len() && box_contains(nodes[k].aabb, objs[o as int]) by {
                if subtree_objects(nodes, l as int).contains(o) {
                    lemma_contains_transitive(nodes[k].aabb, nodes[l as int].aabb, objs[o as int]);
                } else {
                    lemma_contains_transitive(nodes[k].aabb, nodes[r as int].aabb, objs[o as int]);
                }
            }
        },
    }
}

/// No pair crosses between two groups whose enclosing boxes are apart.
proof fn lemma_crossing_pruned(
    objs: Seq<BroadPhaseAABB>,
    x: Set<usize>,
    y: Set<usize>,
    bx: BroadPhaseAABB,
    by_: BroadPhaseAABB,
)
    requires
        forall|o: usize| #[trigger] x.contains(o) ==> o < objs.len() && box_contains(bx, objs[o as int]),
        forall|o: usize| #[trigger] y.contains(o) ==> o < objs.len() && box_contains(by_, objs[o as int]),
        !boxes_overlap(bx, by_),
    ensures
        crossing_pairs(objs, x, y) == Set::<(usize, usize)>::empty(),
{
    assert forall|p: (usize, usize)| !#[trigger] crossing_pairs(objs, x, y).contains(p) by {
        if overlapping_pair(objs, p) && pair_spans(p, x, y) {
            let a = objs[p.0 as int];
            let b = objs[p.1 as int];
            if x.contains(p.0) && y.contains(p.1) {
                lemma_overlap_monotone(a, b, bx, by_);
            } else {
                lemma_overlap_monotone(a, b, by_, bx);
                lemma_overlap_symmetric(by_, bx);
            }
        }
    }
    assert(crossing_pairs(objs, x, y) =~= Set::<(usize, usize)>::empty());
}

/// Pairs crossing into a union split into the pairs crossing into each part.
proof fn lemma_crossing_union(objs: Seq<BroadPhaseAABB>, x: Set<usize>, y1: Set<usize>, y2: Set<usize>)
    ensures
        crossing_pairs(objs, x, y1.union(y2)) == crossing_pairs(objs, x, y1).union(
            crossing_pairs(objs, x, y2),
        ),
        x.disjoint(y1.union(y2)) && y1.disjoint(y2) ==> crossing_pairs(objs, x, y1).disjoint(
            crossing_pairs(objs, x, y2),
        ),
{
    assert(crossing_pairs(objs, x, y1.union(y2)) =~= crossing_pairs(objs, x, y1).union(
        crossing_pairs(objs, x, y2),
    ));
}

/// Crossing pairs do not depend on the order of the two groups.
proof fn lemma_crossing_symmetric(objs: Seq<BroadPhaseAABB>, x: Set<usize>, y: Set<usize>)
    ensures
        crossing_pairs(objs, x, y) == crossing_pairs(objs, y, x),
{
    assert(crossing_pairs(objs, x, y) =~= crossing_pairs(objs, y, x));
}

/// The pairs inside a union of two disjoint groups are the pairs inside each
/// group and the pairs crossing between them, and these three are disjoint.
proof fn lemma_inner_union(objs: Seq<BroadPhaseAABB>, x: Set<usize>, y: Set<usize>)
    requires
        x.disjoint(y),
    ensures
        inner_pairs(objs, x.union(y)) == crossing_pairs(objs, x, y).union(inner_pairs(objs, x)).union(
            inner_pairs(objs, y),
        ),
        crossing_pairs(objs, x, y).disjoint(inner_pairs(objs, x)),
        crossing_pairs(objs, x, y).union(inner_pairs(objs, x)).disjoint(inner_pairs(objs, y)),
{
    assert(inner_pairs(objs, x.union(y)) =~= crossing_pairs(objs, x, y).union(
        inner_pairs(objs, x),
    ).union(inner_pairs(objs, y)));
}

/// Concatenating two duplicate-free sequences with disjoint elements gives a
/// duplicate-free sequence holding the elements of both.
proof fn lemma_concat_no_dup<A>(a: Seq<A>, b: Seq<A>)
    requires
        a.no_duplicates(),
        b.no_duplicates(),
        a.to_set().disjoint(b.to_set()),
    ensures
        (a + b).no_duplicates(),
        (a + b).to_set() == a.to_set().union(b.to_set()),
{
    assert forall|i: int, j: int| 0 <= i < a.len() && 0 <= j < b.len() implies a[i] != b[j] by {
        assert(a.to_set().contains(a[i]));
        assert(b.to_set().contains(b[j]));
    }
    vstd::seq_lib::lemma_no_dup_in_concat(a, b);
    assert forall|x: A| #[trigger] (a + b).to_set().contains(x) == a.to_set().union(b.to_set()).contains(x) by {
        if (a + b).contains(x) {
            let k = choose|k: int| 0 <= k < (a + b).len() && (a + b)[k] == x;
            if k < a.len() {
                assert(a[k] == x);
            } else {
                assert(b[k - a.len()] == x);
            }
        }
        if a.contains(x) {
            let k = choose|k: int| 0 <= k < a.len() && a[k] == x;
            assert((a + b)[k] == x);
        }
        if b.contains(x) {
            let k = choose|k: int| 0 <= k < b.len() && b[k] == x;
            assert((a + b)[k + a.len()] == x);
        }
    }
    assert((a + b).to_set() =~= a.to_set().union(b.to_set()));
}


/// Lowest-first ordering of two distinct object indices.
fn ordered_pair(a: usize, b: usize) -> (p: (usize, usize))
    ensures
        p.0 == (if a < b { a } else { b }),
        p.1 == (if a < b { b } else { a }),
{
    if a < b { (a, b) } else { (b, a) }
}

/// The single pair formed by two distinct leaves is their crossing pair
/// set, if their boxes overlap.
proof fn lemma_two_leaves(objs: Seq<BroadPhaseAABB>, a: usize, b: usize, p: (usize, usize))
    requires
        a != b,
        a < objs.len(),
        b < objs.len(),
        p.0 == (if a < b { a } else { b }),
        p.1 == (if a < b { b } else { a }),
    ensures
        boxes_overlap(objs[a as int], objs[b as int]) ==> crossing_pairs(
            objs,
            Set::empty().insert(a),
            Set::empty().insert(b),
        ) == Set::empty().insert(p),
        !boxes_overlap(objs[a as int], objs[b as int]) ==> crossing_pairs(
            objs,
            Set::empty().insert(a),
            Set::empty().insert(b),
        ) == Set::<(usize, usize)>::empty(),
{
    lemma_overlap_symmetric(objs[a as int], objs[b as int]);
    if boxes_overlap(objs[a as int], objs[b as int]) {
        assert(crossing_pairs(objs, Set::empty().insert(a), Set::empty().insert(b)) =~= Set::empty().insert(p));
    } else {
        assert(crossing_pairs(objs, Set::empty().insert(a), Set::empty().insert(b)) =~= Set::<(usize, usize)>::empty());
    }
}

/// Ordered pairs `p.0 < p.1` of the `n` objects with one member in `x`
/// and the other in `y`, whether or not their boxes overlap.
pub open spec fn spanning_pairs(n: nat, x: Set<usize>, y: Set<usize>) -> Set<(usize, usize)> {
    Set::new(|p: (usize, usize)| p.0 < p.1 && p.1 < n && pair_spans(p, x, y))
}

/// Ordered pairs `p.0 < p.1` of the `n` objects with both members in `x`,
/// whether or not their boxes overlap.
pub open spec fn internal_pairs(n: nat, x: Set<usize>) -> Set<(usize, usize)> {
    Set::new(|p: (usize, usize)| p.0 < p.1 && p.1 < n && x.contains(p.0) && x.contains(p.1))
}

/// How the spanning and internal pair sets split over disjoint unions.
proof fn lemma_spanning_split(n: nat, x: Set<usize>, y1: Set<usize>, y2: Set<usize>)
    ensures
        spanning_pairs(n, x, y1.union(y2)) == spanning_pairs(n, x, y1).union(spanning_pairs(n, x, y2)),
        x.disjoint(y1.union(y2)) && y1.disjoint(y2) ==> spanning_pairs(n, x, y1).disjoint(
            spanning_pairs(n, x, y2),
        ),
        spanning_pairs(n, x, y1) == spanning_pairs(n, y1, x),
        x.disjoint(y1) ==> internal_pairs(n, x.union(y1)) == spanning_pairs(n, x, y1).union(
            internal_pairs(n, x),
        ).union(internal_pairs(n, y1)),
        x.disjoint(y1) ==> spanning_pairs(n, x, y1).disjoint(internal_pairs(n, x)),
        x.disjoint(y1) ==> spanning_pairs(n, x, y1).union(internal_pairs(n, x)).disjoint(
            internal_pairs(n, y1),
        ),
{
    assert(spanning_pairs(n, x, y1.union(y2)) =~= spanning_pairs(n, x, y1).union(
        spanning_pairs(n, x, y2),
    ));
    assert(spanning_pairs(n, x, y1) =~= spanning_pairs(n, y1, x));
    if x.disjoint(y1) {
        assert(internal_pairs(n, x.union(y1)) =~= spanning_pairs(n, x, y1).union(
            internal_pairs(n, x),
        ).union(internal_pairs(n, y1)));
    }
}

/// Concatenation of two duplicate-free sequences drawn from disjoint sets.
proof fn lemma_concat_within<A>(a: Seq<A>, b: Seq<A>, sa: Set<A>, sb: Set<A>)
    requires
        a.no_duplicates(),
        b.no_duplicates(),
        a.to_set().subset_of(sa),
        b.to_set().subset_of(sb),
        sa.disjoint(sb),
    ensures
        (a + b).no_duplicates(),
        (a + b).to_set() == a.to_set().union(b.to_set()),
        (a + b).to_set().subset_of(sa.union(sb)),
{
    lemma_concat_no_dup(a, b);
}

/// On axis `i`, the extent of the box `b`.
pub open spec fn extent(b: BroadPhaseAABB, i: int) -> int {
    b.max.0[i] - b.min.0[i]
}

/// Surface area of the box `b`: twice the sum of its three face areas.
pub open spec fn box_surface_area(b: BroadPhaseAABB) -> int {
    2 * (extent(b, 0) * extent(b, 1) + extent(b, 1) * extent(b, 2) + extent(b, 2) * extent(b, 0))
}

/// The surface area of a box does not depend on how its axes are named:
/// exchanging any two axes keeps it. A cube of side `s` has area `6 s^2`,
/// and a flat box (no extent along one axis) has twice the area of its
/// face.
pub proof fn lemma_surface_area_of_boxes(b: BroadPhaseAABB, c: BroadPhaseAABB)
    ensures
        (extent(c, 0) == extent(b, 1) && extent(c, 1) == extent(b, 0) && extent(c, 2) == extent(b, 2))
            ==> box_surface_area(c) == box_surface_area(b),
        (extent(c, 0) == extent(b, 2) && extent(c, 1) == extent(b, 1) && extent(c, 2) == extent(b, 0))
            ==> box_surface_area(c) == box_surface_area(b),
        (extent(c, 0) == extent(b, 0) && extent(c, 1) == extent(b, 2) && extent(c, 2) == extent(b, 1))
            ==> box_surface_area(c) == box_surface_area(b),
        (extent(b, 0) == extent(b, 1) && extent(b, 1) == extent(b, 2)) ==> box_surface_area(b) == 6 * extent(b, 0)
            * extent(b, 0),
        extent(b, 2) == 0 ==> box_surface_area(b) == 2 * (extent(b, 0) * extent(b, 1)),
{
    assert((extent(c, 0) == extent(b, 1) && extent(c, 1) == extent(b, 0) && extent(c, 2) == extent(b, 2))
        ==> box_surface_area(c) == box_surface_area(b)) by (nonlinear_arith);
    assert((extent(c, 0) == extent(b, 2) && extent(c, 1) == extent(b, 1) && extent(c, 2) == extent(b, 0))
        ==> box_surface_area(c) == box_surface_area(b)) by (nonlinear_arith);
    assert((extent(c, 0) == extent(b, 0) && extent(c, 1) == extent(b, 2) && extent(c, 2) == extent(b, 1))
        ==> box_surface_area(c) == box_surface_area(b)) by (nonlinear_arith);
    assert((extent(b, 0) == extent(b, 1) && extent(b, 1) == extent(b, 2)) ==> box_surface_area(b) == 6 * extent(
        b,
        0,
    ) * extent(b, 0)) by (nonlinear_arith);
    assert(extent(b, 2) == 0 ==> box_surface_area(b) == 2 * (extent(b, 0) * extent(b, 1))) by (nonlinear_arith);
}

/// The face areas of `b`, their running sums and the surface area are
/// `i128` values.
pub open spec fn surface_area_fits(b: BroadPhaseAABB) -> bool {
    let xy = extent(b, 0) * extent(b, 1);
    let yz = extent(b, 1) * extent(b, 2);
    let zx = extent(b, 2) * extent(b, 0);
    &&& i128::MIN <= xy <= i128::MAX
    &&& i128::MIN <= yz <= i128::MAX
    &&& i128::MIN <= zx <= i128::MAX
    &&& i128::MIN <= xy + yz <= i128::MAX
    &&& i128::MIN <= xy + yz + zx <= i128::MAX
    &&& i128::MIN <= 2 * (xy + yz + zx) <= i128::MAX
}

impl BvhTree {
    /// Create an empty BVH tree.
    pub fn new() -> (t: Self)
        ensures
            t.nodes@.len() == 0,
            t.root is None,
            t.object_aabbs@.len() == 0,
            t.wf(),
            t.parents_linked(),
            t.median_split(),
    {
        BvhTree { nodes: Vec::new(), root: None, object_aabbs: Vec::new() }
    }

    /// Surface area of an AABB, in squared grid units.
    pub fn surface_area(aabb: &BroadPhaseAABB) -> (area: i128)
        requires
            surface_area_fits(*aabb),
        ensures
            area == box_surface_area(*aabb),
            area == 2 * ((aabb.max.0[0] - aabb.min.0[0]) * (aabb.max.0[1] - aabb.min.0[1]) + (aabb.max.0[1]
                - aabb.min.0[1]) * (aabb.max.0[2] - aabb.min.0[2]) + (aabb.max.0[2] - aabb.min.0[2]) * (aabb.max.0[0]
                - aabb.min.0[0])),
    {
        let dx: i128 = aabb.max.0[0] as i128 - aabb.min.0[0] as i128;
        let dy: i128 = aabb.max.0[1] as i128 - aabb.min.0[1] as i128;
        let dz: i128 = aabb.max.0[2] as i128 - aabb.min.0[2] as i128;
        let xy: i128 = dx * dy;
        let yz: i128 = dy * dz;
        let zx: i128 = dz * dx;
        let s: i128 = xy + yz;
        let t: i128 = s + zx;
        2 * t
    }

    /// Find all potentially overlapping pairs by traversing the BVH.
    ///
    /// Returns a list of `(i, j)` pairs of objects with `i < j`, each at
    /// most once. When the node boxes are up to date (after `build`, or
    /// after `refit` following a change of the object boxes) the list holds
    /// every pair whose AABBs overlap and no other pair. A tree that holds
    /// only some of the objects (for instance after boxes were appended
    /// without a rebuild) gives the overlapping pairs among the objects
    /// below its root. A tree without a root gives no pairs.
    pub fn find_potential_pairs(&self) -> (pairs: Vec<(usize, usize)>)
        requires
            self.root matches Some(r) ==> r < self.nodes@.len() && self.nodes_well_shaped(),
        ensures
            pairs@.no_duplicates(),
            forall|p: (usize, usize)| #[trigger] pairs@.contains(p) ==> p.0 < p.1 && p.1 < self.object_aabbs@.len(),
            self.root is None ==> pairs@.len() == 0,
            self.root matches Some(r) ==> (self.bounds_ok() ==> pairs@.to_set() == inner_pairs(
                self.object_aabbs@,
                subtree_objects(self.nodes@, r as int),
            )),
            self.shape_wf() && self.bounds_ok() ==> pairs@.to_set() == overlapping_pairs(self.object_aabbs@),
    {
        match self.root {
            Some(root) => {
                let pairs = self.find_pairs_recursive(root);
                assert(inner_pairs(self.object_aabbs@, all_objects(self.object_aabbs@.len()))
                    =~= overlapping_pairs(self.object_aabbs@));
                assert forall|p: (usize, usize)| #[trigger] pairs@.contains(p) implies p.0 < p.1 && p.1 < self.object_aabbs@.len() by {
                    assert(pairs@.to_set().contains(p));
                }
                pairs
            },
            None => {
                let pairs: Vec<(usize, usize)> = Vec::new();
                proof {
                    if self.shape_wf() {
                        assert(pairs@.to_set() =~= overlapping_pairs(self.object_aabbs@));
                    }
                }
                pairs
            },
        }
    }

    /// All overlapping pairs among the objects below node `node_idx`.
    fn find_pairs_recursive(&self, node_idx: usize) -> (pairs: Vec<(usize, usize)>)
        requires
            self.nodes_well_shaped(),
            node_idx < self.nodes@.len(),
        ensures
            pairs@.no_duplicates(),
            pairs@.to_set().subset_of(
                internal_pairs(self.object_aabbs@.len(), subtree_objects(self.nodes@, node_idx as int)),
            ),
            self.bounds_ok() ==> pairs@.to_set() == inner_pairs(
                self.object_aabbs@,
                subtree_objects(self.nodes@, node_idx as int),
            ),
        decreases node_idx,
    {
        let ghost nodes = self.nodes@;
        let ghost objs = self.object_aabbs@;
        let ghost n = objs.len();
        let ghost k = node_idx as int;
        assert(node_shape_ok(nodes, k, objs.len()));
        let node = self.nodes[node_idx];
        if let (Some(left_idx), Some(right_idx)) = (node.left, node.right) {
            let ghost xl = subtree_objects(nodes, left_idx as int);
            let ghost xr = subtree_objects(nodes, right_idx as int);
            assert(node.object_index is None);
            assert(subtree_objects(nodes, k) == xl.union(xr));
            proof {
                lemma_spanning_split(n, xl, xr, xr);
                if self.bounds_ok() {
                    lemma_objects_enclosed(nodes, objs, left_idx as int);
                    lemma_objects_enclosed(nodes, objs, right_idx as int);
                    lemma_inner_union(objs, xl, xr);
                    assert(node_bounds_ok(nodes, left_idx as int, objs));
                    assert(node_bounds_ok(nodes, right_idx as int, objs));
                }
                lemma_subtree_in_range(nodes, n, left_idx as int);
                lemma_subtree_in_range(nodes, n, right_idx as int);
            }
            let left = self.nodes[left_idx];
            let right = self.nodes[right_idx];
            assert(node_shape_ok(nodes, left_idx as int, objs.len()));
            assert(node_shape_ok(nodes, right_idx as int, objs.len()));

            let mut pairs: Vec<(usize, usize)> = Vec::new();
            if aabb_overlap(&left.aabb, &right.aabb) {
                if left.is_leaf() && right.is_leaf() {
                    if let (Some(li), Some(ri)) = (left.object_index, right.object_index) {
                        proof {
                            assert(xl.contains(li));
                            assert(xr.contains(ri));
                        }
                        let p = ordered_pair(li, ri);
                        pairs.push(p);
                        proof {
                            lemma_two_leaves(objs, li, ri, p);
                            assert(pairs@ =~= seq![p]);
                            assert(seq![p][0] == p);
                            assert(seq![p].to_set() =~= Set::empty().insert(p));
                        }
                    }
                } else if left.is_leaf() {
                    let li = match left.object_index {
                        Some(o) => o,
                        None => 0,
                    };
                    proof {
                        lemma_overlap_symmetric(left.aabb, right.aabb);
                        lemma_crossing_symmetric(objs, xl, xr);
                        assert(xl == Set::empty().insert(li));
                    }
                    pairs = self.leaf_vs_subtree(right_idx, li);
                } else if right.is_leaf() {
                    let ri = match right.object_index {
                        Some(o) => o,
                        None => 0,
                    };
                    proof {
                        assert(xr == Set::empty().insert(ri));
                    }
                    pairs = self.leaf_vs_subtree(left_idx, ri);
                } else {
                    pairs = self.subtree_vs_subtree(left_idx, right_idx);
                }
            } else {
                proof {
                    if self.bounds_ok() {
                        lemma_crossing_pruned(objs, xl, xr, left.aabb, right.aabb);
                    }
                    assert(pairs@.to_set() =~= Set::<(usize, usize)>::empty());
                }
            }
            let ghost cross = pairs@;
            let mut in_left = self.find_pairs_recursive(left_idx);
            proof {
                lemma_concat_within(cross, in_left@, spanning_pairs(n, xl, xr), internal_pairs(n, xl));
            }
            pairs.append(&mut in_left);
            let ghost so_far = pairs@;
            let mut in_right = self.find_pairs_recursive(right_idx);
            proof {
                lemma_concat_within(
                    so_far,
                    in_right@,
                    spanning_pairs(n, xl, xr).union(internal_pairs(n, xl)),
                    internal_pairs(n, xr),
                );
            }
            pairs.append(&mut in_right);
            pairs
        } else {
            let pairs: Vec<(usize, usize)> = Vec::new();
            proof {
                let o = node.object_index->0;
                assert(subtree_objects(nodes, k) == Set::empty().insert(o));
                assert(pairs@.to_set() =~= inner_pairs(objs, subtree_objects(nodes, k)));
            }
            pairs
        }
    }

    /// Test a leaf object against all leaves in a subtree.
    fn leaf_vs_subtree(&self, node_idx: usize, obj_idx: usize) -> (pairs: Vec<(usize, usize)>)
        requires
            self.nodes_well_shaped(),
            node_idx < self.nodes@.len(),
            obj_idx < self.object_aabbs@.len(),
            !subtree_objects(self.nodes@, node_idx as int).contains(obj_idx),
            self.bounds_ok() ==> boxes_overlap(
                self.nodes@[node_idx as int].aabb,
                self.object_aabbs@[obj_idx as int],
            ),
        ensures
            pairs@.no_duplicates(),
            pairs@.to_set().subset_of(
                spanning_pairs(
                    self.object_aabbs@.len(),
                    Set::empty().insert(obj_idx),
                    subtree_objects(self.nodes@, node_idx as int),
                ),
            ),
            self.bounds_ok() ==> pairs@.to_set() == crossing_pairs(
                self.object_aabbs@,
                Set::empty().insert(obj_idx),
                subtree_objects(self.nodes@, node_idx as int),
            ),
        decreases node_idx,
    {
        let ghost nodes = self.nodes@;
        let ghost objs = self.object_aabbs@;
        let ghost n = objs.len();
        let ghost k = node_idx as int;
        let ghost single = Set::empty().insert(obj_idx);
        assert(node_shape_ok(nodes, k, objs.len()));
        let node = self.nodes[node_idx];

        if node.is_leaf() {
            let mut pairs: Vec<(usize, usize)> = Vec::new();
            if let Some(other_idx) = node.object_index {
                if other_idx != obj_idx {
                    let p = ordered_pair(obj_idx, other_idx);
                    pairs.push(p);
                    proof {
                        if self.bounds_ok() {
                            assert(node_bounds_ok(nodes, k, objs));
                            lemma_overlap_symmetric(node.aabb, objs[obj_idx as int]);
                        }
                        lemma_two_leaves(objs, obj_idx, other_idx, p);
                        assert(subtree_objects(nodes, k) == Set::empty().insert(other_idx));
                        assert(pairs@ =~= seq![p]);
                        assert(seq![p][0] == p);
                        assert(seq![p].to_set() =~= Set::empty().insert(p));
                    }
                }
            }
            return pairs;
        }

        let left_idx = match node.left {
            Some(l) => l,
            None => 0,
        };
        let right_idx = match node.right {
            Some(r) => r,
            None => 0,
        };
        let ghost xl = subtree_objects(nodes, left_idx as int);
        let ghost xr = subtree_objects(nodes, right_idx as int);
        proof {
            assert(subtree_objects(nodes, k) == xl.union(xr));
            lemma_spanning_split(n, single, xl, xr);
            if self.bounds_ok() {
                lemma_crossing_union(objs, single, xl, xr);
                lemma_objects_enclosed(nodes, objs, left_idx as int);
                lemma_objects_enclosed(nodes, objs, right_idx as int);
            }
            assert forall|o: usize| #[trigger] single.contains(o) implies o < objs.len() && box_contains(
                objs[obj_idx as int],
                objs[o as int],
            ) by {}
        }

        let mut pairs: Vec<(usize, usize)> = Vec::new();
        let left = self.nodes[left_idx];
        if aabb_overlap(&left.aabb, &self.object_aabbs[obj_idx]) {
            pairs = self.leaf_vs_subtree(left_idx, obj_idx);
        } else {
            proof {
                if self.bounds_ok() {
                    lemma_crossing_pruned(objs, single, xl, objs[obj_idx as int], left.aabb);
                    lemma_overlap_symmetric(objs[obj_idx as int], left.aabb);
                }
                assert(pairs@.to_set() =~= Set::<(usize, usize)>::empty());
            }
        }
        let ghost from_left = pairs@;
        let right = self.nodes[right_idx];
        let mut from_right: Vec<(usize, usize)> = Vec::new();
        if aabb_overlap(&right.aabb, &self.object_aabbs[obj_idx]) {
            from_right = self.leaf_vs_subtree(right_idx, obj_idx);
        } else {
            proof {
                if self.bounds_ok() {
                    lemma_crossing_pruned(objs, single, xr, objs[obj_idx as int], right.aabb);
                    lemma_overlap_symmetric(objs[obj_idx as int], right.aabb);
                }
                assert(from_right@.to_set() =~= Set::<(usize, usize)>::empty());
            }
        }
        proof {
            lemma_concat_within(from_left, from_right@, spanning_pairs(n, single, xl), spanning_pairs(n, single, xr));
        }
        pairs.append(&mut from_right);
        pairs
    }

    /// All overlapping pairs with one object below node `a` and the other
    /// below node `b`.
    fn subtree_vs_subtree(&self, a: usize, b: usize) -> (pairs: Vec<(usize, usize)>)
        requires
            self.nodes_well_shaped(),
            a < self.nodes@.len(),
            b < self.nodes@.len(),
            subtree_objects(self.nodes@, a as int).disjoint(subtree_objects(self.nodes@, b as int)),
        ensures
            pairs@.no_duplicates(),
            pairs@.to_set().subset_of(
                spanning_pairs(
                    self.object_aabbs@.len(),
                    subtree_objects(self.nodes@, a as int),
                    subtree_objects(self.nodes@, b as int),
                ),
            ),
            self.bounds_ok() ==> pairs@.to_set() == crossing_pairs(
                self.object_aabbs@,
                subtree_objects(self.nodes@, a as int),
                subtree_objects(self.nodes@, b as int),
            ),
        decreases a + b,
    {
        let ghost nodes = self.nodes@;
        let ghost objs = self.object_aabbs@;
        let ghost n = objs.len();
        let ghost xa = subtree_objects(nodes, a as int);
        let ghost xb = subtree_objects(nodes, b as int);
        assert(node_shape_ok(nodes, a as int, objs.len()));
        assert(node_shape_ok(nodes, b as int, objs.len()));
        proof {
            if self.bounds_ok() {
                assert(node_bounds_ok(nodes, a as int, objs));
                assert(node_bounds_ok(nodes, b as int, objs));
                lemma_objects_enclosed(nodes, objs, a as int);
                lemma_objects_enclosed(nodes, objs, b as int);
            }
            lemma_spanning_split(n, xa, xb, xb);
        }
        let na = self.nodes[a];
        let nb = self.nodes[b];
        if !aabb_overlap(&na.aabb, &nb.aabb) {
            let pairs: Vec<(usize, usize)> = Vec::new();
            proof {
                if self.bounds_ok() {
                    lemma_crossing_pruned(objs, xa, xb, na.aabb, nb.aabb);
                }
                assert(pairs@.to_set() =~= Set::<(usize, usize)>::empty());
            }
            return pairs;
        }
        if let Some(oa) = na.object_index {
            proof {
                assert(xa == Set::empty().insert(oa));
                lemma_overlap_symmetric(na.aabb, nb.aabb);
            }
            return self.leaf_vs_subtree(b, oa);
        }
        if let Some(ob) = nb.object_index {
            proof {
                assert(xb == Set::empty().insert(ob));
                lemma_crossing_symmetric(objs, xa, xb);
            }
            return self.leaf_vs_subtree(a, ob);
        }
        let bl = match nb.left {
            Some(l) => l,
            None => 0,
        };
        let br = match nb.right {
            Some(r) => r,
            None => 0,
        };
        let ghost xbl = subtree_objects(nodes, bl as int);
        let ghost xbr = subtree_objects(nodes, br as int);
        proof {
            assert(xb == xbl.union(xbr));
            lemma_crossing_union(objs, xa, xbl, xbr);
            lemma_spanning_split(n, xa, xbl, xbr);
        }
        let mut pairs = self.subtree_vs_subtree(a, bl);
        let ghost first = pairs@;
        let mut rest = self.subtree_vs_subtree(a, br);
        proof {
            lemma_concat_within(first, rest@, spanning_pairs(n, xa, xbl), spanning_pairs(n, xa, xbr));
        }
        pairs.append(&mut rest);
        pairs
    }
}

/// Query the BVH for all object pairs whose AABBs overlap.
///
/// This is the broad-phase result: every pair `(i, j)` with `i < j` whose
/// boxes overlap, exactly once. Use narrow-phase tests to confirm actual
/// contact.
pub fn bvh_broad_phase(aabbs: &[BroadPhaseAABB]) -> (pairs: Vec<(usize, usize)>)
    ensures
        pairs@.no_duplicates(),
        pairs@.to_set() == overlapping_pairs(aabbs@),
{
    let tree = BvhTree::build(aabbs);
    tree.find_potential_pairs()
}

/// The broad phase answers with exactly the pairs `(i, j)`, `i < j`, of
/// objects whose boxes meet on each of the three axes: objects whose
/// intervals are apart on any one axis are never paired.
pub proof fn lemma_broad_phase_pairs_meet_on_every_axis(objs: Seq<BroadPhaseAABB>, p: (usize, usize))
    ensures
        overlapping_pairs(objs).contains(p) <==> (p.0 < p.1 && p.1 < objs.len() && forall|i: int|
            0 <= i < 3 ==> objs[p.0 as int].max.0[i] >= objs[p.1 as int].min.0[i] && objs[p.0 as int].min.0[i]
                <= objs[p.1 as int].max.0[i]),
{
    if p.1 < objs.len() {
        lemma_overlap_is_every_axis(objs[p.0 as int], objs[p.1 as int]);
    }
}

/// On axis `i`, twice the gap from the centre of `b` to the centre of `a`:
/// the difference of the two boxes' corner sums, which is exact on the grid.
pub open spec fn center_gap(a: BroadPhaseAABB, b: BroadPhaseAABB, i: int) -> int {
    center_key(a, i) - center_key(b, i)
}

/// Twice the gap between the centres of `a` and `b` is a grid coordinate
/// on every axis.
pub open spec fn center_gap_fits(a: BroadPhaseAABB, b: BroadPhaseAABB) -> bool {
    forall|i: int| 0 <= i < 3 ==> i64::MIN <= #[trigger] center_gap(a, b, i) <= i64::MAX
}

/// The direction from which the narrow-phase query between `a` and `b`
/// starts: from the centre of `b` towards the centre of `a` (scaled by two,
/// so that it is exact on the grid), or the unit `x` direction where the
/// two centres coincide.
pub open spec fn search_direction(a: BroadPhaseAABB, b: BroadPhaseAABB) -> Vector3 {
    if center_gap(a, b, 0) == 0 && center_gap(a, b, 1) == 0 && center_gap(a, b, 2) == 0 {
        Vector3([1, 0, 0])
    } else {
        Vector3([center_gap(a, b, 0) as i64, center_gap(a, b, 1) as i64, center_gap(a, b, 2) as i64])
    }
}

/// The narrow phase starts from `b`'s centre towards `a`'s: along every
/// axis the direction is positive exactly where `a`'s centre lies beyond
/// `b`'s, zero where they are level and negative where it lies short of it,
/// and it is twice the gap between the centres. Where the centres coincide
/// it is the unit `x` direction.
pub proof fn lemma_search_direction_points_between_centres(a: BroadPhaseAABB, b: BroadPhaseAABB)
    requires
        center_gap_fits(a, b),
    ensures
        ({
            let d = search_direction(a, b);
            let same = forall|i: int|
                0 <= i < 3 ==> a.min.0[i] + a.max.0[i] == b.min.0[i] + b.max.0[i];
            &&& same ==> d == Vector3([1, 0, 0])
            &&& !same ==> forall|i: int|
                0 <= i < 3 ==> d.0[i] == (a.min.0[i] + a.max.0[i]) - (b.min.0[i] + b.max.0[i])
                    && (d.0[i] > 0 <==> a.min.0[i] + a.max.0[i] > b.min.0[i] + b.max.0[i])
                    && (d.0[i] < 0 <==> a.min.0[i] + a.max.0[i] < b.min.0[i] + b.max.0[i])
        }),
{
    let d = search_direction(a, b);
    assert(i64::MIN <= center_gap(a, b, 0) <= i64::MAX);
    assert(i64::MIN <= center_gap(a, b, 1) <= i64::MAX);
    assert(i64::MIN <= center_gap(a, b, 2) <= i64::MAX);
    let same = forall|i: int| 0 <= i < 3 ==> a.min.0[i] + a.max.0[i] == b.min.0[i] + b.max.0[i];
    if same {
        assert(a.min.0[0] + a.max.0[0] == b.min.0[0] + b.max.0[0]);
        assert(a.min.0[1] + a.max.0[1] == b.min.0[1] + b.max.0[1]);
        assert(a.min.0[2] + a.max.0[2] == b.min.0[2] + b.max.0[2]);
    } else {
        assert forall|i: int| 0 <= i < 3 implies d.0[i] == (a.min.0[i] + a.max.0[i]) - (b.min.0[i] + b.max.0[i]) by {
            assert(i == 0 || i == 1 || i == 2);
        }
    }
}

/// On axis `i`, twice the gap from the centre of `b` to the centre of `a`.
fn doubled_center_gap(a: &BroadPhaseAABB, b: &BroadPhaseAABB, i: usize) -> (g: i64)
    requires
        i < 3,
        i64::MIN <= center_gap(*a, *b, i as int) <= i64::MAX,
    ensures
        g == center_gap(*a, *b, i as int),
{
    let d: i128 = axis_key(a, i) - axis_key(b, i);
    d as i64
}

/// Narrow-phase collision test between two objects with the given AABBs.
///
/// The boxes gate the test: where they do not overlap, the answer is `None`
/// and `query` is not run. Otherwise `query`, the distance query between the
/// two shapes, runs once from the direction between the box centres
/// ([`search_direction`]) and its result is returned.
pub fn narrow_phase_test<R, F: Fn(Vector3) -> R>(
    query: F,
    aabb_a: &BroadPhaseAABB,
    aabb_b: &BroadPhaseAABB,
) -> (res: Option<R>)
    requires
        forall|d: Vector3| #[trigger] query.requires((d,)),
        boxes_overlap(*aabb_a, *aabb_b) ==> center_gap_fits(*aabb_a, *aabb_b),
    ensures
        res is None <==> !boxes_overlap(*aabb_a, *aabb_b),
        res matches Some(r) ==> query.ensures((search_direction(*aabb_a, *aabb_b),), r),
{
    if !aabb_overlap(aabb_a, aabb_b) {
        return None;
    }
    assert(i64::MIN <= center_gap(*aabb_a, *aabb_b, 0) <= i64::MAX);
    assert(i64::MIN <= center_gap(*aabb_a, *aabb_b, 1) <= i64::MAX);
    assert(i64::MIN <= center_gap(*aabb_a, *aabb_b, 2) <= i64::MAX);
    let sep = Vector3::new(
        doubled_center_gap(aabb_a, aabb_b, 0),
        doubled_center_gap(aabb_a, aabb_b, 1),
        doubled_center_gap(aabb_a, aabb_b, 2),
    );
    let dir = if sep.0[0] == 0 && sep.0[1] == 0 && sep.0[2] == 0 {
        Vector3::new(1, 0, 0)
    } else {
        sep
    };
    assert(dir.0 =~= search_direction(*aabb_a, *aabb_b).0);
    Some(query(dir))
}


// ===========================================================================
// Construction
// ===========================================================================

/// Node `k` is well shaped and its box is tight.
pub open spec fn structure_ok(nodes: Seq<BvhNode>, k: int, objs: Seq<BroadPhaseAABB>) -> bool {
    node_shape_ok(nodes, k, objs.len()) && node_bounds_ok(nodes, k, objs)
}

/// Sum of the two corner coordinates of `b` on `axis`: twice its centre.
pub open spec fn center_key(b: BroadPhaseAABB, axis: int) -> int {
    b.min.0[axis] + b.max.0[axis]
}

/// The centre key of a box is twice its centre: the sum of its two corner
/// coordinates, lying as far above twice the minimum as below twice the
/// maximum. It rises one for one with either corner and does not change
/// when the two corners trade places.
pub proof fn lemma_center_key_is_twice_the_centre(b: BroadPhaseAABB, axis: int)
    requires
        0 <= axis < 3,
    ensures
        center_key(b, axis) == b.min.0[axis] + b.max.0[axis],
        center_key(b, axis) - 2 * b.min.0[axis] == 2 * b.max.0[axis] - center_key(b, axis),
        center_key(BroadPhaseAABB { min: b.max, max: b.min }, axis) == center_key(b, axis),
        forall|c: BroadPhaseAABB|
            c.min.0[axis] == b.min.0[axis] && #[trigger] c.max.0[axis] > b.max.0[axis] ==> center_key(c, axis)
                > center_key(b, axis),
        forall|c: BroadPhaseAABB|
            c.max.0[axis] == b.max.0[axis] && #[trigger] c.min.0[axis] > b.min.0[axis] ==> center_key(c, axis)
                > center_key(b, axis),
{
}

/// Along `axis`, every object of `xl` has its centre at or before the centre
/// of every object of `xr`.
pub open spec fn centers_ordered(objs: Seq<BroadPhaseAABB>, xl: Set<usize>, xr: Set<usize>, axis: int) -> bool {
    forall|x: usize, y: usize|
        #[trigger] xl.contains(x) && #[trigger] xr.contains(y) ==> center_key(objs[x as int], axis)
            <= center_key(objs[y as int], axis)
}

/// `m` is the largest centre key along `axis` of the objects in `s`.
pub open spec fn is_key_max(objs: Seq<BroadPhaseAABB>, s: Set<usize>, axis: int, m: int) -> bool {
    &&& exists|x: usize| s.contains(x) && #[trigger] center_key(objs[x as int], axis) == m
    &&& forall|x: usize| s.contains(x) ==> #[trigger] center_key(objs[x as int], axis) <= m
}

/// `m` is the smallest centre key along `axis` of the objects in `s`.
pub open spec fn is_key_min(objs: Seq<BroadPhaseAABB>, s: Set<usize>, axis: int, m: int) -> bool {
    &&& exists|x: usize| s.contains(x) && #[trigger] center_key(objs[x as int], axis) == m
    &&& forall|x: usize| s.contains(x) ==> m <= #[trigger] center_key(objs[x as int], axis)
}

/// The largest centre key along `axis` of the objects in `s`.
pub open spec fn set_key_max(objs: Seq<BroadPhaseAABB>, s: Set<usize>, axis: int) -> int {
    choose|m: int| is_key_max(objs, s, axis, m)
}

/// The smallest centre key along `axis` of the objects in `s`.
pub open spec fn set_key_min(objs: Seq<BroadPhaseAABB>, s: Set<usize>, axis: int) -> int {
    choose|m: int| is_key_min(objs, s, axis, m)
}

/// How far the centres of the objects in `s` spread along `axis`.
pub open spec fn set_key_spread(objs: Seq<BroadPhaseAABB>, s: Set<usize>, axis: int) -> int {
    set_key_max(objs, s, axis) - set_key_min(objs, s, axis)
}

/// `axis` is the axis along which the centres of the objects in `s` spread
/// the most, and the first such axis on ties.
pub open spec fn is_widest_axis(objs: Seq<BroadPhaseAABB>, s: Set<usize>, axis: int) -> bool {
    &&& 0 <= axis < 3
    &&& forall|b: int|
        0 <= b < 3 ==> #[trigger] set_key_spread(objs, s, b) <= set_key_spread(objs, s, axis) && (b < axis
            ==> set_key_spread(objs, s, b) < set_key_spread(objs, s, axis))
}

/// A finite non-empty set of objects has a largest and a smallest centre
/// key along every axis.
proof fn lemma_key_extremes_exist(objs: Seq<BroadPhaseAABB>, s: Set<usize>, axis: int)
    requires
        s.finite(),
        s.len() > 0,
    ensures
        is_key_max(objs, s, axis, set_key_max(objs, s, axis)),
        is_key_min(objs, s, axis, set_key_min(objs, s, axis)),
    decreases s.len(),
{
    let x = s.choose();
    assert(s.contains(x));
    let kx = center_key(objs[x as int], axis);
    if s.len() == 1 {
        assert forall|y: usize| s.contains(y) implies y == x by {
            if y != x {
                assert(s.remove(x).contains(y));
                assert(s.remove(x).len() == 0);
            }
        }
        assert(is_key_max(objs, s, axis, kx));
        assert(is_key_min(objs, s, axis, kx));
    } else {
        let t = s.remove(x);
        lemma_key_extremes_exist(objs, t, axis);
        let mt = set_key_max(objs, t, axis);
        let nt = set_key_min(objs, t, axis);
        let m = if kx > mt { kx } else { mt };
        let n = if kx < nt { kx } else { nt };
        assert forall|y: usize| s.contains(y) implies #[trigger] center_key(objs[y as int], axis) <= m by {
            if y != x {
                assert(t.contains(y));
            }
        }
        assert forall|y: usize| s.contains(y) implies n <= #[trigger] center_key(objs[y as int], axis) by {
            if y != x {
                assert(t.contains(y));
            }
        }
        if kx <= mt {
            let w = choose|w: usize| t.contains(w) && #[trigger] center_key(objs[w as int], axis) == mt;
            assert(s.contains(w));
        }
        if kx >= nt {
            let w = choose|w: usize| t.contains(w) && #[trigger] center_key(objs[w as int], axis) == nt;
            assert(s.contains(w));
        }
        assert(is_key_max(objs, s, axis, m));
        assert(is_key_min(objs, s, axis, n));
    }
}

/// Along `b`, two objects of a finite non-empty set lie at most the set's
/// spread apart.
proof fn lemma_gap_within_spread(objs: Seq<BroadPhaseAABB>, s: Set<usize>, b: int, x: usize, y: usize)
    requires
        s.finite(),
        s.len() > 0,
        s.contains(x),
        s.contains(y),
    ensures
        center_key(objs[x as int], b) - center_key(objs[y as int], b) <= set_key_spread(objs, s, b),
{
    lemma_key_extremes_exist(objs, s, b);
    assert(center_key(objs[x as int], b) <= set_key_max(objs, s, b));
    assert(set_key_min(objs, s, b) <= center_key(objs[y as int], b));
}

/// The spread of a finite non-empty set is the gap between two of its
/// objects.
proof fn lemma_spread_attained(objs: Seq<BroadPhaseAABB>, s: Set<usize>, axis: int)
    requires
        s.finite(),
        s.len() > 0,
    ensures
        exists|x2: usize, y2: usize|
            #![trigger s.contains(x2), s.contains(y2)]
            s.contains(x2) && s.contains(y2) && center_key(objs[x2 as int], axis) - center_key(objs[y2 as int], axis)
                == set_key_spread(objs, s, axis),
{
    lemma_key_extremes_exist(objs, s, axis);
    let hi = set_key_max(objs, s, axis);
    let lo = set_key_min(objs, s, axis);
    let x2 = choose|w: usize| s.contains(w) && #[trigger] center_key(objs[w as int], axis) == hi;
    let y2 = choose|w: usize| s.contains(w) && #[trigger] center_key(objs[w as int], axis) == lo;
    assert(s.contains(x2) && s.contains(y2));
}

/// No two objects of `s` lie farther apart along any axis than `top`, the
/// spread along the widest axis, and along an earlier axis they lie less
/// far apart.
pub open spec fn spread_bounded_by(objs: Seq<BroadPhaseAABB>, s: Set<usize>, axis: int, top: int) -> bool {
    forall|b: int, x: usize, y: usize|
        #![trigger center_key(objs[x as int], b), center_key(objs[y as int], b)]
        0 <= b < 3 && s.contains(x) && s.contains(y) ==> center_key(objs[x as int], b) - center_key(objs[y as int], b)
            <= top && (b < axis ==> center_key(objs[x as int], b) - center_key(objs[y as int], b) < top)
}

/// Every gap along any axis is within the spread along the widest axis.
proof fn lemma_gaps_within_widest(objs: Seq<BroadPhaseAABB>, s: Set<usize>, axis: int)
    requires
        s.finite(),
        s.len() > 0,
        is_widest_axis(objs, s, axis),
    ensures
        spread_bounded_by(objs, s, axis, set_key_spread(objs, s, axis)),
{
    assert forall|b: int, x: usize, y: usize|
        #![trigger center_key(objs[x as int], b), center_key(objs[y as int], b)]
        0 <= b < 3 && s.contains(x) && s.contains(y) implies center_key(objs[x as int], b) - center_key(
            objs[y as int],
            b,
        ) <= set_key_spread(objs, s, axis) && (b < axis ==> center_key(objs[x as int], b) - center_key(
            objs[y as int],
            b,
        ) < set_key_spread(objs, s, axis)) by {
        lemma_gap_within_spread(objs, s, b, x, y);
        assert(set_key_spread(objs, s, b) <= set_key_spread(objs, s, axis));
    }
}

/// Along the split axis the centres of a node's objects spread the most:
/// some two of its objects lie at least as far apart along it as any two
/// lie along any axis, and farther apart than any two lie along an earlier
/// axis.
pub proof fn lemma_split_axis_spreads_most(objs: Seq<BroadPhaseAABB>, s: Set<usize>, axis: int)
    requires
        s.finite(),
        s.len() > 0,
        is_widest_axis(objs, s, axis),
    ensures
        exists|x2: usize, y2: usize|
            #![trigger s.contains(x2), s.contains(y2)]
            s.contains(x2) && s.contains(y2) && spread_bounded_by(
                objs,
                s,
                axis,
                center_key(objs[x2 as int], axis) - center_key(objs[y2 as int], axis),
            ),
{
    lemma_spread_attained(objs, s, axis);
    lemma_gaps_within_widest(objs, s, axis);
}

/// Internal node `k` is a median split along the widest axis: its left
/// child holds half of its objects (rounded down), and along the axis in
/// which the centres of its objects spread the most (the first on ties)
/// every left object's centre lies at or before every right object's
/// centre.
pub open spec fn node_split_ok(nodes: Seq<BvhNode>, k: int, objs: Seq<BroadPhaseAABB>) -> bool {
    match (nodes[k].object_index, nodes[k].left, nodes[k].right) {
        (None, Some(l), Some(r)) => {
            &&& subtree_objects(nodes, l as int).len() == subtree_objects(nodes, k).len() / 2
            &&& exists|axis: int|
                is_widest_axis(objs, subtree_objects(nodes, k), axis) && #[trigger] centers_ordered(
                    objs,
                    subtree_objects(nodes, l as int),
                    subtree_objects(nodes, r as int),
                    axis,
                )
        },
        _ => true,
    }
}

/// Internal node `k` is stored right after its subtree: its right child
/// comes just before it, and its left child just before the right child's
/// subtree (a subtree of `m` objects fills `2 m - 1` slots).
pub open spec fn node_layout_ok(nodes: Seq<BvhNode>, k: int) -> bool {
    match (nodes[k].object_index, nodes[k].left, nodes[k].right) {
        (None, Some(l), Some(r)) => r == k - 1 && l == k - 1 - (2 * subtree_objects(nodes, r as int).len() - 1),
        _ => true,
    }
}

/// Node `k` is as construction leaves it: well shaped, tight, linked to its
/// children, split at the median of its widest axis and stored right after
/// its subtree.
pub open spec fn node_built(nodes: Seq<BvhNode>, k: int, objs: Seq<BroadPhaseAABB>) -> bool {
    &&& structure_ok(nodes, k, objs)
    &&& node_links_ok(nodes, k)
    &&& node_split_ok(nodes, k, objs)
    &&& node_layout_ok(nodes, k)
}

/// Along `axis`, every object of `xl` has its centre before that of every
/// object of `xr`, or at the same place and earlier in `order`.
pub open spec fn ordered_halves(
    objs: Seq<BroadPhaseAABB>,
    order: Seq<usize>,
    xl: Set<usize>,
    xr: Set<usize>,
    axis: int,
) -> bool {
    forall|x: usize, y: usize|
        #[trigger] xl.contains(x) && #[trigger] xr.contains(y) ==> center_key(objs[x as int], axis) < center_key(
            objs[y as int],
            axis,
        ) || (center_key(objs[x as int], axis) == center_key(objs[y as int], axis) && precedes(order, x, y))
}

/// Internal node `k` splits its objects along their widest axis, and where
/// centres tie along it the objects that come first in `order` go left.
pub open spec fn split_follows_order(nodes: Seq<BvhNode>, k: int, objs: Seq<BroadPhaseAABB>, order: Seq<usize>) -> bool {
    match (nodes[k].object_index, nodes[k].left, nodes[k].right) {
        (None, Some(l), Some(r)) => exists|axis: int|
            is_widest_axis(objs, subtree_objects(nodes, k), axis) && #[trigger] ordered_halves(
                objs,
                order,
                subtree_objects(nodes, l as int),
                subtree_objects(nodes, r as int),
                axis,
            ),
        _ => true,
    }
}

/// The object indices `0 .. n` in increasing order.
pub open spec fn index_order(n: nat) -> Seq<usize> {
    Seq::new(n, |i: int| i as usize)
}

/// In the increasing order of object indices, `x` comes before `y` exactly
/// when `x < y`.
pub proof fn lemma_index_order_precedes(n: nat, x: usize, y: usize)
    requires
        n <= usize::MAX,
        x < n,
        y < n,
    ensures
        precedes(index_order(n), x, y) <==> x < y,
{
    let s = index_order(n);
    if x < y {
        assert(s[x as int] == x && s[y as int] == y);
    }
    if precedes(s, x, y) {
        let (a, b) = choose|a: int, b: int| 0 <= a < b < s.len() && #[trigger] s[a] == x && #[trigger] s[b] == y;
        assert(s[a] == a as usize);
    }
}

/// Twice the centre of `b` on `axis`, computed exactly.
fn axis_key(b: &BroadPhaseAABB, axis: usize) -> (k: i128)
    requires
        axis < 3,
    ensures
        k == center_key(*b, axis as int),
        k == b.min.0[axis as int] + b.max.0[axis as int],
        -0x1_0000_0000_0000_0000 <= k <= 0x1_0000_0000_0000_0000,
{
    b.min.0[axis] as i128 + b.max.0[axis] as i128
}

/// Largest centre key along `axis` of the boxes that `idx` selects (of the
/// first, where `idx` is empty).
pub open spec fn key_max(aabbs: Seq<BroadPhaseAABB>, idx: Seq<usize>, axis: int) -> int
    decreases idx.len(),
{
    if idx.len() <= 1 {
        center_key(aabbs[idx[0] as int], axis)
    } else {
        let m = key_max(aabbs, idx.drop_last(), axis);
        let c = center_key(aabbs[idx.last() as int], axis);
        if c > m { c } else { m }
    }
}

/// Smallest centre key along `axis` of the boxes that `idx` selects (of the
/// first, where `idx` is empty).
pub open spec fn key_min(aabbs: Seq<BroadPhaseAABB>, idx: Seq<usize>, axis: int) -> int
    decreases idx.len(),
{
    if idx.len() <= 1 {
        center_key(aabbs[idx[0] as int], axis)
    } else {
        let m = key_min(aabbs, idx.drop_last(), axis);
        let c = center_key(aabbs[idx.last() as int], axis);
        if c < m { c } else { m }
    }
}

/// How far the centres of the boxes that `idx` selects spread along `axis`
/// (in units of half a grid step).
pub open spec fn key_spread(aabbs: Seq<BroadPhaseAABB>, idx: Seq<usize>, axis: int) -> int {
    key_max(aabbs, idx, axis) - key_min(aabbs, idx, axis)
}

/// The largest and smallest centre keys of a non-empty selection are
/// attained by selected objects and bound all the others.
proof fn lemma_key_bounds(aabbs: Seq<BroadPhaseAABB>, idx: Seq<usize>, axis: int)
    requires
        idx.len() >= 1,
    ensures
        exists|i: int| 0 <= i < idx.len() && center_key(aabbs[idx[i] as int], axis) == key_max(aabbs, idx, axis),
        exists|i: int| 0 <= i < idx.len() && center_key(aabbs[idx[i] as int], axis) == key_min(aabbs, idx, axis),
        forall|i: int|
            0 <= i < idx.len() ==> key_min(aabbs, idx, axis) <= #[trigger] center_key(aabbs[idx[i] as int], axis)
                <= key_max(aabbs, idx, axis),
    decreases idx.len(),
{
    if idx.len() <= 1 {
        assert(center_key(aabbs[idx[0] as int], axis) == key_max(aabbs, idx, axis));
        assert(center_key(aabbs[idx[0] as int], axis) == key_min(aabbs, idx, axis));
    } else {
        let p = idx.drop_last();
        lemma_key_bounds(aabbs, p, axis);
        let last = idx.len() - 1;
        assert forall|i: int| 0 <= i < idx.len() implies key_min(aabbs, idx, axis) <= #[trigger] center_key(
            aabbs[idx[i] as int],
            axis,
        ) <= key_max(aabbs, idx, axis) by {
            if i < last {
                assert(idx[i] == p[i]);
                assert(center_key(aabbs[p[i] as int], axis) <= key_max(aabbs, p, axis));
                assert(key_min(aabbs, p, axis) <= center_key(aabbs[p[i] as int], axis));
            }
        }
        if center_key(aabbs[idx[last] as int], axis) > key_max(aabbs, p, axis) {
            assert(center_key(aabbs[idx[last] as int], axis) == key_max(aabbs, idx, axis));
        } else {
            let i = choose|i: int| 0 <= i < p.len() && center_key(aabbs[p[i] as int], axis) == key_max(aabbs, p, axis);
            assert(idx[i] == p[i]);
        }
        if center_key(aabbs[idx[last] as int], axis) < key_min(aabbs, p, axis) {
            assert(center_key(aabbs[idx[last] as int], axis) == key_min(aabbs, idx, axis));
        } else {
            let i = choose|i: int| 0 <= i < p.len() && center_key(aabbs[p[i] as int], axis) == key_min(aabbs, p, axis);
            assert(idx[i] == p[i]);
        }
    }
}

/// The spread of a non-empty selection is the spread of the set of
/// objects it selects.
proof fn lemma_key_spread_of_set(aabbs: Seq<BroadPhaseAABB>, idx: Seq<usize>, axis: int)
    requires
        idx.len() >= 1,
    ensures
        key_spread(aabbs, idx, axis) == set_key_spread(aabbs, idx.to_set(), axis),
{
    let s = idx.to_set();
    lemma_key_bounds(aabbs, idx, axis);
    let hi = key_max(aabbs, idx, axis);
    let lo = key_min(aabbs, idx, axis);
    let ih = choose|i: int| 0 <= i < idx.len() && center_key(aabbs[idx[i] as int], axis) == hi;
    let il = choose|i: int| 0 <= i < idx.len() && center_key(aabbs[idx[i] as int], axis) == lo;
    assert(s.contains(idx[ih]));
    assert(s.contains(idx[il]));
    assert forall|x: usize| s.contains(x) implies lo <= center_key(aabbs[x as int], axis) <= hi by {
        let i = choose|i: int| 0 <= i < idx.len() && idx[i] == x;
        assert(lo <= center_key(aabbs[idx[i] as int], axis) <= hi);
    }
    assert(is_key_max(aabbs, s, axis, hi));
    assert(is_key_min(aabbs, s, axis, lo));
    let m = set_key_max(aabbs, s, axis);
    let mn = set_key_min(aabbs, s, axis);
    let xm = choose|x: usize| s.contains(x) && center_key(aabbs[x as int], axis) == m;
    let xn = choose|x: usize| s.contains(x) && center_key(aabbs[x as int], axis) == mn;
    assert(center_key(aabbs[idx[ih] as int], axis) <= m);
    assert(lo <= center_key(aabbs[xn as int], axis));
    assert(mn <= center_key(aabbs[idx[il] as int], axis));
}

/// The axis along which the centres of the given boxes spread the most;
/// the first such axis on ties, axis 0 when they do not spread at all.
fn widest_axis(indices: &Vec<usize>, aabbs: &[BroadPhaseAABB]) -> (best_axis: usize)
    requires
        indices@.len() >= 1,
        forall|i: int| 0 <= i < indices@.len() ==> #[trigger] indices@[i] < aabbs@.len(),
    ensures
        best_axis < 3,
        forall|a: int|
            0 <= a < 3 ==> #[trigger] key_spread(aabbs@, indices@, a) <= key_spread(
                aabbs@,
                indices@,
                best_axis as int,
            ),
        forall|a: int|
            0 <= a < best_axis ==> #[trigger] key_spread(aabbs@, indices@, a) < key_spread(
                aabbs@,
                indices@,
                best_axis as int,
            ),
{
    let mut best_axis: usize = 0;
    let mut best_extent: i128 = 0;
    let mut axis: usize = 0;
    while axis < 3
        invariant
            axis <= 3,
            best_axis < 3,
            best_extent >= 0,
            indices@.len() >= 1,
            forall|i: int| 0 <= i < indices@.len() ==> #[trigger] indices@[i] < aabbs@.len(),
            forall|a: int| 0 <= a < axis ==> 0 <= #[trigger] key_spread(aabbs@, indices@, a) <= best_extent,
            forall|a: int| 0 <= a < best_axis ==> #[trigger] key_spread(aabbs@, indices@, a) < best_extent,
            (best_axis == 0 && best_extent == 0) || (best_axis < axis && best_extent == key_spread(
                aabbs@,
                indices@,
                best_axis as int,
            )),
        decreases 3 - axis,
    {
        let first = axis_key(&aabbs[indices[0]], axis);
        let mut lo: i128 = first;
        let mut hi: i128 = first;
        let mut t: usize = 1;
        assert(indices@.take(1).len() == 1 && indices@.take(1)[0] == indices@[0]);
        while t < indices.len()
            invariant
                axis < 3,
                1 <= t <= indices@.len(),
                forall|i: int| 0 <= i < indices@.len() ==> #[trigger] indices@[i] < aabbs@.len(),
                -0x1_0000_0000_0000_0000 <= lo <= hi <= 0x1_0000_0000_0000_0000,
                lo == key_min(aabbs@, indices@.take(t as int), axis as int),
                hi == key_max(aabbs@, indices@.take(t as int), axis as int),
            decreases indices@.len() - t,
        {
            let c = axis_key(&aabbs[indices[t]], axis);
            assert(indices@.take(t + 1).drop_last() =~= indices@.take(t as int));
            assert(indices@.take(t + 1).last() == indices@[t as int]);
            if c < lo {
                lo = c;
            }
            if c > hi {
                hi = c;
            }
            t = t + 1;
        }
        assert(indices@.take(t as int) =~= indices@);
        let extent = hi - lo;
        assert(extent == key_spread(aabbs@, indices@, axis as int));
        if extent > best_extent {
            best_extent = extent;
            best_axis = axis;
        }
        axis = axis + 1;
    }
    assert(key_spread(aabbs@, indices@, 0) <= best_extent);
    best_axis
}

/// Exchanging two entries keeps the length, the set of elements and the
/// absence of duplicates.
proof fn lemma_swap<A>(s: Seq<A>, a: int, b: int)
    requires
        0 <= a < s.len(),
        0 <= b < s.len(),
    ensures
        ({
            let t = s.update(a, s[b]).update(b, s[a]);
            &&& t.len() == s.len()
            &&& t.to_set() == s.to_set()
            &&& s.no_duplicates() ==> t.no_duplicates()
            &&& t[a] == s[b]
            &&& t[b] == s[a]
            &&& forall|k: int| 0 <= k < s.len() && k != a && k != b ==> t[k] == s[k]
        }),
{
    let t = s.update(a, s[b]).update(b, s[a]);
    assert forall|x: A| #[trigger] t.to_set().contains(x) == s.to_set().contains(x) by {
        if t.contains(x) {
            let k = choose|k: int| 0 <= k < t.len() && t[k] == x;
            if k == a {
                assert(s[b] == x);
            } else if k == b {
                assert(s[a] == x);
            } else {
                assert(s[k] == x);
            }
        }
        if s.contains(x) {
            let k = choose|k: int| 0 <= k < s.len() && s[k] == x;
            if k == a {
                assert(t[b] == x);
            } else if k == b {
                assert(t[a] == x);
            } else {
                assert(t[k] == x);
            }
        }
    }
    assert(t.to_set() =~= s.to_set());
    if s.no_duplicates() {
        assert forall|i: int, j: int| 0 <= i < t.len() && 0 <= j < t.len() && i != j implies t[i] != t[j] by {
            let si = if i == a { b } else if i == b { a } else { i };
            let sj = if j == a { b } else if j == b { a } else { j };
            assert(t[i] == s[si]);
            assert(t[j] == s[sj]);
        }
    }
}

/// Object `x` comes before object `y` in `s`.
pub open spec fn precedes(s: Seq<usize>, x: usize, y: usize) -> bool {
    exists|a: int, b: int| 0 <= a < b < s.len() && #[trigger] s[a] == x && #[trigger] s[b] == y
}

/// Objects of `s` whose centre keys along `axis` tie keep the order they
/// have in `order`.
pub open spec fn ties_keep_order(s: Seq<usize>, order: Seq<usize>, aabbs: Seq<BroadPhaseAABB>, axis: int) -> bool {
    forall|a: int, b: int|
        0 <= a < b < s.len() && center_key(aabbs[#[trigger] s[a] as int], axis) == center_key(
            aabbs[#[trigger] s[b] as int],
            axis,
        ) ==> precedes(order, s[a], s[b])
}

/// Exchanging two neighbours whose keys differ keeps the order of ties.
proof fn lemma_swap_keeps_ties(
    s: Seq<usize>,
    order: Seq<usize>,
    aabbs: Seq<BroadPhaseAABB>,
    axis: int,
    j: int,
)
    requires
        1 <= j < s.len(),
        center_key(aabbs[s[j - 1] as int], axis) != center_key(aabbs[s[j] as int], axis),
        ties_keep_order(s, order, aabbs, axis),
    ensures
        ties_keep_order(s.update(j, s[j - 1]).update(j - 1, s[j]), order, aabbs, axis),
{
    let t = s.update(j, s[j - 1]).update(j - 1, s[j]);
    assert forall|a: int, b: int|
        0 <= a < b < t.len() && center_key(aabbs[#[trigger] t[a] as int], axis) == center_key(
            aabbs[#[trigger] t[b] as int],
            axis,
        ) implies precedes(order, t[a], t[b]) by {
        let sa = if a == j { j - 1 } else if a == j - 1 { j } else { a };
        let sb = if b == j { j - 1 } else if b == j - 1 { j } else { b };
        assert(t[a] == s[sa]);
        assert(t[b] == s[sb]);
        assert(sa < sb);
        assert(center_key(aabbs[s[sa] as int], axis) == center_key(aabbs[s[sb] as int], axis));
    }
}

/// Centre keys along `axis` never decrease through `s`.
pub open spec fn sorted_by_center(s: Seq<usize>, aabbs: Seq<BroadPhaseAABB>, axis: int) -> bool {
    forall|i: int, j: int|
        0 <= i <= j < s.len() ==> center_key(aabbs[#[trigger] s[i] as int], axis) <= center_key(
            aabbs[#[trigger] s[j] as int],
            axis,
        )
}

/// Stable insertion sort of object indices by the centre of their boxes
/// along `axis`.
fn sort_by_center(indices: &mut Vec<usize>, aabbs: &[BroadPhaseAABB], axis: usize)
    requires
        axis < 3,
        old(indices)@.no_duplicates(),
        forall|i: int| 0 <= i < old(indices)@.len() ==> #[trigger] old(indices)@[i] < aabbs@.len(),
    ensures
        final(indices)@.len() == old(indices)@.len(),
        final(indices)@.to_set() == old(indices)@.to_set(),
        final(indices)@.no_duplicates(),
        forall|i: int| 0 <= i < final(indices)@.len() ==> #[trigger] final(indices)@[i] < aabbs@.len(),
        sorted_by_center(final(indices)@, aabbs@, axis as int),
        ties_keep_order(final(indices)@, old(indices)@, aabbs@, axis as int),
{
    let ghost original = indices@;
    assert(ties_keep_order(indices@, original, aabbs@, axis as int)) by {
        assert forall|a: int, b: int|
            0 <= a < b < indices@.len() && center_key(aabbs@[#[trigger] indices@[a] as int], axis as int) == center_key(
                aabbs@[#[trigger] indices@[b] as int],
                axis as int,
            ) implies precedes(original, indices@[a], indices@[b]) by {
            assert(original[a] == indices@[a] && original[b] == indices@[b]);
        }
    }
    let n = indices.len();
    let mut i: usize = 1;
    if n == 0 {
        return;
    }
    while i < n
        invariant
            axis < 3,
            1 <= i <= n,
            n == indices@.len(),
            indices@.to_set() == original.to_set(),
            indices@.no_duplicates(),
            ties_keep_order(indices@, original, aabbs@, axis as int),
            forall|q: int| 0 <= q < indices@.len() ==> #[trigger] indices@[q] < aabbs@.len(),
            forall|a: int, b: int|
                0 <= a <= b < i ==> center_key(aabbs[#[trigger] indices@[a] as int], axis as int)
                    <= center_key(aabbs[#[trigger] indices@[b] as int], axis as int),
        decreases n - i,
    {
        let mut j: usize = i;
        while j > 0 && axis_key(&aabbs[indices[j - 1]], axis) > axis_key(&aabbs[indices[j]], axis)
            invariant
                axis < 3,
                1 <= i < n,
                j <= i,
                n == indices@.len(),
                indices@.to_set() == original.to_set(),
                indices@.no_duplicates(),
                ties_keep_order(indices@, original, aabbs@, axis as int),
                forall|q: int| 0 <= q < indices@.len() ==> #[trigger] indices@[q] < aabbs@.len(),
                forall|a: int, b: int|
                    0 <= a <= b < j ==> center_key(aabbs[#[trigger] indices@[a] as int], axis as int)
                        <= center_key(aabbs[#[trigger] indices@[b] as int], axis as int),
                forall|a: int, b: int|
                    j <= a <= b <= i ==> center_key(aabbs[#[trigger] indices@[a] as int], axis as int)
                        <= center_key(aabbs[#[trigger] indices@[b] as int], axis as int),
                forall|a: int, b: int|
                    0 <= a < j && j < b <= i ==> center_key(aabbs[#[trigger] indices@[a] as int], axis as int)
                        <= center_key(aabbs[#[trigger] indices@[b] as int], axis as int),
            decreases j,
        {
            let ghost before = indices@;
            let x = indices[j];
            let y = indices[j - 1];
            indices.set(j, y);
            indices.set(j - 1, x);
            proof {
                lemma_swap(before, j as int, j as int - 1);
                lemma_swap_keeps_ties(before, original, aabbs@, axis as int, j as int);
                assert(indices@ == before.update(j as int, before[j as int - 1]).update(j as int - 1, before[j as int]));
            }
            j = j - 1;
        }
        i = i + 1;
    }
}

impl BvhTree {
    /// Build a BVH tree from object AABBs.
    ///
    /// `aabbs` is a list of AABBs, one per object. The tree is rebuilt from
    /// scratch: each object ends up in exactly one leaf, every internal
    /// node's box is the smallest box enclosing its two children, and every
    /// child points back to its parent.
    pub fn build(aabbs: &[BroadPhaseAABB]) -> (tree: Self)
        ensures
            tree.object_aabbs@ == aabbs@,
            tree.wf(),
            tree.parents_linked(),
            tree.median_split(),
            tree.all_below_root(),
            tree.objects_in_unique_leaves(),
            forall|k: int| 0 <= k < tree.nodes@.len() ==> #[trigger] node_layout_ok(tree.nodes@, k),
            tree.root matches Some(r) ==> split_follows_order(tree.nodes@, r as int, aabbs@, index_order(aabbs@.len())),
            aabbs@.len() == 0 ==> tree.root is None && tree.nodes@.len() == 0,
            aabbs@.len() > 0 ==> tree.nodes@.len() == 2 * aabbs@.len() - 1 && tree.root == Some(
                (tree.nodes@.len() - 1) as usize,
            ),
    {
        let mut object_aabbs: Vec<BroadPhaseAABB> = Vec::new();
        let mut i: usize = 0;
        while i < aabbs.len()
            invariant
                i <= aabbs@.len(),
                object_aabbs@ == aabbs@.subrange(0, i as int),
            decreases aabbs@.len() - i,
        {
            object_aabbs.push(aabbs[i]);
            i = i + 1;
        }
        assert(object_aabbs@ =~= aabbs@);
        let mut tree = BvhTree { nodes: Vec::new(), root: None, object_aabbs };

        if aabbs.len() == 0 {
            return tree;
        }

        let mut indices: Vec<usize> = Vec::new();
        let mut i: usize = 0;
        while i < aabbs.len()
            invariant
                i <= aabbs@.len(),
                indices@.len() == i,
                forall|q: int| 0 <= q < i ==> #[trigger] indices@[q] == q,
            decreases aabbs@.len() - i,
        {
            indices.push(i);
            i = i + 1;
        }
        proof {
            assert(indices@.to_set() =~= all_objects(aabbs@.len())) by {
                assert forall|o: usize| #[trigger] all_objects(aabbs@.len()).contains(o) implies indices@.contains(o) by {
                    assert(indices@[o as int] == o);
                }
            }
        }
        assert(indices@ =~= index_order(aabbs@.len()));
        let root = tree.build_recursive(indices, aabbs, None);
        tree.root = Some(root);
        proof {
            let nodes = tree.nodes@;
            let objs = tree.object_aabbs@;
            assert forall|k: int| 0 <= k < nodes.len() implies #[trigger] node_shape_ok(nodes, k, objs.len()) by {
                assert(node_built(nodes, k, objs));
            }
            assert forall|k: int| 0 <= k < nodes.len() implies #[trigger] node_bounds_ok(nodes, k, objs) by {
                assert(node_built(nodes, k, objs));
            }
            assert forall|k: int| 0 <= k < nodes.len() implies #[trigger] node_split_ok(nodes, k, objs) by {
                assert(node_built(nodes, k, objs));
            }
            assert forall|k: int| 0 <= k < nodes.len() implies #[trigger] node_links_ok(nodes, k) by {
                assert(node_built(nodes, k, objs));
            }
            assert forall|k: int| 0 <= k < nodes.len() implies #[trigger] in_subtree(nodes, root as int, k) by {
                assert(node_built(nodes, k, objs));
            }
            assert forall|k: int| 0 <= k < nodes.len() implies #[trigger] node_layout_ok(nodes, k) by {
                assert(node_built(nodes, k, objs));
            }
            lemma_objects_in_unique_leaves(tree);
        }
        tree
    }

    /// Recursively build BVH nodes using a median split along the axis of
    /// widest centre spread; returns the index of the subtree's root.
    ///
    /// The new subtree is appended to the arena: every earlier node stays as
    /// it is, and every new node is well shaped, tight for `aabbs`, linked
    /// to its children, split at the median of the widest axis and stored
    /// right after its subtree. Where centres tie along the split axis, the
    /// objects that come first in `indices` go left.
    fn build_recursive(&mut self, indices: Vec<usize>, aabbs: &[BroadPhaseAABB], parent: Option<usize>) -> (node_idx: usize)
        requires
            indices@.len() >= 1,
            indices@.no_duplicates(),
            forall|i: int| 0 <= i < indices@.len() ==> #[trigger] indices@[i] < aabbs@.len(),
        ensures
            final(self).object_aabbs@ == old(self).object_aabbs@,
            final(self).root == old(self).root,
            final(self).nodes@.len() == old(self).nodes@.len() + 2 * indices@.len() - 1,
            node_idx == final(self).nodes@.len() - 1,
            forall|k: int| 0 <= k < old(self).nodes@.len() ==> #[trigger] final(self).nodes@[k] == old(self).nodes@[k],
            forall|k: int|
                0 <= k < old(self).nodes@.len() ==> #[trigger] structure_ok(final(self).nodes@, k, aabbs@)
                    == structure_ok(old(self).nodes@, k, aabbs@),
            forall|k: int|
                0 <= k < old(self).nodes@.len() && node_shape_ok(old(self).nodes@, k, aabbs@.len()) ==> (
                #[trigger] node_links_ok(final(self).nodes@, k) == node_links_ok(old(self).nodes@, k)
                    && node_split_ok(final(self).nodes@, k, aabbs@) == node_split_ok(old(self).nodes@, k, aabbs@)),
            forall|k: int|
                old(self).nodes@.len() <= k < final(self).nodes@.len() ==> #[trigger] node_built(
                    final(self).nodes@,
                    k,
                    aabbs@,
                ) && in_subtree(final(self).nodes@, node_idx as int, k),
            subtree_objects(final(self).nodes@, node_idx as int) == indices@.to_set(),
            split_follows_order(final(self).nodes@, node_idx as int, aabbs@, indices@),
            final(self).nodes@[node_idx as int].parent == parent,
        decreases indices@.len(),
    {
        let ghost old_nodes = self.nodes@;
        let ghost objs = aabbs@;
        let ghost big_l = old_nodes.len() as int;
        if indices.len() == 1 {
            let idx = indices[0];
            let aabb = aabbs[idx];
            let node_idx = self.nodes.len();
            let mut node = BvhNode::leaf(idx, aabb);
            node.parent = parent;
            self.nodes.push(node);
            proof {
                let nodes = self.nodes@;
                lemma_append_keeps_earlier(old_nodes, nodes, objs);
                assert(subtree_objects(nodes, node_idx as int) == Set::empty().insert(idx));
                assert(indices@.to_set() =~= Set::empty().insert(idx));
                assert(structure_ok(nodes, node_idx as int, objs));
                assert(in_subtree(nodes, node_idx as int, node_idx as int));
            }
            return node_idx;
        }

        let mut indices = indices;
        let ghost original = indices@;
        let axis = widest_axis(&indices, aabbs);
        sort_by_center(&mut indices, aabbs, axis);
        let ghost sorted = indices@;

        let mid = indices.len() / 2;
        let right_indices = indices.split_off(mid);
        proof {
            assert(indices@ == sorted.subrange(0, mid as int));
            assert(right_indices@ == sorted.subrange(mid as int, sorted.len() as int));
            assert(indices@ + right_indices@ =~= sorted);
            assert(indices@.no_duplicates());
            assert(right_indices@.no_duplicates());
            assert(indices@.to_set().disjoint(right_indices@.to_set())) by {
                assert forall|o: usize| #[trigger] indices@.to_set().contains(o) implies !right_indices@.to_set().contains(o) by {
                    if right_indices@.contains(o) {
                        let a = choose|a: int| 0 <= a < indices@.len() && indices@[a] == o;
                        let b = choose|b: int| 0 <= b < right_indices@.len() && right_indices@[b] == o;
                        assert(sorted[a] == o);
                        assert(sorted[b + mid] == o);
                    }
                }
            }
            lemma_concat_no_dup(indices@, right_indices@);
        }
        let ghost left_set = indices@.to_set();
        let ghost right_set = right_indices@.to_set();
        proof {
            let ls = indices@;
            let rs = right_indices@;
            ls.unique_seq_to_set();
            rs.unique_seq_to_set();
            vstd::seq_lib::seq_to_set_is_finite(ls);
            vstd::seq_lib::seq_to_set_is_finite(rs);
            vstd::set_lib::lemma_set_disjoint_lens(left_set, right_set);
            assert(left_set.len() == mid);
            assert(left_set.union(right_set).len() == sorted.len());
            assert(centers_ordered(objs, left_set, right_set, axis as int)) by {
                assert forall|x: usize, y: usize| #[trigger] left_set.contains(x) && #[trigger] right_set.contains(y) implies center_key(
                    objs[x as int],
                    axis as int,
                ) <= center_key(objs[y as int], axis as int) by {
                    let a = choose|a: int| 0 <= a < ls.len() && ls[a] == x;
                    let b = choose|b: int| 0 <= b < rs.len() && rs[b] == y;
                    assert(sorted[a] == x);
                    assert(sorted[b + mid] == y);
                }
            }
            assert(ordered_halves(objs, original, left_set, right_set, axis as int)) by {
                assert forall|x: usize, y: usize| #[trigger] left_set.contains(x) && #[trigger] right_set.contains(y) implies center_key(
                    objs[x as int],
                    axis as int,
                ) < center_key(objs[y as int], axis as int) || (center_key(objs[x as int], axis as int) == center_key(
                    objs[y as int],
                    axis as int,
                ) && precedes(original, x, y)) by {
                    let a = choose|a: int| 0 <= a < ls.len() && ls[a] == x;
                    let b = choose|b: int| 0 <= b < rs.len() && rs[b] == y;
                    assert(sorted[a] == x);
                    assert(sorted[b + mid] == y);
                    assert(center_key(objs[sorted[a] as int], axis as int) <= center_key(objs[sorted[b + mid] as int], axis as int));
                }
            }
            assert(right_set.len() == rs.len());
            assert(left_set.union(right_set) =~= (indices@ + right_indices@).to_set());
            assert(left_set.union(right_set) == original.to_set());
            lemma_key_spread_of_set(objs, original, 0);
            lemma_key_spread_of_set(objs, original, 1);
            lemma_key_spread_of_set(objs, original, 2);
            assert(is_widest_axis(objs, left_set.union(right_set), axis as int));
        }

        let left = self.build_recursive(indices, aabbs, None);
        let ghost nodes1 = self.nodes@;
        let right = self.build_recursive(right_indices, aabbs, None);
        let ghost nodes2 = self.nodes@;

        let left_aabb = self.nodes[left].aabb;
        let right_aabb = self.nodes[right].aabb;
        let parent_aabb = enclosing_box(&left_aabb, &right_aabb);

        let node_idx = self.nodes.len();
        let mut node = BvhNode::internal(parent_aabb, left, right);
        node.parent = parent;
        self.nodes.push(node);
        let ghost nodes3 = self.nodes@;

        let mut left_node = self.nodes[left];
        left_node.parent = Some(node_idx);
        self.nodes.set(left, left_node);
        let mut right_node = self.nodes[right];
        right_node.parent = Some(node_idx);
        self.nodes.set(right, right_node);

        proof {
            let nodes = self.nodes@;
            let l1 = nodes1.len() as int;
            let l2 = nodes2.len() as int;
            assert(left as int == l1 - 1 && right as int == l2 - 1 && node_idx as int == l2);
            assert forall|j: int| 0 <= j < big_l implies #[trigger] nodes[j] == old_nodes[j] by {
                assert(nodes1[j] == old_nodes[j]);
                assert(nodes2[j] == nodes1[j]);
            }
            lemma_append_keeps_earlier(old_nodes, nodes, objs);
            assert(nodes1[left as int].parent is None);
            assert(nodes2[right as int].parent is None);
            assert(nodes3[node_idx as int] == node);
            assert forall|k: int| big_l <= k < nodes1.len() implies #[trigger] node_built(nodes1, k, objs)
                && in_subtree(nodes1, left as int, k) by {
                assert(node_built(nodes1, k, objs));
            }
            assert forall|k: int| nodes1.len() <= k < nodes2.len() implies #[trigger] node_built(nodes2, k, objs)
                && in_subtree(nodes2, right as int, k) by {
                assert(node_built(nodes2, k, objs));
            }
            assert(nodes2.len() - nodes1.len() == 2 * right_set.len() - 1);
            lemma_join_subtrees(nodes1, nodes2, nodes, objs, big_l, left, right, node_idx, left_set, right_set, axis as int);
            assert(ordered_halves(
                objs,
                original,
                subtree_objects(nodes, left as int),
                subtree_objects(nodes, right as int),
                axis as int,
            ));
            assert(split_follows_order(nodes, node_idx as int, objs, original));
            assert(left_set.union(right_set) =~= (indices@ + right_indices@).to_set());
        }
        node_idx
    }
}


// ===========================================================================
// Refitting
// ===========================================================================

/// The box at the grid origin with no extent.
pub open spec fn zero_box() -> BroadPhaseAABB {
    BroadPhaseAABB { min: Vector3([0, 0, 0]), max: Vector3([0, 0, 0]) }
}

/// The smallest box enclosing `a` and `b`.
pub open spec fn union_box(a: BroadPhaseAABB, b: BroadPhaseAABB) -> BroadPhaseAABB {
    BroadPhaseAABB {
        min: Vector3(
            [
                min_int(a.min.0[0] as int, b.min.0[0] as int) as i64,
                min_int(a.min.0[1] as int, b.min.0[1] as int) as i64,
                min_int(a.min.0[2] as int, b.min.0[2] as int) as i64,
            ],
        ),
        max: Vector3(
            [
                max_int(a.max.0[0] as int, b.max.0[0] as int) as i64,
                max_int(a.max.0[1] as int, b.max.0[1] as int) as i64,
                max_int(a.max.0[2] as int, b.max.0[2] as int) as i64,
            ],
        ),
    }
}

/// The box of a child slot: the child's box, or the zero box where the
/// slot is empty.
pub open spec fn child_box(nodes: Seq<BvhNode>, c: Option<usize>) -> BroadPhaseAABB {
    match c {
        Some(i) => nodes[i as int].aabb,
        None => zero_box(),
    }
}

/// The box of node `k` is tight for the current boxes of its children: a
/// leaf carries its object's box, any other node the smallest box
/// enclosing its two child slots.
pub open spec fn node_tight(nodes: Seq<BvhNode>, objs: Seq<BroadPhaseAABB>, k: int) -> bool {
    match nodes[k].object_index {
        Some(o) => nodes[k].aabb == objs[o as int],
        None => nodes[k].aabb == union_box(child_box(nodes, nodes[k].left), child_box(nodes, nodes[k].right)),
    }
}

/// Every path down from node `k` stays inside the arena, ends within `d`
/// levels, and ends at a leaf holding one of the `n` objects.
pub open spec fn finite_below(nodes: Seq<BvhNode>, n: nat, k: int, d: nat) -> bool
    decreases d,
{
    if d == 0 || k < 0 || k >= nodes.len() {
        false
    } else {
        match nodes[k].object_index {
            Some(o) => o < n,
            None => {
                &&& match nodes[k].left {
                    Some(l) => finite_below(nodes, n, l as int, (d - 1) as nat),
                    None => true,
                }
                &&& match nodes[k].right {
                    Some(r) => finite_below(nodes, n, r as int, (d - 1) as nat),
                    None => true,
                }
            },
        }
    }
}

/// Node `j` is reached from node `k` in fewer than `d` steps down.
pub open spec fn below(nodes: Seq<BvhNode>, k: int, j: int, d: nat) -> bool
    decreases d,
{
    if d == 0 || k < 0 || k >= nodes.len() {
        false
    } else if j == k {
        true
    } else if nodes[k].object_index is Some {
        false
    } else {
        (match nodes[k].left {
            Some(l) => below(nodes, l as int, j, (d - 1) as nat),
            None => false,
        }) || (match nodes[k].right {
            Some(r) => below(nodes, r as int, j, (d - 1) as nat),
            None => false,
        })
    }
}

/// Node `j` is reached from node `k` by going down.
pub open spec fn reachable(nodes: Seq<BvhNode>, k: int, j: int) -> bool {
    exists|d: nat| #[trigger] below(nodes, k, j, d)
}

/// Refitting from node `k` ends: every path down from it ends at a leaf of
/// one of the `n` objects.
pub open spec fn refittable(nodes: Seq<BvhNode>, n: nat, k: int) -> bool {
    exists|d: nat| #[trigger] finite_below(nodes, n, k, d)
}

/// The box that refitting gives node `k`, looking `d` levels down.
pub open spec fn fitted_box(nodes: Seq<BvhNode>, objs: Seq<BroadPhaseAABB>, k: int, d: nat) -> BroadPhaseAABB
    decreases d,
{
    if d == 0 || k < 0 || k >= nodes.len() {
        zero_box()
    } else {
        match nodes[k].object_index {
            Some(o) => objs[o as int],
            None => union_box(
                match nodes[k].left {
                    Some(l) => fitted_box(nodes, objs, l as int, (d - 1) as nat),
                    None => zero_box(),
                },
                match nodes[k].right {
                    Some(r) => fitted_box(nodes, objs, r as int, (d - 1) as nat),
                    None => zero_box(),
                },
            ),
        }
    }
}

/// Node `j` carries its fitted box, however deep one looks.
pub open spec fn fit_ok(nodes: Seq<BvhNode>, objs: Seq<BroadPhaseAABB>, j: int) -> bool {
    forall|e: nat| #[trigger] finite_below(nodes, objs.len(), j, e) ==> nodes[j].aabb == fitted_box(nodes, objs, j, e)
}

/// The union box encloses both boxes and lies inside every box that
/// encloses both.
pub proof fn lemma_union_box_is_least_enclosing(a: BroadPhaseAABB, b: BroadPhaseAABB, c: BroadPhaseAABB)
    ensures
        forall|i: int|
            0 <= i < 3 ==> union_box(a, b).min.0[i] <= a.min.0[i] && union_box(a, b).min.0[i] <= b.min.0[i]
                && a.max.0[i] <= union_box(a, b).max.0[i] && b.max.0[i] <= union_box(a, b).max.0[i],
        (forall|i: int|
            0 <= i < 3 ==> c.min.0[i] <= a.min.0[i] && c.min.0[i] <= b.min.0[i] && a.max.0[i] <= c.max.0[i]
                && b.max.0[i] <= c.max.0[i]) ==> forall|i: int|
            0 <= i < 3 ==> c.min.0[i] <= union_box(a, b).min.0[i] && union_box(a, b).max.0[i] <= c.max.0[i],
{
    let u = union_box(a, b);
    assert forall|i: int| 0 <= i < 3 implies u.min.0[i] <= a.min.0[i] && u.min.0[i] <= b.min.0[i] && a.max.0[i]
        <= u.max.0[i] && b.max.0[i] <= u.max.0[i] by {
        assert(i == 0 || i == 1 || i == 2);
    }
    if forall|i: int|
        0 <= i < 3 ==> c.min.0[i] <= a.min.0[i] && c.min.0[i] <= b.min.0[i] && a.max.0[i] <= c.max.0[i]
            && b.max.0[i] <= c.max.0[i] {
        assert forall|i: int| 0 <= i < 3 implies c.min.0[i] <= u.min.0[i] && u.max.0[i] <= c.max.0[i] by {
            assert(i == 0 || i == 1 || i == 2);
        }
    }
}

/// `union_box` is the box that `is_union_box` describes.
proof fn lemma_union_box(u: BroadPhaseAABB, a: BroadPhaseAABB, b: BroadPhaseAABB)
    ensures
        is_union_box(union_box(a, b), a, b),
        is_union_box(u, a, b) ==> u == union_box(a, b),
{
    if is_union_box(u, a, b) {
        assert(u.min.0 =~= union_box(a, b).min.0);
        assert(u.max.0 =~= union_box(a, b).max.0);
    }
}

/// Reaching, path ending and fitted boxes depend only on the nodes' shapes.
proof fn lemma_refit_shape_frame(n1: Seq<BvhNode>, n2: Seq<BvhNode>, objs: Seq<BroadPhaseAABB>, k: int, j: int, d: nat)
    requires
        n1.len() == n2.len(),
        forall|i: int| 0 <= i < n1.len() ==> same_shape(#[trigger] n1[i], n2[i]),
    ensures
        finite_below(n1, objs.len(), k, d) == finite_below(n2, objs.len(), k, d),
        below(n1, k, j, d) == below(n2, k, j, d),
        fitted_box(n1, objs, k, d) == fitted_box(n2, objs, k, d),
    decreases d,
{
    if d > 0 && 0 <= k < n1.len() {
        assert(same_shape(n1[k], n2[k]));
        if let Some(l) = n1[k].left {
            lemma_refit_shape_frame(n1, n2, objs, l as int, j, (d - 1) as nat);
        }
        if let Some(r) = n1[k].right {
            lemma_refit_shape_frame(n1, n2, objs, r as int, j, (d - 1) as nat);
        }
    }
}

/// Looking deeper than a path-ending depth changes nothing.
proof fn lemma_finite_deeper(nodes: Seq<BvhNode>, objs: Seq<BroadPhaseAABB>, k: int, d1: nat, d2: nat)
    requires
        finite_below(nodes, objs.len(), k, d1),
        d1 <= d2,
    ensures
        finite_below(nodes, objs.len(), k, d2),
        fitted_box(nodes, objs, k, d1) == fitted_box(nodes, objs, k, d2),
    decreases d1,
{
    if nodes[k].object_index is None {
        if let Some(l) = nodes[k].left {
            lemma_finite_deeper(nodes, objs, l as int, (d1 - 1) as nat, (d2 - 1) as nat);
        }
        if let Some(r) = nodes[k].right {
            lemma_finite_deeper(nodes, objs, r as int, (d1 - 1) as nat, (d2 - 1) as nat);
        }
    }
}

/// Two path-ending depths give the same fitted box.
proof fn lemma_fitted_any_depth(nodes: Seq<BvhNode>, objs: Seq<BroadPhaseAABB>, k: int, d1: nat, d2: nat)
    requires
        finite_below(nodes, objs.len(), k, d1),
        finite_below(nodes, objs.len(), k, d2),
    ensures
        fitted_box(nodes, objs, k, d1) == fitted_box(nodes, objs, k, d2),
{
    if d1 <= d2 {
        lemma_finite_deeper(nodes, objs, k, d1, d2);
    } else {
        lemma_finite_deeper(nodes, objs, k, d2, d1);
    }
}

/// Where every path from `k` ends within `d` levels, whatever is reached
/// from `k` is reached within `d` levels, and its own paths end within `d`
/// levels.
proof fn lemma_below_within(nodes: Seq<BvhNode>, n: nat, k: int, j: int, d: nat, e: nat)
    requires
        finite_below(nodes, n, k, d),
        below(nodes, k, j, e),
    ensures
        below(nodes, k, j, d),
        finite_below(nodes, n, j, d),
    decreases e,
{
    if j != k {
        let c = if (match nodes[k].left {
            Some(l) => below(nodes, l as int, j, (e - 1) as nat),
            None => false,
        }) {
            nodes[k].left->0
        } else {
            nodes[k].right->0
        };
        lemma_below_within(nodes, n, c as int, j, (d - 1) as nat, (e - 1) as nat);
        lemma_finite_deeper_n(nodes, n, j, (d - 1) as nat, d);
    }
}

/// Path ending within `d1` levels implies path ending within any deeper
/// bound.
proof fn lemma_finite_deeper_n(nodes: Seq<BvhNode>, n: nat, k: int, d1: nat, d2: nat)
    requires
        finite_below(nodes, n, k, d1),
        d1 <= d2,
    ensures
        finite_below(nodes, n, k, d2),
    decreases d1,
{
    if nodes[k].object_index is None {
        if let Some(l) = nodes[k].left {
            lemma_finite_deeper_n(nodes, n, l as int, (d1 - 1) as nat, (d2 - 1) as nat);
        }
        if let Some(r) = nodes[k].right {
            lemma_finite_deeper_n(nodes, n, r as int, (d1 - 1) as nat, (d2 - 1) as nat);
        }
    }
}

/// A child of a node reached from `k` is reached from `k` one level deeper.
proof fn lemma_below_child(nodes: Seq<BvhNode>, k: int, j: int, c: usize, e: nat)
    requires
        below(nodes, k, j, e),
        c < nodes.len(),
        nodes[j].object_index is None,
        nodes[j].left == Some(c) || nodes[j].right == Some(c),
    ensures
        below(nodes, k, c as int, e + 1),
    decreases e,
{
    if j == k {
        assert(below(nodes, c as int, c as int, e));
    } else {
        if (match nodes[k].left {
            Some(l) => below(nodes, l as int, j, (e - 1) as nat),
            None => false,
        }) {
            lemma_below_child(nodes, nodes[k].left->0 as int, j, c, (e - 1) as nat);
        } else {
            lemma_below_child(nodes, nodes[k].right->0 as int, j, c, (e - 1) as nat);
        }
    }
}

/// In a well-shaped arena the paths from every node end, within one level
/// more than the node's index.
proof fn lemma_well_shaped_finite(nodes: Seq<BvhNode>, n: nat, k: int)
    requires
        0 <= k < nodes.len(),
        forall|j: int| 0 <= j < nodes.len() ==> #[trigger] node_shape_ok(nodes, j, n),
    ensures
        finite_below(nodes, n, k, (k + 1) as nat),
    decreases k,
{
    assert(node_shape_ok(nodes, k, n));
    if nodes[k].object_index is None {
        let l = nodes[k].left->0 as int;
        let r = nodes[k].right->0 as int;
        lemma_well_shaped_finite(nodes, n, l);
        lemma_well_shaped_finite(nodes, n, r);
        lemma_finite_deeper_n(nodes, n, l, (l + 1) as nat, k as nat);
        lemma_finite_deeper_n(nodes, n, r, (r + 1) as nat, k as nat);
    }
}

/// A node below `k` in the arena's index order is reached from `k`.
proof fn lemma_in_subtree_reached(nodes: Seq<BvhNode>, k: int, j: int)
    requires
        in_subtree(nodes, k, j),
    ensures
        below(nodes, k, j, (k + 1) as nat),
    decreases k,
{
    if j != k {
        let l = nodes[k].left->0 as int;
        let r = nodes[k].right->0 as int;
        if in_subtree(nodes, l, j) {
            lemma_in_subtree_reached(nodes, l, j);
            lemma_below_deeper(nodes, l, j, (l + 1) as nat, k as nat);
        } else {
            lemma_in_subtree_reached(nodes, r, j);
            lemma_below_deeper(nodes, r, j, (r + 1) as nat, k as nat);
        }
    }
}

/// Reaching within `e1` levels is reaching within any deeper bound.
proof fn lemma_below_deeper(nodes: Seq<BvhNode>, k: int, j: int, e1: nat, e2: nat)
    requires
        below(nodes, k, j, e1),
        e1 <= e2,
    ensures
        below(nodes, k, j, e2),
    decreases e1,
{
    if j != k {
        if let Some(l) = nodes[k].left {
            if below(nodes, l as int, j, (e1 - 1) as nat) {
                lemma_below_deeper(nodes, l as int, j, (e1 - 1) as nat, (e2 - 1) as nat);
            }
        }
        if let Some(r) = nodes[k].right {
            if below(nodes, r as int, j, (e1 - 1) as nat) {
                lemma_below_deeper(nodes, r as int, j, (e1 - 1) as nat, (e2 - 1) as nat);
            }
        }
    }
}

/// A well-shaped tree can be refitted: every path down from its root ends.
pub proof fn lemma_well_shaped_tree_is_refittable(tree: BvhTree)
    requires
        tree.shape_wf(),
    ensures
        tree.root matches Some(r) ==> refittable(tree.nodes@, tree.object_aabbs@.len(), r as int),
{
    if let Some(r) = tree.root {
        lemma_well_shaped_finite(tree.nodes@, tree.object_aabbs@.len(), r as int);
    }
}

impl BvhTree {
    /// Refit node `k` and everything below it from the current object
    /// boxes; returns the new box of `k`.
    fn refit_node(&mut self, k: usize, Ghost(d): Ghost<nat>) -> (b: BroadPhaseAABB)
        requires
            finite_below(old(self).nodes@, old(self).object_aabbs@.len(), k as int, d),
        ensures
            final(self).object_aabbs@ == old(self).object_aabbs@,
            final(self).root == old(self).root,
            final(self).nodes@.len() == old(self).nodes@.len(),
            forall|j: int|
                0 <= j < old(self).nodes@.len() ==> same_shape(#[trigger] final(self).nodes@[j], old(self).nodes@[j])
                    && final(self).nodes@[j].parent == old(self).nodes@[j].parent,
            forall|j: int|
                0 <= j < old(self).nodes@.len() && !below(old(self).nodes@, k as int, j, d) ==> #[trigger] final(self).nodes@[j]
                    == old(self).nodes@[j],
            forall|j: int|
                0 <= j < old(self).nodes@.len() && #[trigger] below(old(self).nodes@, k as int, j, d) ==> fit_ok(
                    final(self).nodes@,
                    final(self).object_aabbs@,
                    j,
                ),
            forall|j: int|
                0 <= j < old(self).nodes@.len() && #[trigger] fit_ok(old(self).nodes@, old(self).object_aabbs@, j)
                    ==> fit_ok(final(self).nodes@, final(self).object_aabbs@, j),
            b == final(self).nodes@[k as int].aabb,
        decreases d,
    {
        let ghost start = self.nodes@;
        let ghost objs = self.object_aabbs@;
        let ghost n = objs.len();
        let node = self.nodes[k];
        match node.object_index {
            Some(o) => {
                let mut refitted = node;
                refitted.aabb = self.object_aabbs[o];
                self.nodes.set(k, refitted);
                proof {
                    let fin = self.nodes@;
                    assert forall|j: int| 0 <= j < fin.len() implies same_shape(#[trigger] fin[j], start[j]) by {}
                    assert forall|j: int| 0 <= j < fin.len() && #[trigger] below(start, k as int, j, d) implies fit_ok(fin, objs, j) by {
                        assert(j == k);
                        assert forall|e: nat| #[trigger] finite_below(fin, objs.len(), j, e) implies fin[j].aabb == fitted_box(fin, objs, j, e) by {}
                    }
                    assert forall|j: int| 0 <= j < fin.len() && #[trigger] fit_ok(start, objs, j) implies fit_ok(fin, objs, j) by {
                        if j != k {
                            assert forall|e: nat| #[trigger] finite_below(fin, objs.len(), j, e) implies fin[j].aabb == fitted_box(fin, objs, j, e) by {
                                lemma_refit_shape_frame(start, fin, objs, j, j, e);
                            }
                        } else {
                            assert forall|e: nat| #[trigger] finite_below(fin, objs.len(), j, e) implies fin[j].aabb == fitted_box(fin, objs, j, e) by {}
                        }
                    }
                }
                self.nodes[k].aabb
            },
            None => {
                let zero = BroadPhaseAABB::new(Vector3::zero(), Vector3::zero());
                assert(zero.min.0 =~= zero_box().min.0 && zero.max.0 =~= zero_box().max.0);
                let mut left_aabb = zero;
                let mut right_aabb = zero;
                let ghost dm = (d - 1) as nat;
                if let Some(l) = node.left {
                    left_aabb = self.refit_node(l, Ghost(dm));
                }
                let ghost mid = self.nodes@;
                proof {
                    assert forall|i: int| 0 <= i < start.len() implies same_shape(#[trigger] start[i], mid[i]) by {}
                    if let Some(r) = node.right {
                        lemma_refit_shape_frame(start, mid, objs, r as int, 0, dm);
                    }
                    if let Some(l) = node.left {
                        lemma_refit_shape_frame(start, mid, objs, l as int, l as int, dm);
                        assert(fit_ok(mid, objs, l as int));
                        assert(finite_below(mid, n, l as int, dm));
                        assert(left_aabb == fitted_box(start, objs, l as int, dm));
                    }
                }
                if let Some(r) = node.right {
                    right_aabb = self.refit_node(r, Ghost(dm));
                }
                let ghost before = self.nodes@;
                proof {
                    assert forall|i: int| 0 <= i < start.len() implies same_shape(#[trigger] start[i], before[i]) by {
                        assert(same_shape(mid[i], start[i]));
                    }
                    if let Some(r) = node.right {
                        lemma_refit_shape_frame(start, before, objs, r as int, r as int, dm);
                        lemma_refit_shape_frame(start, mid, objs, r as int, r as int, dm);
                        assert(fit_ok(before, objs, r as int));
                        assert(finite_below(before, n, r as int, dm));
                        assert(right_aabb == fitted_box(start, objs, r as int, dm));
                    }
                }
                let u = enclosing_box(&left_aabb, &right_aabb);
                let mut refitted = self.nodes[k];
                refitted.aabb = u;
                self.nodes.set(k, refitted);
                proof {
                    let fin = self.nodes@;
                    lemma_union_box(u, left_aabb, right_aabb);
                    assert(u == fitted_box(start, objs, k as int, d));
                    assert forall|i: int| 0 <= i < fin.len() implies same_shape(#[trigger] fin[i], start[i]) by {
                        assert(same_shape(before[i], start[i]));
                    }
                    assert forall|i: int| 0 <= i < fin.len() implies same_shape(#[trigger] start[i], fin[i]) by {
                        assert(same_shape(fin[i], start[i]));
                    }
                    assert forall|i: int| 0 <= i < fin.len() implies same_shape(#[trigger] before[i], fin[i]) by {}
                    // Node `k` itself.
                    assert(fit_ok(fin, objs, k as int)) by {
                        assert forall|e: nat| #[trigger] finite_below(fin, objs.len(), k as int, e) implies fin[k as int].aabb
                            == fitted_box(fin, objs, k as int, e) by {
                            lemma_refit_shape_frame(start, fin, objs, k as int, k as int, e);
                            lemma_fitted_any_depth(start, objs, k as int, d, e);
                        }
                    }
                    // Other nodes keep what held after the two children.
                    assert forall|j: int| 0 <= j < fin.len() && j != k && #[trigger] fit_ok(before, objs, j) implies fit_ok(fin, objs, j) by {
                        assert forall|e: nat| #[trigger] finite_below(fin, objs.len(), j, e) implies fin[j].aabb == fitted_box(fin, objs, j, e) by {
                            lemma_refit_shape_frame(before, fin, objs, j, j, e);
                        }
                    }
                    assert forall|j: int| 0 <= j < fin.len() && #[trigger] fit_ok(start, objs, j) implies fit_ok(fin, objs, j) by {
                        if j != k {
                            if node.left is Some {
                                assert(fit_ok(mid, objs, j));
                            }
                            assert(fit_ok(mid, objs, j));
                            assert(fit_ok(before, objs, j));
                        }
                    }
                    assert forall|j: int| 0 <= j < fin.len() && #[trigger] below(start, k as int, j, d) implies fit_ok(fin, objs, j) by {
                        if j != k {
                            if (match node.left {
                                Some(l) => below(start, l as int, j, dm),
                                None => false,
                            }) {
                                let l = node.left->0;
                                assert(below(start, l as int, j, dm));
                                assert(fit_ok(mid, objs, j));
                                assert(fit_ok(before, objs, j));
                            } else {
                                let r = node.right->0;
                                assert(below(start, r as int, j, dm));
                                lemma_refit_shape_frame(start, mid, objs, r as int, j, dm);
                                assert(fit_ok(before, objs, j));
                            }
                        }
                    }
                    assert forall|j: int| 0 <= j < fin.len() && !below(start, k as int, j, d) implies #[trigger] fin[j] == start[j] by {
                        assert(j != k);
                        if let Some(l) = node.left {
                            assert(!below(start, l as int, j, dm));
                            assert(mid[j] == start[j]);
                        }
                        assert(mid[j] == start[j]);
                        if let Some(r) = node.right {
                            assert(!below(start, r as int, j, dm));
                            lemma_refit_shape_frame(start, mid, objs, r as int, j, dm);
                            assert(before[j] == mid[j]);
                        }
                        assert(before[j] == mid[j]);
                    }
                }
                u
            },
        }
    }

    /// Refit the BVH after object AABBs have changed.
    ///
    /// Starting from the root, every leaf takes its object's current box
    /// and every other node the smallest box enclosing its child slots (an
    /// empty slot counts as the zero box). The shape of the tree, its
    /// parent pointers and the nodes that the root does not reach stay as
    /// they are, so a well-shaped tree whose nodes all lie below the root
    /// becomes a valid hierarchy for the new boxes.
    pub fn refit(&mut self)
        requires
            old(self).root matches Some(r) ==> refittable(old(self).nodes@, old(self).object_aabbs@.len(), r as int),
        ensures
            final(self).object_aabbs@ == old(self).object_aabbs@,
            final(self).root == old(self).root,
            final(self).nodes@.len() == old(self).nodes@.len(),
            forall|k: int|
                0 <= k < old(self).nodes@.len() ==> same_shape(#[trigger] final(self).nodes@[k], old(self).nodes@[k])
                    && final(self).nodes@[k].parent == old(self).nodes@[k].parent,
            old(self).root is None ==> final(self).nodes@ == old(self).nodes@,
            old(self).root matches Some(r) ==> forall|j: int|
                0 <= j < old(self).nodes@.len() ==> (#[trigger] reachable(old(self).nodes@, r as int, j) ==> node_tight(
                    final(self).nodes@,
                    final(self).object_aabbs@,
                    j,
                )) && (!reachable(old(self).nodes@, r as int, j) ==> final(self).nodes@[j] == old(self).nodes@[j]),
            old(self).shape_wf() && old(self).all_below_root() ==> final(self).wf(),
            old(self).parents_linked() ==> final(self).parents_linked(),
            old(self).median_split() ==> final(self).median_split(),
    {
        let ghost start = self.nodes@;
        let ghost objs = self.object_aabbs@;
        let n = self.nodes.len();
        if let Some(root) = self.root {
            let ghost d = choose|d: nat| #[trigger] finite_below(start, objs.len(), root as int, d);
            self.refit_node(root, Ghost(d));
            proof {
                let fin = self.nodes@;
                assert forall|i: int| 0 <= i < n implies same_shape(#[trigger] start[i], fin[i]) by {
                    assert(same_shape(fin[i], start[i]));
                }
                assert forall|j: int| 0 <= j < n implies (#[trigger] reachable(start, root as int, j) ==> node_tight(
                    fin,
                    objs,
                    j,
                )) && (!reachable(start, root as int, j) ==> fin[j] == start[j]) by {
                    if reachable(start, root as int, j) {
                        let e = choose|e: nat| #[trigger] below(start, root as int, j, e);
                        lemma_below_within(start, objs.len(), root as int, j, d, e);
                        assert(fit_ok(fin, objs, j));
                        lemma_refit_shape_frame(start, fin, objs, j, j, d);
                        assert(fin[j].aabb == fitted_box(fin, objs, j, d));
                        if start[j].object_index is None {
                            if let Some(c) = start[j].left {
                                assert(finite_below(start, objs.len(), c as int, (d - 1) as nat));
                                lemma_below_child(start, root as int, j, c, d);
                                lemma_below_within(start, objs.len(), root as int, c as int, d, d + 1);
                                assert(fit_ok(fin, objs, c as int));
                                lemma_refit_shape_frame(start, fin, objs, c as int, c as int, (d - 1) as nat);
                                lemma_fitted_any_depth(start, objs, c as int, d, (d - 1) as nat);
                                lemma_refit_shape_frame(start, fin, objs, c as int, c as int, d);
                            }
                            if let Some(c) = start[j].right {
                                assert(finite_below(start, objs.len(), c as int, (d - 1) as nat));
                                lemma_below_child(start, root as int, j, c, d);
                                lemma_below_within(start, objs.len(), root as int, c as int, d, d + 1);
                                assert(fit_ok(fin, objs, c as int));
                                lemma_refit_shape_frame(start, fin, objs, c as int, c as int, (d - 1) as nat);
                                lemma_fitted_any_depth(start, objs, c as int, d, (d - 1) as nat);
                                lemma_refit_shape_frame(start, fin, objs, c as int, c as int, d);
                            }
                        }
                    } else {
                        assert(!below(start, root as int, j, d));
                    }
                }
                if old(self).shape_wf() && old(self).all_below_root() {
                    assert forall|j: int| 0 <= j < n implies #[trigger] node_shape_ok(fin, j, objs.len()) by {
                        assert(node_shape_ok(start, j, objs.len()));
                        assert(same_shape(start[j], fin[j]));
                        match (start[j].object_index, start[j].left, start[j].right) {
                            (None, Some(l), Some(r)) => {
                                lemma_subtree_frame(start, fin, l as int);
                                lemma_subtree_frame(start, fin, r as int);
                            },
                            _ => {},
                        }
                    }
                    lemma_subtree_frame(start, fin, root as int);
                    assert forall|j: int| 0 <= j < n implies #[trigger] node_bounds_ok(fin, j, objs) by {
                        assert(in_subtree(start, root as int, j));
                        lemma_in_subtree_reached(start, root as int, j);
                        assert(reachable(start, root as int, j));
                        assert(node_tight(fin, objs, j));
                        assert(node_shape_ok(start, j, objs.len()));
                        if fin[j].object_index is None {
                            lemma_union_box(fin[j].aabb, fin[fin[j].left->0 as int].aabb, fin[fin[j].right->0 as int].aabb);
                        }
                    }
                }
                if old(self).median_split() {
                    assert forall|j: int| 0 <= j < n implies #[trigger] node_split_ok(fin, j, objs) by {
                        assert(node_split_ok(start, j, objs));
                        assert(same_shape(start[j], fin[j]));
                        match (start[j].object_index, start[j].left, start[j].right) {
                            (None, Some(l), Some(r)) => {
                                if l < n {
                                    lemma_subtree_frame(start, fin, l as int);
                                }
                                if r < n {
                                    lemma_subtree_frame(start, fin, r as int);
                                }
                                lemma_subtree_frame(start, fin, j);
                            },
                            _ => {},
                        }
                    }
                }
                if old(self).parents_linked() {
                    assert forall|j: int| 0 <= j < n implies #[trigger] node_links_ok(fin, j) by {
                        assert(node_links_ok(start, j));
                        assert(same_shape(start[j], fin[j]));
                        match (start[j].object_index, start[j].left, start[j].right) {
                            (None, Some(l), Some(r)) => {
                                if l < n && r < n {
                                    assert(same_shape(start[l as int], fin[l as int]));
                                    assert(same_shape(start[r as int], fin[r as int]));
                                }
                            },
                            _ => {},
                        }
                    }
                }
            }
        }
    }
}

impl Default for BvhTree {
    fn default() -> (t: Self)
        ensures
            t.nodes@.len() == 0,
            t.root is None,
            t.object_aabbs@.len() == 0,
    {
        BvhTree::new()
    }
}


// ===========================================================================
// Laws of the hierarchy
// ===========================================================================

/// In a valid hierarchy the box of every node encloses the box of every
/// object below it; in particular the root's box encloses every object.
pub proof fn lemma_tree_boxes_enclose_objects(tree: BvhTree, k: int)
    requires
        tree.wf(),
        0 <= k < tree.nodes@.len(),
    ensures
        forall|o: usize| #[trigger] subtree_objects(tree.nodes@, k).contains(o) ==> o < tree.object_aabbs@.len()
            && box_contains(tree.nodes@[k].aabb, tree.object_aabbs@[o as int]),
        (tree.root matches Some(r) && r as int == k) ==> forall|o: usize| o < tree.object_aabbs@.len() ==> box_contains(
            tree.nodes@[k].aabb,
            #[trigger] tree.object_aabbs@[o as int],
        ),
{
    let nodes = tree.nodes@;
    let objs = tree.object_aabbs@;
    assert forall|j: int| 0 <= j < nodes.len() implies #[trigger] node_bounds_ok(nodes, j, objs) by {}
    lemma_objects_enclosed(nodes, objs, k);
    if tree.root matches Some(r) && r as int == k {
        assert forall|o: usize| o < objs.len() implies box_contains(nodes[k].aabb, #[trigger] objs[o as int]) by {
            assert(all_objects(objs.len()).contains(o));
            assert(subtree_objects(nodes, k).contains(o));
        }
    }
}

/// Within a valid hierarchy the two children of a node hold disjoint
/// objects, and the node holds exactly the objects of its two children.
pub proof fn lemma_children_partition_objects(tree: BvhTree, k: int)
    requires
        tree.wf(),
        0 <= k < tree.nodes@.len(),
        tree.nodes@[k].object_index is None,
    ensures
        ({
            let l = tree.nodes@[k].left->0 as int;
            let r = tree.nodes@[k].right->0 as int;
            &&& tree.nodes@[k].left is Some && tree.nodes@[k].right is Some
            &&& l < k && r < k
            &&& subtree_objects(tree.nodes@, l).disjoint(subtree_objects(tree.nodes@, r))
            &&& subtree_objects(tree.nodes@, k) == subtree_objects(tree.nodes@, l).union(
                subtree_objects(tree.nodes@, r),
            )
        }),
{
    assert(node_shape_ok(tree.nodes@, k, tree.object_aabbs@.len()));
}


/// In a valid hierarchy whose nodes all lie below the root, each object is
/// held by exactly one leaf of the arena.
pub proof fn lemma_objects_in_unique_leaves(tree: BvhTree)
    requires
        tree.wf(),
        tree.all_below_root(),
    ensures
        tree.objects_in_unique_leaves(),
{
    let nodes = tree.nodes@;
    let n = tree.object_aabbs@.len();
    match tree.root {
        None => {},
        Some(r) => {
            assert forall|o: usize| o < n implies #[trigger] has_leaf(nodes, o) by {
                assert(all_objects(n).contains(o));
                lemma_object_has_leaf(nodes, r as int, o);
            }
            assert forall|j1: int, j2: int|
                0 <= j1 < nodes.len() && 0 <= j2 < nodes.len() && (#[trigger] nodes[j1]).object_index is Some
                    && (#[trigger] nodes[j2]).object_index == nodes[j1].object_index implies j1 == j2 by {
                assert(in_subtree(nodes, r as int, j1));
                assert(in_subtree(nodes, r as int, j2));
                lemma_unique_leaf(nodes, n, r as int, j1, j2);
            }
        },
    }
}

} // verus!
