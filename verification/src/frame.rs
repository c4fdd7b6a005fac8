//! Topology of the tree of reference frames that connects the bodies: each
//! frame names its parent and keeps its children in the order they were
//! added. The rigid transforms between frames are floating-point data and
//! live beside this tree, not in it.

use vstd::prelude::*;

verus! {

/// A frame of the tree.
pub struct TreeNode {
    /// Name of the frame.
    pub name: &'static str,
    /// Parent frame, or `None` for a root.
    pub parent: Option<usize>,
    /// Child frames, in the order they were added.
    pub children: Vec<usize>,
}

/// A tree of frames, stored in the order the frames were added.
pub struct TransformTree {
    nodes: Vec<TreeNode>,
}

impl View for TransformTree {
    /// For each frame in order: its name, its parent and its children.
    type V = Seq<(&'static str, Option<usize>, Seq<usize>)>;

    closed spec fn view(&self) -> Self::V {
        Seq::new(
            self.nodes@.len(),
            |i: int| (self.nodes@[i].name, self.nodes@[i].parent, self.nodes@[i].children@),
        )
    }
}

impl TransformTree {
    /// Create an empty tree.
    pub fn new() -> (t: Self)
        ensures
            t@.len() == 0,
    {
        TransformTree { nodes: Vec::new() }
    }

    /// Add a frame named `name` below `parent` (or as a root) and return
    /// its index, which is the number of frames before it. The new frame
    /// has no children yet and is appended to its parent's children.
    pub fn add_node(&mut self, name: &'static str, parent: Option<usize>) -> (index: usize)
        requires
            parent matches Some(p) ==> p <= old(self)@.len(),
        ensures
            index == old(self)@.len(),
            final(self)@.len() == old(self)@.len() + 1,
            final(self)@[index as int] == (name, parent, if parent == Some(index) {
                seq![index]
            } else {
                Seq::<usize>::empty()
            }),
            forall|j: int|
                0 <= j < old(self)@.len() ==> #[trigger] final(self)@[j] == (if parent == Some(j as usize) {
                    (old(self)@[j].0, old(self)@[j].1, old(self)@[j].2.push(index))
                } else {
                    old(self)@[j]
                }),
    {
        let ghost before = self.nodes@;
        let index = self.nodes.len();
        self.nodes.push(TreeNode { name, parent, children: Vec::new() });
        if let Some(p) = parent {
            let mut node = self.nodes.remove(p);
            node.children.push(index);
            self.nodes.insert(p, node);
        }
        proof {
            let after = self.nodes@;
            assert(after.len() == before.len() + 1);
            assert forall|j: int| 0 <= j < before.len() implies #[trigger] self@[j] == (if parent == Some(j as usize) {
                (old(self)@[j].0, old(self)@[j].1, old(self)@[j].2.push(index))
            } else {
                old(self)@[j]
            }) by {
                if parent == Some(j as usize) {
                    assert(after[j].children@ == before[j].children@.push(index));
                } else {
                    assert(after[j] == before[j]);
                }
            }
            if parent == Some(index) {
                assert(after[index as int].children@ =~= seq![index]);
            } else {
                assert(after[index as int].children@ =~= Seq::<usize>::empty());
            }
        }
        index
    }

    /// The children of frame `node`, in the order they were added.
    pub fn children(&self, node: usize) -> (c: &[usize])
        requires
            node < self@.len(),
        ensures
            c@ == self@[node as int].2,
    {
        self.nodes[node].children.as_slice()
    }

    /// The parent of frame `node`, or `None` for a root.
    pub fn parent(&self, node: usize) -> (p: Option<usize>)
        requires
            node < self@.len(),
        ensures
            p == self@[node as int].1,
    {
        self.nodes[node].parent
    }

    /// The number of frames.
    pub fn len(&self) -> (n: usize)
        ensures
            n == self@.len(),
    {
        self.nodes.len()
    }
}

} // verus!
