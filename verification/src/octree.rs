//! A generic octree whose nodes carry a bounding box of the caller's type.

use vstd::prelude::*;

verus! {

/// A node is either a branch with eight child slots (one per octant) or a
/// leaf that lists its contents.
pub enum OctreeNodeType<T, B> {
    OctreeBranch { children: Vec<Option<Box<OctreeNode<T, B>>>> },
    OctreeLeaf { contents: Vec<T> },
}

/// A node of an octree together with the bounding box it covers.
pub struct OctreeNode<T, B> {
    pub axis_aligned_bounding_box: B,
    pub octree_node_type: OctreeNodeType<T, B>,
}

/// The number of child slots of a branch node.
pub const OCTANT_COUNT: usize = 8;

impl<T, B> OctreeNode<T, B> {
    /// A leaf covering `axis_aligned_bounding_box` that holds `contents`.
    pub fn new_leaf_node(axis_aligned_bounding_box: B, contents: Vec<T>) -> (node: Self)
        ensures
            node.axis_aligned_bounding_box == axis_aligned_bounding_box,
            node.octree_node_type == (OctreeNodeType::<T, B>::OctreeLeaf { contents }),
    {
        Self { axis_aligned_bounding_box, octree_node_type: OctreeNodeType::OctreeLeaf { contents } }
    }

    /// A branch covering `axis_aligned_bounding_box` whose eight child slots
    /// are all empty.
    pub fn new_branch_node(axis_aligned_bounding_box: B) -> (node: Self)
        ensures
            node.axis_aligned_bounding_box == axis_aligned_bounding_box,
            node.octree_node_type is OctreeBranch,
            node.octree_node_type->children@.len() == OCTANT_COUNT,
            forall|k: int|
                0 <= k < OCTANT_COUNT ==> #[trigger] node.octree_node_type->children@[k] is None,
    {
        let children: Vec<Option<Box<OctreeNode<T, B>>>> = vec![None, None, None, None, None, None, None, None];
        Self { axis_aligned_bounding_box, octree_node_type: OctreeNodeType::OctreeBranch { children } }
    }
}

/// An octree with the parameters it was built with.
pub struct Octree<T, B> {
    minimum_leaves: u32,
    maximum_depth: u32,
    root: Box<OctreeNode<T, B>>,
}

impl<T, B> Octree<T, B> {
    pub closed spec fn spec_minimum_leaves(&self) -> u32 {
        self.minimum_leaves
    }

    pub closed spec fn spec_maximum_depth(&self) -> u32 {
        self.maximum_depth
    }

    pub closed spec fn spec_root(&self) -> OctreeNode<T, B> {
        *self.root
    }

    /// An octree with the given parameters and root node.
    pub fn new(minimum_leaves: u32, maximum_depth: u32, root: OctreeNode<T, B>) -> (tree: Self)
        ensures
            tree.spec_minimum_leaves() == minimum_leaves,
            tree.spec_maximum_depth() == maximum_depth,
            tree.spec_root() == root,
    {
        Self { minimum_leaves, maximum_depth, root: Box::new(root) }
    }

    /// The bounding box of the whole tree.
    pub fn get_root_axis_aligned_bounding_box(&self) -> (bounds: &B)
        ensures
            *bounds == self.spec_root().axis_aligned_bounding_box,
    {
        &self.root.axis_aligned_bounding_box
    }

    /// The root node.
    pub fn get_root(&self) -> (root: &OctreeNode<T, B>)
        ensures
            *root == self.spec_root(),
    {
        &self.root
    }
}

} // verus!
