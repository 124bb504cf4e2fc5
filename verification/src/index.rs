use vstd::prelude::*;

verus! {

/// Position of a node inside the array that stores a binary tree in breadth-first order.
///
/// The root is at `0`; the children of `i` are at `2 * i + 1` and `2 * i + 2`.
pub open spec fn left_of(i: int) -> int {
    2 * i + 1
}

pub open spec fn right_of(i: int) -> int {
    2 * i + 2
}

pub open spec fn parent_of(i: int) -> int {
    (i - 1) / 2
}

/// The parent of either child of a node is that node; the left child is a left child and
/// the right child a right child.
pub proof fn lemma_children_parent(i: int)
    requires
        0 <= i,
    ensures
        parent_of(left_of(i)) == i,
        parent_of(right_of(i)) == i,
        left_of(i) % 2 == 1,
        right_of(i) != 0 && right_of(i) % 2 == 0,
{
}

/// Every node but the root is a child of its parent.
pub proof fn lemma_parent_children(i: int)
    requires
        0 < i,
    ensures
        0 <= parent_of(i) < i,
        i % 2 == 1 ==> left_of(parent_of(i)) == i,
        i % 2 == 0 ==> right_of(parent_of(i)) == i,
{
}

/// Wrapper around indices to the collection of surfaces inside a `DockState`.
#[derive(Clone, Copy, Debug, PartialEq, Eq, Hash, Structural)]
pub struct SurfaceIndex(pub usize);

impl SurfaceIndex {
    /// Returns the index of the main surface.
    pub fn main() -> (r: Self)
        ensures
            r.0 == 0,
    {
        SurfaceIndex(0)
    }

    /// Returns `true` if this is the index of the main surface.
    pub fn is_main(&self) -> (r: bool)
        ensures
            r == (self.0 == 0),
    {
        self.0 == 0
    }
}

/// Identifies a tab within a leaf node.
#[derive(Clone, Copy, Debug, PartialEq, Eq, Hash, Structural)]
pub struct TabIndex(pub usize);

/// Identifies a node inside a `Tree`, in breadth-first order.
#[derive(Clone, Copy, Debug, PartialEq, Eq, Hash, Structural)]
pub struct NodeIndex(pub usize);

impl NodeIndex {
    /// Returns the index of the root node.
    pub fn root() -> (r: Self)
        ensures
            r.0 == 0,
    {
        NodeIndex(0)
    }

    /// Returns `true` if this is the root node.
    pub fn is_root(&self) -> (r: bool)
        ensures
            r == (self.0 == 0),
    {
        self.0 == 0
    }

    /// Returns `true` if this node is the left child of its parent.
    pub fn is_left(&self) -> (r: bool)
        ensures
            r == (self.0 % 2 == 1),
    {
        self.0 % 2 == 1
    }

    /// Returns `true` if this node is the right child of its parent.
    pub fn is_right(&self) -> (r: bool)
        ensures
            r == (self.0 != 0 && self.0 % 2 == 0),
    {
        self.0 != 0 && self.0 % 2 == 0
    }

    /// Returns the index of the left child.
    pub fn left(&self) -> (r: Self)
        requires
            2 * self.0 + 1 <= usize::MAX,
        ensures
            r.0 == left_of(self.0 as int),
    {
        NodeIndex(2 * self.0 + 1)
    }

    /// Returns the index of the right child.
    pub fn right(&self) -> (r: Self)
        requires
            2 * self.0 + 2 <= usize::MAX,
        ensures
            r.0 == right_of(self.0 as int),
    {
        NodeIndex(2 * self.0 + 2)
    }

    /// Returns the index of the parent, or `None` for the root.
    pub fn parent(&self) -> (r: Option<Self>)
        ensures
            self.0 == 0 ==> r is None,
            self.0 != 0 ==> r == Some(NodeIndex(parent_of(self.0 as int) as usize)),
    {
        if self.0 > 0 {
            Some(NodeIndex((self.0 - 1) / 2))
        } else {
            None
        }
    }
}

/// Specifies the location of a node by its surface and its index in that surface's tree.
#[derive(Clone, Copy, Debug, PartialEq, Eq, Hash, Structural)]
pub struct NodePath {
    pub surface: SurfaceIndex,
    pub node: NodeIndex,
}

impl NodePath {
    pub fn new(surface: SurfaceIndex, node: NodeIndex) -> (r: Self)
        ensures
            r.surface == surface,
            r.node == node,
    {
        NodePath { surface, node }
    }

    /// The path of the left child of this node.
    pub fn left_node(&self) -> (r: Self)
        requires
            2 * self.node.0 + 1 <= usize::MAX,
        ensures
            r.surface == self.surface,
            r.node.0 == left_of(self.node.0 as int),
    {
        NodePath { surface: self.surface, node: self.node.left() }
    }

    /// The path of the right child of this node.
    pub fn right_node(&self) -> (r: Self)
        requires
            2 * self.node.0 + 2 <= usize::MAX,
        ensures
            r.surface == self.surface,
            r.node.0 == right_of(self.node.0 as int),
    {
        NodePath { surface: self.surface, node: self.node.right() }
    }
}

/// Specifies the location of a tab: its surface, its node and its position in that node.
#[derive(Clone, Copy, Debug, PartialEq, Eq, Hash, Structural)]
pub struct TabPath {
    pub surface: SurfaceIndex,
    pub node: NodeIndex,
    pub tab: TabIndex,
}

impl TabPath {
    /// The path of the node that holds this tab.
    pub open spec fn node_path_spec(&self) -> NodePath {
        NodePath { surface: self.surface, node: self.node }
    }

    pub fn new(surface: SurfaceIndex, node: NodeIndex, tab: TabIndex) -> (r: Self)
        ensures
            r.surface == surface,
            r.node == node,
            r.tab == tab,
    {
        TabPath { surface, node, tab }
    }

    /// The path of the node that holds this tab.
    #[verifier::when_used_as_spec(node_path_spec)]
    pub fn node_path(&self) -> (r: NodePath)
        ensures
            r == self.node_path_spec(),
    {
        NodePath { surface: self.surface, node: self.node }
    }
}

} // verus!
