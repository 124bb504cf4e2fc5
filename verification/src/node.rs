use vstd::prelude::*;

use crate::error::Error;
use crate::index::TabIndex;

verus! {

/// A leaf of the dock tree: a list of tabs, one of which is active.
#[derive(Clone, Debug)]
pub struct LeafNode<Tab> {
    pub tabs: Vec<Tab>,
    pub active: TabIndex,
}

impl<Tab> LeafNode<Tab> {
    /// Creates a leaf holding `tabs`, with the first one active.
    pub fn new(tabs: Vec<Tab>) -> (r: Self)
        ensures
            r.tabs@ == tabs@,
            r.active.0 == 0,
    {
        LeafNode { tabs, active: TabIndex(0) }
    }

    /// Number of tabs in this leaf.
    pub fn len(&self) -> (r: usize)
        ensures
            r == self.tabs@.len(),
    {
        self.tabs.len()
    }

    /// Returns `true` if the leaf holds no tab.
    pub fn is_empty(&self) -> (r: bool)
        ensures
            r == (self.tabs@.len() == 0),
    {
        self.tabs.len() == 0
    }

    /// Adds `tab` after the last tab and makes it active.
    pub fn append_tab(&mut self, tab: Tab)
        ensures
            final(self).tabs@ == old(self).tabs@.push(tab),
            final(self).active.0 == old(self).tabs@.len(),
    {
        self.tabs.push(tab);
        self.active = TabIndex(self.tabs.len() - 1);
    }

    /// Inserts `tab` at `index` and makes it active.
    pub fn insert_tab(&mut self, index: TabIndex, tab: Tab)
        requires
            index.0 <= old(self).tabs@.len(),
        ensures
            final(self).tabs@ == old(self).tabs@.insert(index.0 as int, tab),
            final(self).active == index,
    {
        self.tabs.insert(index.0, tab);
        self.active = index;
    }

    /// Removes the tab at `index`, if there is one.
    ///
    /// The active index moves down by one when the removed tab was at or before it.
    pub fn remove_tab(&mut self, index: TabIndex) -> (r: Option<Tab>)
        ensures
            index.0 < old(self).tabs@.len() ==> {
                &&& r == Some(old(self).tabs@[index.0 as int])
                &&& final(self).tabs@ == old(self).tabs@.remove(index.0 as int)
                &&& final(self).active.0 == if index.0 <= old(self).active.0 && old(self).active.0 > 0 {
                    old(self).active.0 - 1
                } else {
                    old(self).active.0 as int
                }
            },
            index.0 >= old(self).tabs@.len() ==> r is None && *final(self) == *old(self),
    {
        if index.0 < self.tabs.len() {
            let tab = self.tabs.remove(index.0);
            if index.0 <= self.active.0 && self.active.0 > 0 {
                self.active = TabIndex(self.active.0 - 1);
            }
            Some(tab)
        } else {
            None
        }
    }

    /// The tabs, mutably, for walking over them.
    pub(crate) fn tabs_slice_mut(&mut self) -> (r: &mut [Tab])
        ensures
            r@ == old(self).tabs@,
            final(self).tabs@ == final(r)@,
            final(self).active == old(self).active,
    {
        self.tabs.as_mut_slice()
    }

    /// Makes the tab at `index` active.
    ///
    /// # Errors
    /// `Error::InvalidTab` if there is no tab at `index`.
    pub fn set_active_tab(&mut self, index: TabIndex) -> (r: Result<(), Error>)
        ensures
            index.0 < old(self).tabs@.len() ==> r is Ok && final(self).active == index
                && final(self).tabs == old(self).tabs,
            index.0 >= old(self).tabs@.len() ==> r == Err::<(), Error>(Error::InvalidTab)
                && *final(self) == *old(self),
    {
        if index.0 < self.tabs.len() {
            self.active = index;
            Ok(())
        } else {
            Err(Error::InvalidTab)
        }
    }
}

/// A node of the dock tree.
///
/// The geometry of a split (its rectangle and the fraction given to each side)
/// is floating-point data that the rendering layer keeps; this type holds the
/// structure only.
#[derive(Clone, Debug)]
pub enum Node<Tab> {
    /// No node at this position.
    Empty,
    /// A list of tabs.
    Leaf(LeafNode<Tab>),
    /// A parent whose two children are stacked one above the other.
    Vertical,
    /// A parent whose two children sit side by side.
    Horizontal,
}

/// The tabs held by a node: those of a leaf, none otherwise.
pub open spec fn node_tabs<Tab>(n: Node<Tab>) -> Seq<Tab> {
    match n {
        Node::Leaf(leaf) => leaf.tabs@,
        _ => Seq::empty(),
    }
}

impl<Tab> Node<Tab> {
    pub open spec fn is_split(self) -> bool {
        self is Vertical || self is Horizontal
    }

    /// A leaf holding the single tab `tab`.
    pub fn leaf(tab: Tab) -> (r: Self)
        ensures
            r is Leaf,
            r->Leaf_0.tabs@ == seq![tab],
            r->Leaf_0.active.0 == 0,
    {
        let mut tabs = Vec::new();
        tabs.push(tab);
        Node::Leaf(LeafNode::new(tabs))
    }

    /// A leaf holding `tabs`.
    pub fn leaf_with(tabs: Vec<Tab>) -> (r: Self)
        ensures
            r is Leaf,
            r->Leaf_0.tabs@ == tabs@,
            r->Leaf_0.active.0 == 0,
    {
        Node::Leaf(LeafNode::new(tabs))
    }

    pub fn is_empty(&self) -> (r: bool)
        ensures
            r == (*self is Empty),
    {
        match self {
            Node::Empty => true,
            _ => false,
        }
    }

    pub fn is_leaf(&self) -> (r: bool)
        ensures
            r == (*self is Leaf),
    {
        match self {
            Node::Leaf(_) => true,
            _ => false,
        }
    }

    /// Returns `true` if this node has two children.
    pub fn is_parent(&self) -> (r: bool)
        ensures
            r == self.is_split(),
    {
        match self {
            Node::Vertical | Node::Horizontal => true,
            _ => false,
        }
    }

    pub fn is_horizontal(&self) -> (r: bool)
        ensures
            r == (*self is Horizontal),
    {
        match self {
            Node::Horizontal => true,
            _ => false,
        }
    }

    pub fn is_vertical(&self) -> (r: bool)
        ensures
            r == (*self is Vertical),
    {
        match self {
            Node::Vertical => true,
            _ => false,
        }
    }

    /// The leaf inside this node, if it is one.
    pub fn get_leaf(&self) -> (r: Option<&LeafNode<Tab>>)
        ensures
            *self is Leaf ==> r == Some(&self->Leaf_0),
            !(*self is Leaf) ==> r is None,
    {
        match self {
            Node::Leaf(leaf) => Some(leaf),
            _ => None,
        }
    }

    /// The leaf inside this node, mutably, if it is one.
    pub fn get_leaf_mut(&mut self) -> (r: Option<&mut LeafNode<Tab>>)
        ensures
            *old(self) is Leaf ==> (r matches Some(l) && *l == old(self)->Leaf_0 && *final(self) == Node::Leaf(*final(l))),
            !(*old(self) is Leaf) ==> r is None && *final(self) == *old(self),
    {
        match self {
            Node::Leaf(leaf) => Some(leaf),
            _ => None,
        }
    }

    /// Number of tabs in this node (zero unless it is a leaf).
    pub fn tabs_count(&self) -> (r: usize)
        ensures
            r == node_tabs(*self).len(),
    {
        match self {
            Node::Leaf(leaf) => leaf.tabs.len(),
            _ => 0,
        }
    }

    /// The tabs of this node, if it is a leaf.
    pub fn tabs(&self) -> (r: Option<&Vec<Tab>>)
        ensures
            *self is Leaf ==> (r matches Some(v) && v@ == node_tabs(*self)),
            !(*self is Leaf) ==> r is None,
    {
        match self {
            Node::Leaf(leaf) => Some(&leaf.tabs),
            _ => None,
        }
    }

    /// Removes the tab at `index` of a leaf; `None` if there is no such tab.
    pub fn remove_tab(&mut self, index: TabIndex) -> (r: Option<Tab>)
        ensures
            (*old(self) is Leaf && index.0 < node_tabs(*old(self)).len()) ==> {
                &&& r == Some(node_tabs(*old(self))[index.0 as int])
                &&& *final(self) is Leaf
                &&& node_tabs(*final(self)) == node_tabs(*old(self)).remove(index.0 as int)
            },
            !(*old(self) is Leaf && index.0 < node_tabs(*old(self)).len()) ==> r is None
                && *final(self) == *old(self),
    {
        match self {
            Node::Leaf(leaf) => leaf.remove_tab(index),
            _ => None,
        }
    }

    /// Appends `tab` to a leaf and makes it active.
    pub fn append_tab(&mut self, tab: Tab)
        requires
            *old(self) is Leaf,
        ensures
            *final(self) is Leaf,
            node_tabs(*final(self)) == node_tabs(*old(self)).push(tab),
            final(self)->Leaf_0.active.0 == node_tabs(*old(self)).len(),
    {
        match self {
            Node::Leaf(leaf) => leaf.append_tab(tab),
            _ => {},
        }
    }

    /// Inserts `tab` into a leaf at `index` and makes it active.
    pub fn insert_tab(&mut self, index: TabIndex, tab: Tab)
        requires
            *old(self) is Leaf,
            index.0 <= node_tabs(*old(self)).len(),
        ensures
            *final(self) is Leaf,
            node_tabs(*final(self)) == node_tabs(*old(self)).insert(index.0 as int, tab),
            final(self)->Leaf_0.active == index,
    {
        match self {
            Node::Leaf(leaf) => leaf.insert_tab(index, tab),
            _ => {},
        }
    }
}

} // verus!
