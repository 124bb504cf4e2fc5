use vstd::prelude::*;

use crate::index::{NodePath, SurfaceIndex, TabIndex};

verus! {

/// Direction in which a new node is placed relative to the node that is split.
#[derive(Clone, Copy, Debug, PartialEq, Eq, Hash, Structural)]
pub enum Split {
    Left,
    Right,
    Above,
    Below,
}

impl Split {
    /// Returns `true` if the split is vertical (above or below).
    pub fn is_top_bottom(&self) -> (r: bool)
        ensures
            r == (*self is Above || *self is Below),
    {
        match self {
            Split::Above | Split::Below => true,
            _ => false,
        }
    }

    /// Returns `true` if the split is horizontal (left or right).
    pub fn is_left_right(&self) -> (r: bool)
        ensures
            r == (*self is Left || *self is Right),
    {
        match self {
            Split::Left | Split::Right => true,
            _ => false,
        }
    }
}

/// How a tab is inserted into a node.
#[derive(Clone, Copy, Debug, PartialEq, Eq, Hash, Structural)]
pub enum TabInsert {
    /// Split the node in the given direction; the tab gets a leaf of its own.
    Split(Split),
    /// Insert the tab at the given position among the node's tabs.
    Insert(TabIndex),
    /// Append the tab after the node's last tab.
    Append,
}

/// Where a moved tab goes.
///
/// `R` is the placement of a new window: its geometry is kept opaque by this
/// library, which only decides the structure of the dock.
#[derive(Clone, Copy, Debug, PartialEq, Eq)]
pub enum TabDestination<R> {
    /// Move the tab into a new window placed at `R`.
    Window(R),
    /// Move the tab into the given node.
    Node(NodePath, TabInsert),
    /// Move the tab into the given (empty) surface.
    EmptySurface(SurfaceIndex),
}

impl<R> TabDestination<R> {
    /// Returns `true` if the destination is a new window.
    pub fn is_window(&self) -> (r: bool)
        ensures
            r == (*self is Window),
    {
        match self {
            TabDestination::Window(_) => true,
            _ => false,
        }
    }
}

} // verus!
