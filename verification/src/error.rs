use vstd::prelude::*;

verus! {

/// Reasons why a path into a `DockState` does not lead where it should.
#[derive(Clone, Copy, Debug, PartialEq, Eq, Hash, Structural)]
pub enum Error {
    /// The surface index is out of range.
    InvalidSurface,
    /// The surface exists but holds no tree.
    EmptySurface,
    /// The node index is out of range of the surface's tree.
    InvalidNode,
    /// The node exists but is not a leaf.
    NonLeafNode,
    /// The tab index is out of range of the leaf's tabs.
    InvalidTab,
}

} // verus!
