//! What closing tabs, leaves and windows does to the dock, once the tab viewer has
//! answered for each tab.
use vstd::prelude::*;

use crate::dock_state::{tab_error, tree_replaced_then_cleaned, DockState};
use crate::index::{NodePath, SurfaceIndex, TabPath};
use crate::node::{LeafNode, Node};
use crate::surface::surface_tree;
use crate::tree::Tree;

verus! {

/// What the tab viewer answers when a tab is about to be closed.
#[derive(Clone, Copy, Debug, PartialEq, Eq, Structural)]
pub enum CloseResponse {
    /// The tab is closed.
    Close,
    /// The tab stays, and is brought to the front and focused.
    Focus,
    /// The tab stays as it is.
    Ignore,
}

/// Whether every tab agrees to close: each answer is whether the tab may be closed at
/// all, and what the tab viewer answered when asked to close it.
pub fn closes_all(answers: &Vec<(bool, CloseResponse)>) -> (r: bool)
    ensures
        r == forall|i: int| 0 <= i < answers@.len() ==> (#[trigger] answers@[i]).0 && answers@[i].1 == CloseResponse::Close,
{
    let mut all = true;
    let mut i: usize = 0;
    while i < answers.len()
        invariant
            i <= answers@.len(),
            all == forall|j: int| 0 <= j < i ==> (#[trigger] answers@[j]).0 && answers@[j].1 == CloseResponse::Close,
        decreases answers@.len() - i,
    {
        let (closable, response) = answers[i];
        if !(closable && response == CloseResponse::Close) {
            all = false;
        }
        i += 1;
    }
    all
}

/// `new` (in focus `new_focus`) is `old` (in focus `old_focus`) once the tab at `path`
/// is removed: its tree loses it as `tab_removed` says, then a window left without nodes
/// is removed; where there is no such tab, only a window without nodes there goes.
pub open spec fn tab_removal<Tab>(
    old: Seq<crate::surface::Surface<Tab>>,
    old_focus: Option<SurfaceIndex>,
    new: Seq<crate::surface::Surface<Tab>>,
    new_focus: Option<SurfaceIndex>,
    path: TabPath,
) -> bool {
    let i = path.surface.0 as int;
    if tab_error(old, path) is None {
        exists|u: Tree<Tab>| #[trigger] crate::tree::tab_removed(surface_tree(old[i])->0, u, path.node.0 as int, path.tab.0 as int)
            && tree_replaced_then_cleaned(old, old_focus, new, new_focus, i, u)
    } else if 0 <= i < old.len() && surface_tree(old[i]) is Some {
        tree_replaced_then_cleaned(old, old_focus, new, new_focus, i, surface_tree(old[i])->0)
    } else {
        new == old && new_focus == old_focus
    }
}

impl<Tab> DockState<Tab> {
    /// Closes the tab at `path`: a forced close, or the answer `Close`, removes it (and a
    /// leaf or window left empty); `Focus` makes it the active tab of its leaf and returns
    /// that leaf, to be focused; `Ignore` changes nothing.
    pub fn close_tab(&mut self, path: TabPath, forced: bool, response: CloseResponse) -> (r: Option<NodePath>)
        requires
            old(self).wf(),
            forced || tab_error(old(self).surface_seq(), path) is None,
        ensures
            final(self).wf(),
            final(self).texts() == old(self).texts(),
            forced || response == CloseResponse::Close ==> r is None
                && tab_removal(old(self).surface_seq(), old(self).focused(), final(self).surface_seq(), final(self).focused(), path),
            !forced && response == CloseResponse::Focus ==> {
                let s = path.surface.0 as int;
                let leaf = crate::dock_state::node_at(old(self).surface_seq(), path.node_path())->Leaf_0;
                &&& r == Some(path.node_path())
                &&& final(self).focused() == old(self).focused()
                &&& crate::dock_state::only_tree_changed(old(self).surface_seq(), final(self).surface_seq(), s)
                &&& final(self).tree_at(s).node_seq() == old(self).tree_at(s).node_seq().update(
                    path.node.0 as int,
                    Node::Leaf(LeafNode { tabs: leaf.tabs, active: path.tab }),
                )
                &&& final(self).tree_at(s).focus() == old(self).tree_at(s).focus()
            },
            !forced && response == CloseResponse::Ignore ==> r is None && final(self).surface_seq() == old(self).surface_seq()
                && final(self).focused() == old(self).focused(),
    {
        if forced || response == CloseResponse::Close {
            let _ = self.remove_tab(path);
            None
        } else if response == CloseResponse::Focus {
            let _ = self.set_active_tab(path);
            Some(path.node_path())
        } else {
            None
        }
    }

    /// Closes the leaf at `path` if every one of its tabs agreed to close, with its tabs;
    /// a window left without nodes is removed too. Returns whether it was closed.
    pub fn close_leaf(&mut self, path: NodePath, all_agree: bool) -> (r: bool)
        requires
            old(self).wf(),
            crate::dock_state::leaf_error(old(self).surface_seq(), path) is None,
        ensures
            final(self).wf(),
            final(self).texts() == old(self).texts(),
            r == all_agree,
            all_agree ==> exists|u: Tree<Tab>| #[trigger] crate::tree::leaf_removed(old(self).tree_at(path.surface.0 as int), u, path.node.0 as int)
                && tree_replaced_then_cleaned(old(self).surface_seq(), old(self).focused(), final(self).surface_seq(), final(self).focused(), path.surface.0 as int, u),
            !all_agree ==> final(self).surface_seq() == old(self).surface_seq() && final(self).focused() == old(self).focused(),
    {
        if all_agree {
            self.remove_leaf(path);
        }
        all_agree
    }

    /// Closes the window at `surface` if every one of its tabs agreed to close: its slot
    /// becomes unused (or goes, if it is the last one) and the focus moves to the main
    /// surface. Returns whether it was closed.
    pub fn close_window(&mut self, surface: SurfaceIndex, all_agree: bool) -> (r: bool)
        requires
            old(self).wf(),
            surface.0 != 0,
            old(self).has_tree(surface.0 as int),
        ensures
            final(self).wf(),
            final(self).texts() == old(self).texts(),
            r == all_agree,
            all_agree ==> {
                &&& final(self).focused() == Some(SurfaceIndex(0))
                &&& surface.0 == old(self).surface_seq().len() - 1 ==> final(self).surface_seq() == old(self).surface_seq().drop_last()
                &&& surface.0 < old(self).surface_seq().len() - 1 ==> final(self).surface_seq() == old(self).surface_seq().update(
                    surface.0 as int,
                    crate::surface::Surface::Empty,
                )
            },
            !all_agree ==> final(self).surface_seq() == old(self).surface_seq() && final(self).focused() == old(self).focused(),
    {
        if all_agree {
            let _ = self.remove_surface(surface);
        }
        all_agree
    }
}

} // verus!
