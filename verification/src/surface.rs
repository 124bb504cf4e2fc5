use vstd::multiset::Multiset;
use vstd::prelude::*;

use crate::tree::{no_empty_leaf, nodes_filter_mapped, nodes_filter_mapped_by, nodes_mapped_by, nodes_retained, outcomes, Tree};
use crate::node::Node;
use crate::shape::{prune, shape, shape_tabs};
use crate::window_state::WindowState;

verus! {

/// An area in which a dock tree is shown: the main surface, a window, or an
/// unused slot.
#[derive(Clone, Debug)]
pub enum Surface<Tab> {
    /// An unused slot; its index may be reused by a new window.
    Empty,
    /// The main surface.
    Main(Tree<Tab>),
    /// A window with its own tree.
    Window(Tree<Tab>, WindowState),
}

/// The tree of a surface, if it has one.
pub open spec fn surface_tree<Tab>(s: Surface<Tab>) -> Option<Tree<Tab>> {
    match s {
        Surface::Empty => None,
        Surface::Main(t) => Some(t),
        Surface::Window(t, _) => Some(t),
    }
}

/// The tabs of a surface.
pub open spec fn surface_tabs<Tab>(s: Surface<Tab>) -> Multiset<Tab> {
    match surface_tree(s) {
        Some(t) => t.tabs(),
        None => Multiset::empty(),
    }
}

/// The tree of a surface, if any, is well-formed.
pub open spec fn surface_wf<Tab>(s: Surface<Tab>) -> bool {
    surface_tree(s) matches Some(t) ==> t.wf()
}

/// The tree of `new` is the pruning of the nodes `m`; a surface without a tree stands
/// for a pruning that leaves nothing.
pub open spec fn pruned_to<B>(new: Surface<B>, m: Seq<Node<B>>) -> bool {
    match surface_tree(new) {
        Some(u) => u.root_shape() == prune(shape(m, 0)),
        None => prune(shape(m, 0)) is Nil,
    }
}

/// `new` is `old` with its tabs passed through outcomes allowed by `ok` (leaves left
/// without tabs removed; a window becomes an unused slot exactly when no tab is left).
pub open spec fn surface_filter_mapped<A, B>(ok: spec_fn(A, Option<B>) -> bool, old: Surface<A>, new: Surface<B>) -> bool {
    &&& surface_wf(new)
    &&& surface_tree(new) matches Some(u) ==> no_empty_leaf(u.node_seq())
    &&& match old {
        Surface::Empty => new is Empty,
        Surface::Main(t) => new is Main
            && exists|m| #[trigger] nodes_filter_mapped_by(ok, t.node_seq(), m) && surface_tabs(new) =~= shape_tabs(shape(m, 0)) && pruned_to(new, m),
        Surface::Window(t, ws) => (new is Empty || (new matches Surface::Window(u, ws2) && ws2 == ws && u.node_seq().len() > 0))
            && exists|m| #[trigger] nodes_filter_mapped_by(ok, t.node_seq(), m) && surface_tabs(new) =~= shape_tabs(shape(m, 0)) && pruned_to(new, m)
                && (new is Empty <==> shape_tabs(shape(m, 0)).len() == 0),
    }
}

/// `new` is `old` with every tab mapped to a value allowed by `ok` (leaves without tabs
/// removed; a window becomes an unused slot exactly when no tab is left).
pub open spec fn surface_mapped<A, B>(ok: spec_fn(A, B) -> bool, old: Surface<A>, new: Surface<B>) -> bool {
    &&& surface_wf(new)
    &&& surface_tree(new) matches Some(u) ==> no_empty_leaf(u.node_seq())
    &&& match old {
        Surface::Empty => new is Empty,
        Surface::Main(t) => new is Main
            && exists|m| #[trigger] nodes_mapped_by(ok, t.node_seq(), m) && surface_tabs(new) =~= shape_tabs(shape(m, 0)) && pruned_to(new, m),
        Surface::Window(t, ws) => (new is Empty || (new matches Surface::Window(u, ws2) && ws2 == ws && u.node_seq().len() > 0))
            && exists|m| #[trigger] nodes_mapped_by(ok, t.node_seq(), m) && surface_tabs(new) =~= shape_tabs(shape(m, 0)) && pruned_to(new, m)
                && (new is Empty <==> shape_tabs(shape(m, 0)).len() == 0),
    }
}

/// `new` is `old` keeping the tabs for which `f` held (leaves left without tabs removed;
/// a window becomes an unused slot exactly when no tab is left).
pub open spec fn surface_retained<A, F: Fn(&A) -> bool>(f: F, old: Surface<A>, new: Surface<A>) -> bool {
    &&& surface_wf(new)
    &&& surface_tree(new) matches Some(u) ==> no_empty_leaf(u.node_seq())
    &&& match old {
        Surface::Empty => new is Empty,
        Surface::Main(t) => new is Main
            && exists|m| #[trigger] nodes_retained(f, t.node_seq(), m) && surface_tabs(new) =~= shape_tabs(shape(m, 0)) && pruned_to(new, m),
        Surface::Window(t, ws) => (new is Empty || (new matches Surface::Window(u, ws2) && ws2 == ws && u.node_seq().len() > 0))
            && exists|m| #[trigger] nodes_retained(f, t.node_seq(), m) && surface_tabs(new) =~= shape_tabs(shape(m, 0)) && pruned_to(new, m)
                && (new is Empty <==> shape_tabs(shape(m, 0)).len() == 0),
    }
}

impl<Tab> Surface<Tab> {
    /// Returns `true` if this is an unused slot.
    pub fn is_empty(&self) -> (r: bool)
        ensures
            r == (*self is Empty),
    {
        match self {
            Surface::Empty => true,
            _ => false,
        }
    }

    /// The tree of this surface, if it has one.
    pub fn node_tree(&self) -> (r: Option<&Tree<Tab>>)
        ensures
            r == match surface_tree(*self) { Some(t) => Some(&t), None => None::<&Tree<Tab>> },
    {
        match self {
            Surface::Empty => None,
            Surface::Main(tree) => Some(tree),
            Surface::Window(tree, _) => Some(tree),
        }
    }

    /// The tree of this surface, mutably, if it has one.
    pub fn node_tree_mut(&mut self) -> (r: Option<&mut Tree<Tab>>)
        ensures
            *old(self) is Empty ==> r is None && *final(self) == *old(self),
            *old(self) is Main ==> (r matches Some(t) && *t == old(self)->Main_0 && *final(self) == Surface::Main(*final(t))),
            *old(self) is Window ==> (r matches Some(t) && *t == old(self)->Window_0 && *final(self) == Surface::Window(*final(t), old(self)->Window_1)),
    {
        match self {
            Surface::Empty => None,
            Surface::Main(tree) => Some(tree),
            Surface::Window(tree, _) => Some(tree),
        }
    }

    /// A surface of the same kind whose tabs are the `Some` results of `f`; a window
    /// left without tabs becomes an unused slot.
    pub fn filter_map_tabs<NewTab, F: Fn(&Tab) -> Option<NewTab>>(&self, f: &F) -> (r: Surface<NewTab>)
        requires
            surface_wf(*self),
            forall|t: &Tab| f.requires((t,)),
        ensures
            surface_filter_mapped(outcomes(*f), *self, r),
    {
        let ghost ok = outcomes(*f);
        match self {
            Surface::Empty => Surface::Empty,
            Surface::Main(tree) => {
                let u = tree.filter_map_tabs(f);
                proof {
                    let m = choose|m| #[trigger] nodes_filter_mapped(*f, tree.node_seq(), m) && u.tabs() =~= shape_tabs(shape(m, 0)) && u.root_shape() == prune(shape(m, 0));
                    crate::tree::lemma_filter_mapped_by(*f, ok, tree.node_seq(), m);
                }
                Surface::Main(u)
            },
            Surface::Window(tree, ws) => {
                let u = tree.filter_map_tabs(f);
                proof {
                    let m = choose|m| #[trigger] nodes_filter_mapped(*f, tree.node_seq(), m) && u.tabs() =~= shape_tabs(shape(m, 0)) && u.root_shape() == prune(shape(m, 0));
                    crate::tree::lemma_filter_mapped_by(*f, ok, tree.node_seq(), m);
                    crate::tree::lemma_same_kinds_wf(tree.node_seq(), m);
                    crate::shape::lemma_prune_nil(m, 0);
                }
                if holds_nothing(&u) {
                    Surface::Empty
                } else {
                    Surface::Window(u, *ws)
                }
            },
        }
    }

    /// A surface of the same kind whose tabs are those of `self` mapped by `f`; leaves
    /// without tabs are removed, and a window left without nodes becomes an unused slot.
    pub fn map_tabs<NewTab, F: Fn(&Tab) -> NewTab>(&self, f: &F) -> (r: Surface<NewTab>)
        requires
            surface_wf(*self),
            forall|t: &Tab| f.requires((t,)),
        ensures
            surface_mapped(outcomes(*f), *self, r),
    {
        match self {
            Surface::Empty => Surface::Empty,
            Surface::Main(tree) => Surface::Main(tree.map_tabs_pruned(f)),
            Surface::Window(tree, ws) => {
                let u = tree.map_tabs_pruned(f);
                proof {
                    let m = choose|m: Seq<Node<NewTab>>| #[trigger] crate::tree::nodes_mapped_by(outcomes(*f), tree.node_seq(), m) && u.tabs() =~= shape_tabs(shape(m, 0)) && u.root_shape() == prune(shape(m, 0));
                    crate::tree::lemma_same_kinds_wf(tree.node_seq(), m);
                    crate::shape::lemma_prune_nil(m, 0);
                }
                if holds_nothing(&u) {
                    Surface::Empty
                } else {
                    Surface::Window(u, *ws)
                }
            },
        }
    }

    /// Keeps the tabs for which `f` holds; a window left without tabs becomes an unused slot.
    pub fn retain_tabs<F: Fn(&Tab) -> bool>(&mut self, f: &F)
        requires
            surface_wf(*old(self)),
            forall|t: &Tab| f.requires((t,)),
        ensures
            surface_retained(*f, *old(self), *final(self)),
    {
        let mut s = Surface::Empty;
        std::mem::swap(&mut s, self);
        match s {
            Surface::Empty => {},
            Surface::Main(mut tree) => {
                tree.retain_tabs(f);
                *self = Surface::Main(tree);
            },
            Surface::Window(mut tree, ws) => {
                let ghost t0 = tree;
                tree.retain_tabs(f);
                proof {
                    let m = choose|m: Seq<Node<Tab>>| #[trigger] nodes_retained(*f, t0.node_seq(), m) && tree.tabs() =~= shape_tabs(shape(m, 0)) && tree.root_shape() == prune(shape(m, 0));
                    crate::tree::lemma_same_kinds_wf(t0.node_seq(), m);
                    crate::shape::lemma_prune_nil(m, 0);
                }
                if !holds_nothing(&tree) {
                    *self = Surface::Window(tree, ws);
                }
            },
        }
    }
}

/// Is the tree without any node in use (no nodes, or an unused root)?
fn holds_nothing<Tab>(t: &Tree<Tab>) -> (r: bool)
    ensures
        r == (t.root_shape() is Nil),
{
    match t.get(crate::index::NodeIndex(0)) {
        None => true,
        Some(n) => n.is_empty(),
    }
}

} // verus!
