//! The collection of surfaces that make up a dock.
use vstd::multiset::Multiset;
use vstd::prelude::*;
use vstd::std_specs::cmp::PartialEqSpec;

use crate::error::Error;
use crate::index::{NodeIndex, NodePath, SurfaceIndex, TabIndex, TabPath};
use crate::node::{node_tabs, LeafNode, Node};
use crate::surface::{surface_filter_mapped, surface_mapped, surface_retained, surface_tabs, surface_tree, surface_wf, Surface};
use crate::tree::outcomes;
use crate::translations::Translations;
use crate::tree::Tree;
use crate::window_state::WindowState;

verus! {

broadcast use vstd::seq_lib::group_to_multiset_ensures;

/// An empty sequence holds no element.
pub proof fn lemma_empty_to_multiset<T>(s: Seq<T>)
    requires
        s.len() == 0,
    ensures
        s.to_multiset() =~= Multiset::empty(),
{
    assert forall|v: T| s.to_multiset().count(v) == 0 by {
        assert(!s.contains(v));
    }
}

/// All tabs of a sequence of surfaces.
pub open spec fn all_tabs<Tab>(ss: Seq<Surface<Tab>>) -> Multiset<Tab>
    decreases ss.len(),
{
    if ss.len() == 0 {
        Multiset::empty()
    } else {
        all_tabs(ss.drop_last()).add(surface_tabs(ss.last()))
    }
}

/// Replacing one surface changes the tabs by as much.
pub proof fn lemma_all_tabs_update<Tab>(ss: Seq<Surface<Tab>>, i: int, x: Surface<Tab>)
    requires
        0 <= i < ss.len(),
    ensures
        all_tabs(ss.update(i, x)).add(surface_tabs(ss[i])) =~= all_tabs(ss).add(surface_tabs(x)),
    decreases ss.len(),
{
    let u = ss.update(i, x);
    if i == ss.len() - 1 {
        assert(u.drop_last() =~= ss.drop_last());
    } else {
        assert(u.drop_last() =~= ss.drop_last().update(i, x));
        lemma_all_tabs_update(ss.drop_last(), i, x);
        let a = all_tabs(u.drop_last());
        let b = all_tabs(ss.drop_last());
        let l = surface_tabs(ss.last());
        assert forall|v: Tab| #[trigger] all_tabs(u).add(surface_tabs(ss[i])).count(v) == all_tabs(ss).add(surface_tabs(x)).count(v) by {
            assert(a.add(surface_tabs(ss[i])).count(v) == b.add(surface_tabs(x)).count(v));
        }
    }
}

/// There is a main surface at index 0, and every tree is well-formed.
pub open spec fn surfaces_wf<Tab>(ss: Seq<Surface<Tab>>) -> bool {
    &&& ss.len() >= 1
    &&& ss[0] is Main
    &&& forall|i: int| 0 <= i < ss.len() ==> surface_wf(#[trigger] ss[i])
}

/// As `surfaces_wf`, except that the main slot may also be unused.
pub open spec fn surfaces_wf_but_main<Tab>(ss: Seq<Surface<Tab>>) -> bool {
    &&& ss.len() >= 1
    &&& ss[0] is Main || ss[0] is Empty
    &&& forall|i: int| 0 <= i < ss.len() ==> surface_wf(#[trigger] ss[i])
}

/// The first unused slot from index `i` on, or the number of surfaces.
pub open spec fn first_empty_from<Tab>(ss: Seq<Surface<Tab>>, i: int) -> int
    decreases ss.len() - i,
{
    if i < 0 || i >= ss.len() {
        ss.len() as int
    } else if ss[i] is Empty {
        i
    } else {
        first_empty_from(ss, i + 1)
    }
}

/// The first problem, if any, on the way to the node at `path`.
pub open spec fn node_error<Tab>(ss: Seq<Surface<Tab>>, path: NodePath) -> Option<Error> {
    if path.surface.0 >= ss.len() {
        Some(Error::InvalidSurface)
    } else if ss[path.surface.0 as int] is Empty {
        Some(Error::EmptySurface)
    } else if path.node.0 >= surface_tree(ss[path.surface.0 as int])->0.node_seq().len() {
        Some(Error::InvalidNode)
    } else {
        None
    }
}

/// The node at a path that leads to one.
pub open spec fn node_at<Tab>(ss: Seq<Surface<Tab>>, path: NodePath) -> Node<Tab> {
    surface_tree(ss[path.surface.0 as int])->0.node_seq()[path.node.0 as int]
}

/// The first problem, if any, on the way to the leaf at `path`.
pub open spec fn leaf_error<Tab>(ss: Seq<Surface<Tab>>, path: NodePath) -> Option<Error> {
    if node_error(ss, path) is Some {
        node_error(ss, path)
    } else if !(node_at(ss, path) is Leaf) {
        Some(Error::NonLeafNode)
    } else {
        None
    }
}

/// The first problem, if any, on the way to the tab at `path`.
pub open spec fn tab_error<Tab>(ss: Seq<Surface<Tab>>, path: TabPath) -> Option<Error> {
    if leaf_error(ss, path.node_path()) is Some {
        leaf_error(ss, path.node_path())
    } else if path.tab.0 >= node_tabs(node_at(ss, path.node_path())).len() {
        Some(Error::InvalidTab)
    } else {
        None
    }
}

/// The indices of the first `n` surfaces that are in use, in order.
pub open spec fn valid_indices<Tab>(ss: Seq<Surface<Tab>>, n: int) -> Seq<SurfaceIndex>
    decreases n,
{
    if n <= 0 {
        Seq::empty()
    } else if !(ss[n - 1] is Empty) {
        valid_indices(ss, n - 1).push(SurfaceIndex((n - 1) as usize))
    } else {
        valid_indices(ss, n - 1)
    }
}

/// The indices in use among the first `n` are listed once each, in increasing order, and
/// only they are.
pub proof fn lemma_valid_indices<Tab>(ss: Seq<Surface<Tab>>, n: int)
    requires
        0 <= n <= ss.len(),
        ss.len() <= usize::MAX,
    ensures
        forall|k: int| 0 <= k < valid_indices(ss, n).len() ==> (#[trigger] valid_indices(ss, n)[k]).0 < n
            && !(ss[valid_indices(ss, n)[k].0 as int] is Empty),
        forall|a: int, b: int| 0 <= a < b < valid_indices(ss, n).len()
            ==> (#[trigger] valid_indices(ss, n)[a]).0 < (#[trigger] valid_indices(ss, n)[b]).0,
        forall|j: int| 0 <= j < n && !(#[trigger] ss[j] is Empty) ==> valid_indices(ss, n).contains(SurfaceIndex(j as usize)),
    decreases n,
{
    if n > 0 {
        lemma_valid_indices(ss, n - 1);
        let v = valid_indices(ss, n - 1);
        if !(ss[n - 1] is Empty) {
            let w = v.push(SurfaceIndex((n - 1) as usize));
            assert(valid_indices(ss, n) == w);
            assert forall|k: int| 0 <= k < w.len() implies (#[trigger] w[k]).0 < n && !(ss[w[k].0 as int] is Empty) by {
                if k < v.len() {
                    assert(w[k] == v[k]);
                }
            }
            assert forall|a: int, b: int| 0 <= a < b < w.len() implies (#[trigger] w[a]).0 < (#[trigger] w[b]).0 by {
                assert(w[a] == v[a]);
                if b < v.len() {
                    assert(w[b] == v[b]);
                }
            }
            assert forall|j: int| 0 <= j < n && !(#[trigger] ss[j] is Empty) implies w.contains(SurfaceIndex(j as usize)) by {
                if j < n - 1 {
                    let k = choose|k: int| 0 <= k < v.len() && v[k] == SurfaceIndex(j as usize);
                    assert(w[k] == v[k]);
                } else {
                    assert(w[w.len() - 1] == SurfaceIndex(j as usize));
                }
            }
        }
    }
}

fn swap_surface<Tab>(v: &mut Vec<Surface<Tab>>, i: usize, x: Surface<Tab>) -> (r: Surface<Tab>)
    requires
        i < old(v)@.len(),
    ensures
        r == old(v)@[i as int],
        final(v)@ == old(v)@.update(i as int, x),
{
    let mut x = x;
    std::mem::swap(&mut x, &mut v[i]);
    x
}

/// The heart of the dock: a collection of surfaces, each of which stores a tree in
/// which tabs are arranged.
///
/// The surface at index 0 is the main surface; the others are windows or unused slots.
#[derive(Clone, Debug)]
pub struct DockState<Tab> {
    surfaces: Vec<Surface<Tab>>,
    focused_surface: Option<SurfaceIndex>,
    /// Texts shown by the dock area.
    pub translations: Translations,
}

impl<Tab> DockState<Tab> {
    /// The surfaces, by index.
    pub closed spec fn surface_seq(&self) -> Seq<Surface<Tab>> {
        self.surfaces@
    }

    /// The surface in focus, if any.
    pub closed spec fn focused(&self) -> Option<SurfaceIndex> {
        self.focused_surface
    }

    /// The texts shown by the dock area.
    pub closed spec fn texts(&self) -> Translations {
        self.translations
    }

    /// There is a main surface at index 0, and every tree is well-formed.
    pub open spec fn wf(&self) -> bool {
        surfaces_wf(self.surface_seq())
    }

    /// As [`wf`](Self::wf), except that the main slot may also be unused (it is rebuilt
    /// where a tree is needed there).
    pub open spec fn wf_but_main(&self) -> bool {
        surfaces_wf_but_main(self.surface_seq())
    }

    /// All tabs of the dock.
    pub open spec fn tabs(&self) -> Multiset<Tab> {
        all_tabs(self.surface_seq())
    }

    /// The tree of surface `i`.
    pub open spec fn tree_at(&self, i: int) -> Tree<Tab> {
        surface_tree(self.surface_seq()[i])->0
    }

    /// Surface `i` exists and holds a tree.
    pub open spec fn has_tree(&self, i: int) -> bool {
        0 <= i < self.surface_seq().len() && surface_tree(self.surface_seq()[i]) is Some
    }

    /// A dock whose main surface has a single leaf holding `tabs`.
    pub fn new(tabs: Vec<Tab>) -> (r: Self)
        ensures
            r.wf(),
            r.surface_seq().len() == 1,
            r.surface_seq()[0] is Main,
            r.tree_at(0).node_seq().len() == 1,
            r.tree_at(0).node_seq()[0] is Leaf,
            node_tabs(r.tree_at(0).node_seq()[0]) == tabs@,
            r.tree_at(0).focus() is None,
            crate::tree::single_leaf(r.tree_at(0), tabs@),
            r.focused() is None,
            r.tabs() =~= tabs@.to_multiset(),
            r.texts().is_english(),
    {
        let ghost tv = tabs@;
        let mut surfaces = Vec::new();
        surfaces.push(Surface::Main(Tree::new(tabs)));
        let r = DockState { surfaces, focused_surface: None, translations: Translations::english() };
        proof {
            assert(r.surfaces@.drop_last() =~= Seq::<Surface<Tab>>::empty());
            assert(all_tabs(Seq::<Surface<Tab>>::empty()) =~= Multiset::empty());
        }
        r
    }

    /// A dock made of `surfaces`, with `focused_surface` in focus and showing
    /// `translations`, if the surfaces are well-formed.
    pub fn from_parts(surfaces: Vec<Surface<Tab>>, focused_surface: Option<SurfaceIndex>, translations: Translations) -> (r: Option<Self>)
        ensures
            r is Some <==> surfaces_wf(surfaces@),
            r matches Some(d) ==> d.surface_seq() == surfaces@ && d.focused() == focused_surface && d.texts() == translations,
    {
        if surfaces.len() == 0 {
            return None;
        }
        match &surfaces[0] {
            Surface::Main(_) => {},
            _ => {
                return None;
            },
        }
        let mut i: usize = 0;
        while i < surfaces.len()
            invariant
                i <= surfaces@.len(),
                forall|j: int| 0 <= j < i ==> surface_wf(#[trigger] surfaces@[j]),
            decreases surfaces@.len() - i,
        {
            let ok = match &surfaces[i] {
                Surface::Empty => true,
                Surface::Main(t) => t.is_well_formed(),
                Surface::Window(t, _) => t.is_well_formed(),
            };
            if !ok {
                proof {
                    assert(!surface_wf(surfaces@[i as int]));
                }
                return None;
            }
            i += 1;
        }
        Some(DockState { surfaces, focused_surface, translations })
    }

    /// Returns `true` if the dock satisfies [`wf`](Self::wf): changes made through the
    /// mutable accessors may break it.
    pub fn is_well_formed(&self) -> (r: bool)
        ensures
            r == self.wf(),
    {
        if self.surfaces.len() == 0 {
            return false;
        }
        match &self.surfaces[0] {
            Surface::Main(_) => {},
            _ => {
                return false;
            },
        }
        let mut i: usize = 0;
        while i < self.surfaces.len()
            invariant
                i <= self.surfaces@.len(),
                forall|j: int| 0 <= j < i ==> surface_wf(#[trigger] self.surfaces@[j]),
            decreases self.surfaces@.len() - i,
        {
            let ok = match &self.surfaces[i] {
                Surface::Empty => true,
                Surface::Main(t) => t.is_well_formed(),
                Surface::Window(t, _) => t.is_well_formed(),
            };
            if !ok {
                proof {
                    assert(!surface_wf(self.surfaces@[i as int]));
                }
                return false;
            }
            i += 1;
        }
        true
    }

    /// The surfaces, the surface in focus and the texts of this dock.
    pub fn into_parts(self) -> (r: (Vec<Surface<Tab>>, Option<SurfaceIndex>, Translations))
        ensures
            r.0@ == self.surface_seq(),
            r.1 == self.focused(),
            r.2 == self.texts(),
    {
        (self.surfaces, self.focused_surface, self.translations)
    }

    /// Sets the texts shown by the dock area.
    pub fn with_translations(self, translations: Translations) -> (r: Self)
        ensures
            r.surface_seq() == self.surface_seq(),
            r.focused() == self.focused(),
            r.texts() == translations,
    {
        let mut s = self;
        s.translations = translations;
        s
    }

    /// The tree of the main surface.
    pub fn main_surface(&self) -> (r: &Tree<Tab>)
        requires
            self.wf(),
        ensures
            *r == self.tree_at(0),
    {
        self.surfaces[0].node_tree().unwrap()
    }

    /// The tree of the main surface, mutably.
    pub fn main_surface_mut(&mut self) -> (r: &mut Tree<Tab>)
        requires
            old(self).wf(),
        ensures
            *r == old(self).tree_at(0),
            final(self).surface_seq() == old(self).surface_seq().update(0, Surface::Main(*final(r))),
            final(self).focused() == old(self).focused(),
            final(self).texts() == old(self).texts(),
    {
        self.surfaces[0].node_tree_mut().unwrap()
    }

    /// The tree of the surface at `index`.
    pub fn index(&self, index: SurfaceIndex) -> (r: &Tree<Tab>)
        requires
            self.has_tree(index.0 as int),
        ensures
            *r == self.tree_at(index.0 as int),
    {
        self.surfaces[index.0].node_tree().unwrap()
    }

    /// The tree of the surface at `index`, mutably.
    pub fn index_mut(&mut self, index: SurfaceIndex) -> (r: &mut Tree<Tab>)
        requires
            old(self).has_tree(index.0 as int),
        ensures
            *r == old(self).tree_at(index.0 as int),
            old(self).surface_seq()[index.0 as int] is Main ==> final(self).surface_seq() == old(self).surface_seq().update(index.0 as int, Surface::Main(*final(r))),
            old(self).surface_seq()[index.0 as int] is Window ==> final(self).surface_seq() == old(self).surface_seq().update(
                index.0 as int,
                Surface::Window(*final(r), old(self).surface_seq()[index.0 as int]->Window_1),
            ),
            final(self).focused() == old(self).focused(),
            final(self).texts() == old(self).texts(),
    {
        self.surfaces[index.0].node_tree_mut().unwrap()
    }

    /// The window state of the surface at `surface`, if it is a window.
    pub fn get_window_state_mut(&mut self, surface: SurfaceIndex) -> (r: Option<&mut WindowState>)
        ensures
            (surface.0 < old(self).surface_seq().len() && old(self).surface_seq()[surface.0 as int] is Window) ==> (r matches Some(ws)
                && *ws == old(self).surface_seq()[surface.0 as int]->Window_1
                && final(self).surface_seq() == old(self).surface_seq().update(
                    surface.0 as int,
                    Surface::Window(old(self).surface_seq()[surface.0 as int]->Window_0, *final(ws)),
                )
                && final(self).focused() == old(self).focused()
                && final(self).texts() == old(self).texts()),
            !(surface.0 < old(self).surface_seq().len() && old(self).surface_seq()[surface.0 as int] is Window) ==> r is None && *final(self) == *old(self),
    {
        if surface.0 >= self.surfaces.len() || !matches!(self.surfaces[surface.0], Surface::Window(..)) {
            return None;
        }
        match &mut self.surfaces[surface.0] {
            Surface::Window(_, state) => Some(state),
            _ => None,
        }
    }

    /// The window state of the surface at `surface`, if it is a window.
    pub fn get_window_state(&mut self, surface: SurfaceIndex) -> (r: Option<&WindowState>)
        ensures
            *final(self) == *old(self),
            (surface.0 < old(self).surface_seq().len() && old(self).surface_seq()[surface.0 as int] is Window) ==> r == Some(&old(self).surface_seq()[surface.0 as int]->Window_1),
            !(surface.0 < old(self).surface_seq().len() && old(self).surface_seq()[surface.0 as int] is Window) ==> r is None,
    {
        if surface.0 >= self.surfaces.len() {
            return None;
        }
        match &self.surfaces[surface.0] {
            Surface::Window(_, state) => Some(state),
            _ => None,
        }
    }

    /// The surface at `surface`, mutably, if it exists.
    pub fn get_surface_mut(&mut self, surface: SurfaceIndex) -> (r: Option<&mut Surface<Tab>>)
        ensures
            surface.0 < old(self).surface_seq().len() ==> (r matches Some(s) && *s == old(self).surface_seq()[surface.0 as int]
                && final(self).surface_seq() == old(self).surface_seq().update(surface.0 as int, *final(s))
                && final(self).focused() == old(self).focused()
                && final(self).texts() == old(self).texts()),
            surface.0 >= old(self).surface_seq().len() ==> r is None && *final(self) == *old(self),
    {
        if surface.0 < self.surfaces.len() {
            Some(&mut self.surfaces[surface.0])
        } else {
            None
        }
    }

    /// The surface at `surface`, if it exists.
    pub fn get_surface(&self, surface: SurfaceIndex) -> (r: Option<&Surface<Tab>>)
        ensures
            surface.0 < self.surface_seq().len() ==> r == Some(&self.surface_seq()[surface.0 as int]),
            surface.0 >= self.surface_seq().len() ==> r is None,
    {
        if surface.0 < self.surfaces.len() {
            Some(&self.surfaces[surface.0])
        } else {
            None
        }
    }

    /// Returns `true` if the surface exists and is not an unused slot.
    pub fn is_surface_valid(&self, surface_index: SurfaceIndex) -> (r: bool)
        ensures
            r == (surface_index.0 < self.surface_seq().len() && !(self.surface_seq()[surface_index.0 as int] is Empty)),
    {
        surface_index.0 < self.surfaces.len() && !self.surfaces[surface_index.0].is_empty()
    }

    /// The indices of all surfaces in use, in increasing order.
    pub fn valid_surface_indices(&self) -> (r: Vec<SurfaceIndex>)
        ensures
            r@ == valid_indices(self.surface_seq(), self.surface_seq().len() as int),
            forall|k: int| 0 <= k < r@.len() ==> (#[trigger] r@[k]).0 < self.surface_seq().len()
                && !(self.surface_seq()[r@[k].0 as int] is Empty),
            forall|a: int, b: int| 0 <= a < b < r@.len() ==> (#[trigger] r@[a]).0 < (#[trigger] r@[b]).0,
            forall|j: int| 0 <= j < self.surface_seq().len() && !(#[trigger] self.surface_seq()[j] is Empty)
                ==> r@.contains(SurfaceIndex(j as usize)),
    {
        let n = self.surfaces.len();
        proof {
            lemma_valid_indices(self.surface_seq(), self.surface_seq().len() as int);
        }
        let mut r = Vec::new();
        let mut i: usize = 0;
        while i < self.surfaces.len()
            invariant
                i <= self.surfaces@.len(),
                r@ == valid_indices(self.surfaces@, i as int),
            decreases self.surfaces@.len() - i,
        {
            if self.is_surface_valid(SurfaceIndex(i)) {
                r.push(SurfaceIndex(i));
            }
            i += 1;
        }
        r
    }

    /// The surfaces, mutably, for walking over them.
    pub(crate) fn surfaces_slice_mut(&mut self) -> (r: &mut [Surface<Tab>])
        ensures
            r@ == old(self).surface_seq(),
            final(self).surface_seq() == final(r)@,
            final(self).focused() == old(self).focused(),
            final(self).texts() == old(self).texts(),
    {
        self.surfaces.as_mut_slice()
    }

    /// Number of surfaces, unused slots included.
    pub fn surfaces_count(&self) -> (r: usize)
        ensures
            r == self.surface_seq().len(),
    {
        self.surfaces.len()
    }

    /// The surface in focus, if any.
    pub fn focused_surface(&self) -> (r: Option<SurfaceIndex>)
        ensures
            r == self.focused(),
    {
        self.focused_surface
    }
}


/// Surface `s` holding tree `u` in place of its own.
pub open spec fn with_tree<Tab>(s: Surface<Tab>, u: Tree<Tab>) -> Surface<Tab> {
    match s {
        Surface::Main(_) => Surface::Main(u),
        Surface::Window(_, w) => Surface::Window(u, w),
        Surface::Empty => Surface::Empty,
    }
}

/// `new`, in focus `new_focus`, is `old` (in focus `old_focus`) where the tree of surface
/// `i` became `u`, except that a window left without nodes is removed, which moves the
/// focus to the main surface.
pub open spec fn tree_replaced_then_cleaned<Tab>(
    old: Seq<Surface<Tab>>,
    old_focus: Option<SurfaceIndex>,
    new: Seq<Surface<Tab>>,
    new_focus: Option<SurfaceIndex>,
    i: int,
    u: Tree<Tab>,
) -> bool {
    if i != 0 && u.node_seq().len() == 0 {
        &&& i == old.len() - 1 ==> new == old.drop_last()
        &&& i < old.len() - 1 ==> new == old.update(i, Surface::Empty)
        &&& new_focus == Some(SurfaceIndex(0))
    } else {
        &&& new == old.update(i, with_tree(old[i], u))
        &&& new_focus == old_focus
    }
}

/// What replacing the tree of surface `i` by `u` and cleaning up does: no other surface
/// changes; a window left without nodes is no longer in use (its slot freed, or the last
/// slot dropped) and the main surface gets the focus; otherwise surface `i` keeps its
/// kind and window state, holds `u`, and the focus stays.
pub proof fn lemma_tree_replaced_then_cleaned<Tab>(
    old: Seq<Surface<Tab>>,
    old_focus: Option<SurfaceIndex>,
    new: Seq<Surface<Tab>>,
    new_focus: Option<SurfaceIndex>,
    i: int,
    u: Tree<Tab>,
)
    requires
        tree_replaced_then_cleaned(old, old_focus, new, new_focus, i, u),
        0 <= i < old.len(),
        surface_tree(old[i]) is Some,
    ensures
        forall|j: int| 0 <= j < new.len() && j != i ==> #[trigger] new[j] == old[j],
        old.len() - 1 <= new.len() <= old.len(),
        i != 0 && u.node_seq().len() == 0 ==> {
            &&& i >= new.len() || new[i] is Empty
            &&& new_focus == Some(SurfaceIndex(0))
            &&& new.len() == old.len() - 1 ==> i == old.len() - 1
            &&& i < old.len() - 1 ==> new.len() == old.len()
        },
        !(i != 0 && u.node_seq().len() == 0) ==> {
            &&& new.len() == old.len()
            &&& same_but_tree(old[i], new[i])
            &&& surface_tree(new[i]) == Some(u)
            &&& new_focus == old_focus
        },
{
}

/// The surface that receives a tab pushed to the focused leaf: the focused surface if
/// it exists, else the main surface.
pub open spec fn push_target<Tab>(ss: Seq<Surface<Tab>>, focused: Option<SurfaceIndex>) -> int {
    match focused {
        Some(s) => if s.0 < ss.len() { s.0 as int } else { 0 },
        None => 0,
    }
}

/// `u` is tree `t` with `tab` pushed to its focused leaf, or to its first leaf when no
/// leaf is focused.
pub open spec fn pushed_to_focused_leaf<Tab>(t: Tree<Tab>, u: Tree<Tab>, tab: Tab) -> bool {
    match t.focus() {
        Some(f) => {
            &&& u.node_seq().len() == t.node_seq().len()
            &&& u.node_seq()[f.0 as int] is Leaf
            &&& node_tabs(u.node_seq()[f.0 as int]) == node_tabs(t.node_seq()[f.0 as int]).push(tab)
            &&& forall|k: int| 0 <= k < t.node_seq().len() && k != f.0 ==> u.node_seq()[k] == t.node_seq()[k]
            &&& u.focus() == Some(f)
        },
        None => crate::tree::pushed_to_first_leaf(t.node_seq(), u.node_seq(), u.focus(), tab),
    }
}

/// `new` is `old` where the surface at `i` received `tab` as `pushed` says: a surface
/// with a tree gets it in that tree, an unused slot becomes a main surface (at index 0)
/// or a fresh window with a single leaf holding it.
pub open spec fn pushed_into_surface<Tab>(old: Seq<Surface<Tab>>, new: Seq<Surface<Tab>>, i: int, tab: Tab, to_first: bool) -> bool {
    &&& new.len() == old.len()
    &&& 0 <= i < old.len()
    &&& forall|j: int| 0 <= j < old.len() && j != i ==> new[j] == old[j]
    &&& !(old[i] is Empty) ==> {
        &&& same_but_tree(old[i], new[i])
        &&& if to_first {
            crate::tree::pushed_to_first_leaf(surface_tree(old[i])->0.node_seq(), surface_tree(new[i])->0.node_seq(), surface_tree(new[i])->0.focus(), tab)
        } else {
            pushed_to_focused_leaf(surface_tree(old[i])->0, surface_tree(new[i])->0, tab)
        }
    }
    &&& old[i] is Empty ==> {
        &&& i == 0 ==> new[i] is Main
        &&& i != 0 ==> new[i] is Window && new[i]->Window_1.is_fresh()
        &&& surface_tree(new[i])->0.node_seq().len() == 1
        &&& surface_tree(new[i])->0.node_seq()[0] is Leaf
        &&& node_tabs(surface_tree(new[i])->0.node_seq()[0]) == seq![tab]
        &&& surface_tree(new[i])->0.focus() == Some(NodeIndex(0))
    }
}

/// `b` is `a` with another tree, in the same kind of surface.
pub open spec fn same_but_tree<Tab>(a: Surface<Tab>, b: Surface<Tab>) -> bool {
    match a {
        Surface::Empty => b is Empty,
        Surface::Main(_) => b is Main,
        Surface::Window(_, w) => b matches Surface::Window(_, w2) && w2 == w,
    }
}

/// `new` is `old` where only the tree of surface `i` may differ.
pub open spec fn only_tree_changed<Tab>(old: Seq<Surface<Tab>>, new: Seq<Surface<Tab>>, i: int) -> bool {
    &&& new.len() == old.len()
    &&& 0 <= i < old.len()
    &&& same_but_tree(old[i], new[i])
    &&& forall|j: int| 0 <= j < old.len() && j != i ==> new[j] == old[j]
}

/// A tree of one surface changed into a well-formed tree: the dock stays well-formed and
/// its tabs change by as much as that tree's.
pub proof fn lemma_tree_changed<Tab>(old: Seq<Surface<Tab>>, new: Seq<Surface<Tab>>, i: int)
    requires
        only_tree_changed(old, new, i),
        surface_wf(new[i]),
    ensures
        all_tabs(new).add(surface_tabs(old[i])) =~= all_tabs(old).add(surface_tabs(new[i])),
        forall|j: int| 0 <= j < old.len() && j != i ==> new[j] == old[j],
{
    assert(new =~= old.update(i, new[i]));
    lemma_all_tabs_update(old, i, new[i]);
}

impl<Tab> DockState<Tab> {
    /// Borrows the node at `path`.
    ///
    /// # Errors
    /// `InvalidSurface`, `EmptySurface` or `InvalidNode`, for the first step of the path that fails.
    pub fn node(&self, path: NodePath) -> (r: Result<&Node<Tab>, Error>)
        ensures
            node_error(self.surface_seq(), path) matches Some(e) ==> r == Err::<&Node<Tab>, Error>(e),
            node_error(self.surface_seq(), path) is None ==> r == Ok::<&Node<Tab>, Error>(&node_at(self.surface_seq(), path)),
    {
        if path.surface.0 >= self.surfaces.len() {
            return Err(Error::InvalidSurface);
        }
        match self.surfaces[path.surface.0].node_tree() {
            None => Err(Error::EmptySurface),
            Some(tree) => match tree.get(path.node) {
                None => Err(Error::InvalidNode),
                Some(n) => Ok(n),
            },
        }
    }

    /// Borrows the node at `path` mutably.
    ///
    /// # Errors
    /// As [`node`](Self::node).
    pub fn node_mut(&mut self, path: NodePath) -> (r: Result<&mut Node<Tab>, Error>)
        ensures
            node_error(old(self).surface_seq(), path) matches Some(e) ==> r == Err::<&mut Node<Tab>, Error>(e) && *final(self) == *old(self),
            node_error(old(self).surface_seq(), path) is None ==> (r matches Ok(n) && *n == node_at(old(self).surface_seq(), path)
                && only_tree_changed(old(self).surface_seq(), final(self).surface_seq(), path.surface.0 as int)
                && final(self).tree_at(path.surface.0 as int).node_seq() == old(self).tree_at(path.surface.0 as int).node_seq().update(path.node.0 as int, *final(n))
                && final(self).tree_at(path.surface.0 as int).focus() == old(self).tree_at(path.surface.0 as int).focus()
                && final(self).focused() == old(self).focused()
                && final(self).texts() == old(self).texts()),
    {
        if path.surface.0 >= self.surfaces.len() {
            return Err(Error::InvalidSurface);
        }
        if self.surfaces[path.surface.0].is_empty() {
            return Err(Error::EmptySurface);
        }
        if path.node.0 >= self.surfaces[path.surface.0].node_tree().unwrap().len() {
            return Err(Error::InvalidNode);
        }
        let tree = self.surfaces[path.surface.0].node_tree_mut().unwrap();
        Ok(tree.get_mut(path.node).unwrap())
    }

    /// Borrows the leaf at `path`.
    ///
    /// # Errors
    /// As [`node`](Self::node), or `NonLeafNode` if the node is not a leaf.
    pub fn leaf(&self, path: NodePath) -> (r: Result<&LeafNode<Tab>, Error>)
        ensures
            leaf_error(self.surface_seq(), path) matches Some(e) ==> r == Err::<&LeafNode<Tab>, Error>(e),
            leaf_error(self.surface_seq(), path) is None ==> r == Ok::<&LeafNode<Tab>, Error>(&node_at(self.surface_seq(), path)->Leaf_0),
    {
        match self.node(path)?.get_leaf() {
            Some(leaf) => Ok(leaf),
            None => Err(Error::NonLeafNode),
        }
    }

    /// Borrows the leaf at `path` mutably.
    ///
    /// # Errors
    /// As [`leaf`](Self::leaf).
    pub fn leaf_mut(&mut self, path: NodePath) -> (r: Result<&mut LeafNode<Tab>, Error>)
        ensures
            leaf_error(old(self).surface_seq(), path) matches Some(e) ==> r == Err::<&mut LeafNode<Tab>, Error>(e) && *final(self) == *old(self),
            leaf_error(old(self).surface_seq(), path) is None ==> (r matches Ok(l) && *l == node_at(old(self).surface_seq(), path)->Leaf_0
                && only_tree_changed(old(self).surface_seq(), final(self).surface_seq(), path.surface.0 as int)
                && final(self).tree_at(path.surface.0 as int).node_seq() == old(self).tree_at(path.surface.0 as int).node_seq().update(path.node.0 as int, Node::Leaf(*final(l)))
                && final(self).tree_at(path.surface.0 as int).focus() == old(self).tree_at(path.surface.0 as int).focus()
                && final(self).focused() == old(self).focused()
                && final(self).texts() == old(self).texts()),
    {
        match self.leaf(path) {
            Err(e) => {
                return Err(e);
            },
            Ok(_) => {},
        }
        let n = self.node_mut(path).unwrap();
        match n {
            Node::Leaf(leaf) => Ok(leaf),
            _ => {
                proof {
                    assert(false);
                }
                Err(Error::NonLeafNode)
            },
        }
    }

    /// The node at `path`, which must lead to one.
    pub fn index_node(&self, path: NodePath) -> (r: &Node<Tab>)
        requires
            node_error(self.surface_seq(), path) is None,
        ensures
            *r == node_at(self.surface_seq(), path),
    {
        self.node(path).unwrap()
    }

    /// The node at `path`, which must lead to one, mutably.
    pub fn index_node_mut(&mut self, path: NodePath) -> (r: &mut Node<Tab>)
        requires
            node_error(old(self).surface_seq(), path) is None,
        ensures
            *r == node_at(old(self).surface_seq(), path),
            only_tree_changed(old(self).surface_seq(), final(self).surface_seq(), path.surface.0 as int),
            final(self).tree_at(path.surface.0 as int).node_seq() == old(self).tree_at(path.surface.0 as int).node_seq().update(path.node.0 as int, *final(r)),
            final(self).tree_at(path.surface.0 as int).focus() == old(self).tree_at(path.surface.0 as int).focus(),
            final(self).focused() == old(self).focused(),
            final(self).texts() == old(self).texts(),
    {
        let tree = self.surfaces[path.surface.0].node_tree_mut().unwrap();
        tree.get_mut(path.node).unwrap()
    }
}


/// Changing one tree into a well-formed one keeps the surfaces well-formed.
pub proof fn lemma_surfaces_wf_changed<Tab>(old: Seq<Surface<Tab>>, new: Seq<Surface<Tab>>, i: int)
    requires
        surfaces_wf_but_main(old),
        only_tree_changed(old, new, i),
        surface_wf(new[i]),
    ensures
        surfaces_wf_but_main(new),
        surfaces_wf(old) ==> surfaces_wf(new),
        all_tabs(new).add(surface_tabs(old[i])) =~= all_tabs(old).add(surface_tabs(new[i])),
{
    lemma_tree_changed(old, new, i);
    assert forall|j: int| 0 <= j < new.len() implies surface_wf(#[trigger] new[j]) by {
        if j != i {
            assert(surface_wf(old[j]));
        }
    }
}

/// A leaf replaced by another leaf keeps a tree well-formed.
pub proof fn lemma_leaf_replaced<Tab>(t: Tree<Tab>, u: Tree<Tab>, node: int, leaf: LeafNode<Tab>)
    requires
        t.wf(),
        0 <= node < t.node_seq().len(),
        t.node_seq()[node] is Leaf,
        u.node_seq() == t.node_seq().update(node, Node::Leaf(leaf)),
        u.focus() == t.focus(),
    ensures
        u.wf(),
        u.tabs().add(node_tabs(t.node_seq()[node]).to_multiset()) =~= t.tabs().add(leaf.tabs@.to_multiset()),
{
    crate::tree::lemma_replace_leaf(t.node_seq(), node, Node::Leaf(leaf));
}

impl<Tab> DockState<Tab> {
    /// Makes the tab at `path` the active tab of its leaf.
    ///
    /// # Errors
    /// As [`leaf`](Self::leaf), or `InvalidTab` if the leaf has no tab at `path.tab`.
    pub fn set_active_tab(&mut self, path: TabPath) -> (r: Result<(), Error>)
        requires
            old(self).wf(),
        ensures
            final(self).wf(),
            final(self).tabs() =~= old(self).tabs(),
            final(self).focused() == old(self).focused(),
            final(self).texts() == old(self).texts(),
            tab_error(old(self).surface_seq(), path) matches Some(e) ==> r == Err::<(), Error>(e)
                && final(self).surface_seq() == old(self).surface_seq(),
            tab_error(old(self).surface_seq(), path) is None ==> {
                let old_leaf = node_at(old(self).surface_seq(), path.node_path())->Leaf_0;
                &&& r is Ok
                &&& only_tree_changed(old(self).surface_seq(), final(self).surface_seq(), path.surface.0 as int)
                &&& final(self).tree_at(path.surface.0 as int).node_seq() == old(self).tree_at(path.surface.0 as int).node_seq().update(
                    path.node.0 as int,
                    Node::Leaf(LeafNode { tabs: old_leaf.tabs, active: path.tab }),
                )
                &&& final(self).tree_at(path.surface.0 as int).focus() == old(self).tree_at(path.surface.0 as int).focus()
            },
    {
        let ghost old_seq = self.surfaces@;
        let count = self.leaf(path.node_path())?.tabs.len();
        if path.tab.0 >= count {
            return Err(Error::InvalidTab);
        }
        let leaf = self.leaf_mut(path.node_path()).unwrap();
        let _ = leaf.set_active_tab(path.tab);
        proof {
            let s = path.surface.0 as int;
            assert(surface_wf(old_seq[s]));
            let t = surface_tree(old_seq[s])->0;
            let u = surface_tree(self.surfaces@[s])->0;
            lemma_leaf_replaced(t, u, path.node.0 as int, u.node_seq()[path.node.0 as int]->Leaf_0);
            lemma_surfaces_wf_changed(old_seq, self.surfaces@, s);
            let lt = node_tabs(t.node_seq()[path.node.0 as int]).to_multiset();
            assert forall|v: Tab| #[trigger] all_tabs(self.surfaces@).count(v) == all_tabs(old_seq).count(v) by {
                assert(u.tabs().add(lt).count(v) == t.tabs().add(lt).count(v));
                assert(all_tabs(self.surfaces@).add(surface_tabs(old_seq[s])).count(v) == all_tabs(old_seq).add(surface_tabs(self.surfaces@[s])).count(v));
            }
        }
        Ok(())
    }

    /// Focuses the node at `path` and its surface if it is a leaf; otherwise clears the focus.
    pub fn set_focused_node_and_surface(&mut self, path: NodePath)
        requires
            old(self).wf(),
        ensures
            final(self).wf(),
            final(self).tabs() =~= old(self).tabs(),
            leaf_error(old(self).surface_seq(), path) is None ==> {
                &&& final(self).focused() == Some(path.surface)
                &&& only_tree_changed(old(self).surface_seq(), final(self).surface_seq(), path.surface.0 as int)
                &&& final(self).tree_at(path.surface.0 as int).node_seq() == old(self).tree_at(path.surface.0 as int).node_seq()
                &&& final(self).tree_at(path.surface.0 as int).focus() == Some(path.node)
            },
            leaf_error(old(self).surface_seq(), path) is Some ==> final(self).focused() is None
                && final(self).surface_seq() == old(self).surface_seq(),
    {
        let ghost old_seq = self.surfaces@;
        if self.leaf(path).is_ok() {
            self.focused_surface = Some(path.surface);
            let tree = self.index_mut(path.surface);
            tree.set_focused_node(path.node);
            proof {
                let s = path.surface.0 as int;
                assert(surface_wf(old_seq[s]));
                lemma_surfaces_wf_changed(old_seq, self.surfaces@, s);
                let t = surface_tree(old_seq[s])->0;
                let u = surface_tree(self.surfaces@[s])->0;
                assert(u.tabs() == t.tabs());
                assert forall|v: Tab| #[trigger] all_tabs(self.surfaces@).count(v) == all_tabs(old_seq).count(v) by {
                    assert(all_tabs(self.surfaces@).add(t.tabs()).count(v) == all_tabs(old_seq).add(u.tabs()).count(v));
                }
            }
        } else {
            self.focused_surface = None;
        }
    }

    /// The focused leaf, if there is one.
    pub fn focused_leaf(&self) -> (r: Option<NodePath>)
        ensures
            r == match self.focused() {
                Some(s) => if self.has_tree(s.0 as int) {
                    match self.tree_at(s.0 as int).focus() {
                        Some(n) => Some(NodePath { surface: s, node: n }),
                        None => None,
                    }
                } else {
                    None
                },
                None => None,
            },
    {
        let surface = self.focused_surface?;
        if surface.0 >= self.surfaces.len() {
            return None;
        }
        match self.surfaces[surface.0].node_tree() {
            None => None,
            Some(tree) => match tree.focused_leaf() {
                Some(node) => Some(NodePath { surface, node }),
                None => None,
            },
        }
    }

    /// The path of the active tab of the focused leaf, or `None` if no leaf is in focus
    /// or its active index names no tab.
    pub fn find_active_focused(&self) -> (r: Option<TabPath>)
        ensures
            r == match self.focused() {
                Some(s) => if self.has_tree(s.0 as int) {
                    match self.tree_at(s.0 as int).focus() {
                        Some(n) => if n.0 < self.tree_at(s.0 as int).node_seq().len() {
                            let node = self.tree_at(s.0 as int).node_seq()[n.0 as int];
                            if node is Leaf && node->Leaf_0.active.0 < node_tabs(node).len() {
                                Some(TabPath { surface: s, node: n, tab: node->Leaf_0.active })
                            } else {
                                None
                            }
                        } else {
                            None
                        },
                        None => None,
                    }
                } else {
                    None
                },
                None => None,
            },
    {
        let path = self.focused_leaf()?;
        let tree = self.index(path.surface);
        match tree.get(path.node) {
            Some(Node::Leaf(leaf)) => if leaf.active.0 < leaf.tabs.len() {
                Some(TabPath::new(path.surface, path.node, leaf.active))
            } else {
                None
            },
            _ => None,
        }
    }

    /// Removes the surface at `surface_index` and returns it, or `None` if there is none.
    ///
    /// The last surface is dropped from the list; any other becomes an unused slot, so
    /// that the indices of the others stay the same. The main surface gets the focus.
    pub fn remove_surface(&mut self, surface_index: SurfaceIndex) -> (r: Option<Surface<Tab>>)
        requires
            surface_index.0 != 0,
        ensures
            surface_index.0 < old(self).surface_seq().len() ==> {
                &&& r == Some(old(self).surface_seq()[surface_index.0 as int])
                &&& final(self).focused() == Some(SurfaceIndex(0))
                &&& surface_index.0 == old(self).surface_seq().len() - 1 ==> final(self).surface_seq() == old(self).surface_seq().drop_last()
                &&& surface_index.0 < old(self).surface_seq().len() - 1 ==> final(self).surface_seq() == old(self).surface_seq().update(surface_index.0 as int, Surface::Empty)
                &&& final(self).tabs().add(surface_tabs(old(self).surface_seq()[surface_index.0 as int])) =~= old(self).tabs()
            },
            surface_index.0 >= old(self).surface_seq().len() ==> r is None && final(self).surface_seq() == old(self).surface_seq()
                && final(self).focused() == old(self).focused(),
            old(self).wf() ==> final(self).wf(),
            final(self).texts() == old(self).texts(),
    {
        let ghost old_seq = self.surfaces@;
        if surface_index.0 < self.surfaces.len() {
            self.focused_surface = Some(SurfaceIndex::main());
            if surface_index.0 == self.surfaces.len() - 1 {
                let r = self.surfaces.pop();
                proof {
                    assert(old_seq.drop_last() == old_seq.subrange(0, old_seq.len() - 1));
                    assert(all_tabs(old_seq) == all_tabs(old_seq.drop_last()).add(surface_tabs(old_seq.last())));
                    if surfaces_wf(old_seq) {
                        assert forall|j: int| 0 <= j < self.surfaces@.len() implies surface_wf(#[trigger] self.surfaces@[j]) by {
                            assert(surface_wf(old_seq[j]));
                        }
                    }
                }
                r
            } else {
                let r = swap_surface(&mut self.surfaces, surface_index.0, Surface::Empty);
                proof {
                    lemma_all_tabs_update(old_seq, surface_index.0 as int, Surface::Empty);
                    assert(surface_tabs(Surface::<Tab>::Empty) =~= Multiset::empty());
                    if surfaces_wf(old_seq) {
                        assert forall|j: int| 0 <= j < self.surfaces@.len() implies surface_wf(#[trigger] self.surfaces@[j]) by {
                            assert(surface_wf(old_seq[j]));
                        }
                    }
                }
                Some(r)
            }
        } else {
            None
        }
    }

    /// The first unused slot after the main surface, or the number of surfaces.
    fn find_empty_surface_index(&self) -> (r: SurfaceIndex)
        ensures
            r.0 == first_empty_from(self.surface_seq(), 1),
    {
        let mut i: usize = 1;
        while i < self.surfaces.len()
            invariant
                1 <= i,
                i <= self.surfaces@.len() || self.surfaces@.len() == 0,
                first_empty_from(self.surfaces@, 1) == first_empty_from(self.surfaces@, i as int),
            decreases self.surfaces@.len() - i,
        {
            if self.surfaces[i].is_empty() {
                return SurfaceIndex(i);
            }
            i += 1;
        }
        SurfaceIndex(self.surfaces.len())
    }

    /// Adds a window whose tree has a single leaf holding `tabs`.
    ///
    /// The window takes the first unused slot, or a new one at the end. Returns its index,
    /// which stays the same for as long as the window lives.
    pub fn add_window(&mut self, tabs: Vec<Tab>) -> (r: SurfaceIndex)
        requires
            old(self).wf(),
        ensures
            final(self).wf(),
            1 <= r.0 <= old(self).surface_seq().len(),
            r.0 < old(self).surface_seq().len() ==> old(self).surface_seq()[r.0 as int] is Empty,
            forall|j: int| 1 <= j < r.0 ==> !(#[trigger] old(self).surface_seq()[j] is Empty),
            r.0 == first_empty_from(old(self).surface_seq(), 1),
            r.0 < old(self).surface_seq().len() ==> final(self).surface_seq().len() == old(self).surface_seq().len(),
            r.0 >= old(self).surface_seq().len() ==> final(self).surface_seq().len() == old(self).surface_seq().len() + 1,
            final(self).surface_seq()[r.0 as int] is Window,
            final(self).surface_seq()[r.0 as int]->Window_1.is_fresh(),
            final(self).tree_at(r.0 as int).node_seq().len() == 1,
            final(self).tree_at(r.0 as int).node_seq()[0] is Leaf,
            node_tabs(final(self).tree_at(r.0 as int).node_seq()[0]) == tabs@,
            crate::tree::single_leaf(final(self).tree_at(r.0 as int), tabs@),
            forall|j: int| 0 <= j < old(self).surface_seq().len() && j != r.0 ==> final(self).surface_seq()[j] == old(self).surface_seq()[j],
            final(self).tabs() =~= old(self).tabs().add(tabs@.to_multiset()),
            final(self).focused() == old(self).focused(),
            final(self).texts() == old(self).texts(),
    {
        let ghost old_seq = self.surfaces@;
        let surface = Surface::Window(Tree::new(tabs), WindowState::new());
        let ghost sv = surface;
        let index = self.find_empty_surface_index();
        proof {
            lemma_first_empty(old_seq, 1);
        }
        if index.0 < self.surfaces.len() {
            let _ = swap_surface(&mut self.surfaces, index.0, surface);
            proof {
                lemma_all_tabs_update(old_seq, index.0 as int, sv);
                assert(surface_tabs(old_seq[index.0 as int]) =~= Multiset::empty());
            }
        } else {
            self.surfaces.push(surface);
            proof {
                assert(self.surfaces@.drop_last() =~= old_seq);
            }
        }
        proof {
            assert forall|j: int| 0 <= j < self.surfaces@.len() implies surface_wf(#[trigger] self.surfaces@[j]) by {
                if j < old_seq.len() {
                    assert(surface_wf(old_seq[j]));
                }
            }
        }
        index
    }

    /// Makes sure the surface at `index` holds a tree: an unused slot becomes a main
    /// surface (index 0) or a window, with a single leaf without tabs.
    pub fn ensure_tree(&mut self, index: SurfaceIndex)
        requires
            old(self).wf_but_main(),
            index.0 < old(self).surface_seq().len(),
        ensures
            final(self).wf_but_main(),
            old(self).wf() || index.0 == 0 ==> final(self).wf(),
            final(self).has_tree(index.0 as int),
            !(old(self).surface_seq()[index.0 as int] is Empty) ==> final(self).surface_seq() == old(self).surface_seq(),
            old(self).surface_seq()[index.0 as int] is Empty ==> {
                &&& final(self).surface_seq() == old(self).surface_seq().update(index.0 as int, final(self).surface_seq()[index.0 as int])
                &&& index.0 == 0 ==> final(self).surface_seq()[0] is Main
                &&& index.0 != 0 ==> final(self).surface_seq()[index.0 as int] is Window
                &&& final(self).tree_at(index.0 as int).node_seq().len() == 1
                &&& final(self).tree_at(index.0 as int).node_seq()[0] is Leaf
                &&& node_tabs(final(self).tree_at(index.0 as int).node_seq()[0]).len() == 0
                &&& final(self).tree_at(index.0 as int).focus() is None
                &&& crate::tree::single_leaf(final(self).tree_at(index.0 as int), Seq::empty())
                &&& index.0 != 0 ==> final(self).surface_seq()[index.0 as int]->Window_1.is_fresh()
            },
            final(self).tabs() =~= old(self).tabs(),
            final(self).focused() == old(self).focused(),
            final(self).texts() == old(self).texts(),
    {
        let ghost old_seq = self.surfaces@;
        if self.surfaces[index.0].is_empty() {
            let s = if index.0 == 0 {
                Surface::Main(Tree::new(Vec::new()))
            } else {
                Surface::Window(Tree::new(Vec::new()), WindowState::default())
            };
            let ghost sv = s;
            let _ = swap_surface(&mut self.surfaces, index.0, s);
            proof {
                lemma_empty_to_multiset(Seq::<Tab>::empty());
                lemma_all_tabs_update(old_seq, index.0 as int, sv);
                assert(surface_tabs(sv) =~= Multiset::empty());
                assert(surface_tabs(old_seq[index.0 as int]) =~= Multiset::empty());
                assert forall|v: Tab| #[trigger] all_tabs(self.surfaces@).count(v) == all_tabs(old_seq).count(v) by {
                    assert(all_tabs(self.surfaces@).add(surface_tabs(old_seq[index.0 as int])).count(v) == all_tabs(old_seq).add(surface_tabs(sv)).count(v));
                }
                assert forall|j: int| 0 <= j < self.surfaces@.len() implies surface_wf(#[trigger] self.surfaces@[j]) by {
                    assert(surface_wf(old_seq[j]));
                }
            }
        }
    }
}

proof fn lemma_first_empty_same<Tab>(a: Seq<Surface<Tab>>, b: Seq<Surface<Tab>>, i: int)
    requires
        a.len() == b.len(),
        forall|j: int| 0 <= j < a.len() ==> (a[j] is Empty) == (b[j] is Empty),
    ensures
        first_empty_from(a, i) == first_empty_from(b, i),
    decreases a.len() - i,
{
    if 0 <= i < a.len() && !(a[i] is Empty) {
        lemma_first_empty_same(a, b, i + 1);
    }
}

/// The first unused slot from `i` on is an unused slot, or the number of surfaces, and
/// every slot before it from `i` on is in use.
pub proof fn lemma_first_empty<Tab>(ss: Seq<Surface<Tab>>, i: int)
    requires
        0 <= i,
    ensures
        i <= first_empty_from(ss, i) <= ss.len() || (i > ss.len() && first_empty_from(ss, i) == ss.len()),
        first_empty_from(ss, i) < ss.len() ==> ss[first_empty_from(ss, i)] is Empty,
        forall|j: int| i <= j < first_empty_from(ss, i) ==> !(#[trigger] ss[j] is Empty),
    decreases ss.len() - i,
{
    if i < ss.len() && !(ss[i] is Empty) {
        lemma_first_empty(ss, i + 1);
    }
}


/// After a change of the tree of surface `i` by `index_mut`, the dock is unchanged elsewhere.
pub proof fn lemma_after_index_mut<Tab>(old: Seq<Surface<Tab>>, new: Seq<Surface<Tab>>, i: int, t: Tree<Tab>)
    requires
        surfaces_wf_but_main(old),
        0 <= i < old.len(),
        surface_tree(old[i]) is Some,
        old[i] is Main ==> new == old.update(i, Surface::Main(t)),
        old[i] is Window ==> new == old.update(i, Surface::Window(t, old[i]->Window_1)),
        t.wf(),
    ensures
        only_tree_changed(old, new, i),
        surface_tree(new[i]) == Some(t),
        surfaces_wf_but_main(new),
        surfaces_wf(old) ==> surfaces_wf(new),
        all_tabs(new).add(surface_tabs(old[i])) =~= all_tabs(old).add(t.tabs()),
{
    lemma_surfaces_wf_changed(old, new, i);
}

/// Tabs arithmetic: `a + x == b + y` and `y == x + d` give `a == b + d`.
pub proof fn lemma_tabs_shift<Tab>(a: Multiset<Tab>, b: Multiset<Tab>, x: Multiset<Tab>, y: Multiset<Tab>, d: Multiset<Tab>)
    requires
        a.add(x) =~= b.add(y),
        y =~= x.add(d),
    ensures
        a =~= b.add(d),
{
    assert forall|v: Tab| #[trigger] a.count(v) == b.add(d).count(v) by {
        assert(a.add(x).count(v) == b.add(y).count(v));
    }
}

/// A tab pushed to the focus goes to the focused surface when there is one, else to the
/// main surface: that surface's tabs gain it and every other surface stays as it was.
pub proof fn lemma_push_goes_to_focus<Tab>(old: Seq<Surface<Tab>>, new: Seq<Surface<Tab>>, focused: Option<SurfaceIndex>, tab: Tab)
    requires
        old.len() >= 1,
        pushed_into_surface(old, new, push_target(old, focused), tab, false),
        all_tabs(new) =~= all_tabs(old).insert(tab),
    ensures
        focused matches Some(s) ==> (s.0 < old.len() ==> {
            &&& new.len() == old.len()
            &&& forall|j: int| 0 <= j < old.len() && j != s.0 ==> #[trigger] new[j] == old[j]
            &&& surface_tabs(new[s.0 as int]) =~= surface_tabs(old[s.0 as int]).insert(tab)
            &&& surface_tree(old[s.0 as int]) is Some ==> (surface_tree(old[s.0 as int])->0.focus() matches Some(f) ==> (
                node_tabs(surface_tree(new[s.0 as int])->0.node_seq()[f.0 as int])
                    == node_tabs(surface_tree(old[s.0 as int])->0.node_seq()[f.0 as int]).push(tab)))
        }),
        focused is None ==> {
            &&& new.len() == old.len()
            &&& forall|j: int| 0 < j < old.len() ==> #[trigger] new[j] == old[j]
            &&& surface_tabs(new[0]) =~= surface_tabs(old[0]).insert(tab)
        },
{
    let i = push_target(old, focused);
    assert(new =~= old.update(i, new[i]));
    lemma_all_tabs_update(old, i, new[i]);
    assert forall|v: Tab| #[trigger] surface_tabs(new[i]).count(v) == surface_tabs(old[i]).insert(tab).count(v) by {
        assert(all_tabs(new).add(surface_tabs(old[i])).count(v) == all_tabs(old).add(surface_tabs(new[i])).count(v));
    }
}

impl<Tab> DockState<Tab> {
    /// Pushes `tab` to the focused leaf of the focused surface (the main surface when
    /// none is focused), making sure that surface holds a tree first.
    pub fn push_to_focused_leaf(&mut self, tab: Tab)
        requires
            old(self).wf_but_main(),
        ensures
            final(self).wf_but_main(),
            old(self).wf() || push_target(old(self).surface_seq(), old(self).focused()) == 0 ==> final(self).wf(),
            final(self).tabs() =~= old(self).tabs().insert(tab),
            final(self).focused() == old(self).focused(),
            final(self).texts() == old(self).texts(),
            old(self).focused() matches Some(s) ==> (s.0 < old(self).surface_seq().len() ==> {
                &&& forall|j: int| 0 <= j < old(self).surface_seq().len() && j != s.0 ==> #[trigger] final(self).surface_seq()[j] == old(self).surface_seq()[j]
                &&& surface_tabs(final(self).surface_seq()[s.0 as int]) =~= surface_tabs(old(self).surface_seq()[s.0 as int]).insert(tab)
                &&& old(self).has_tree(s.0 as int) ==> (old(self).tree_at(s.0 as int).focus() matches Some(f) ==> (
                    node_tabs(final(self).tree_at(s.0 as int).node_seq()[f.0 as int])
                        == node_tabs(old(self).tree_at(s.0 as int).node_seq()[f.0 as int]).push(tab)))
            }),
            old(self).focused() is None ==> {
                &&& forall|j: int| 0 < j < old(self).surface_seq().len() ==> #[trigger] final(self).surface_seq()[j] == old(self).surface_seq()[j]
                &&& surface_tabs(final(self).surface_seq()[0]) =~= surface_tabs(old(self).surface_seq()[0]).insert(tab)
            },
            pushed_into_surface(old(self).surface_seq(), final(self).surface_seq(), push_target(old(self).surface_seq(), old(self).focused()), tab, false),
    {
        let surface_index = match self.focused_surface {
            Some(s) => if s.0 < self.surfaces.len() {
                s
            } else {
                SurfaceIndex::main()
            },
            None => SurfaceIndex::main(),
        };
        let ghost old_seq = self.surfaces@;
        self.ensure_tree(surface_index);
        let ghost mid = self.surfaces@;
        let ghost mt = self.tree_at(surface_index.0 as int);
        let tree = self.index_mut(surface_index);
        tree.push_to_focused_leaf(tab);
        proof {
            let i = surface_index.0 as int;
            if old_seq[i] is Empty {
                assert(crate::tree::first_non_split_from(mt.node_seq(), 0) == 0);
                assert(node_tabs(self.tree_at(i).node_seq()[0]) == seq![tab]);
            } else {
                assert(pushed_to_focused_leaf(mt, self.tree_at(i), tab));
            }
            assert(surface_wf(mid[i]));
            lemma_after_index_mut(mid, self.surfaces@, i, surface_tree(self.surfaces@[i])->0);
            lemma_tabs_shift(all_tabs(self.surfaces@), all_tabs(mid), mt.tabs(), self.tree_at(i).tabs(), Multiset::empty().insert(tab));
            lemma_push_goes_to_focus(old_seq, self.surfaces@, self.focused_surface, tab);
        }
    }

    /// Pushes `tab` to the first leaf of the main surface, or makes its first empty
    /// position a leaf holding it.
    pub fn push_to_first_leaf(&mut self, tab: Tab)
        requires
            old(self).wf_but_main(),
        ensures
            final(self).wf(),
            final(self).tabs() =~= old(self).tabs().insert(tab),
            final(self).focused() == old(self).focused(),
            final(self).texts() == old(self).texts(),
            pushed_into_surface(old(self).surface_seq(), final(self).surface_seq(), 0, tab, true),
    {
        self.ensure_tree(SurfaceIndex::main());
        let ghost mid = self.surfaces@;
        let ghost mt = self.tree_at(0);
        let tree = self.index_mut(SurfaceIndex::main());
        tree.push_to_first_leaf(tab);
        proof {
            assert(surface_wf(mid[0]));
            lemma_after_index_mut(mid, self.surfaces@, 0, surface_tree(self.surfaces@[0])->0);
            lemma_tabs_shift(all_tabs(self.surfaces@), all_tabs(mid), mt.tabs(), self.tree_at(0).tabs(), Multiset::empty().insert(tab));
        }
    }

    /// Removes the tab at `path` and returns it, or `None` if there is no such tab.
    ///
    /// A leaf left without tabs is removed, and so is a window left without nodes.
    pub fn remove_tab(&mut self, path: TabPath) -> (r: Option<Tab>)
        requires
            old(self).wf(),
        ensures
            final(self).wf(),
            tab_error(old(self).surface_seq(), path) is None ==> r == Some(node_tabs(node_at(old(self).surface_seq(), path.node_path()))[path.tab.0 as int])
                && final(self).tabs().insert(r->0) =~= old(self).tabs(),
            tab_error(old(self).surface_seq(), path) is Some ==> r is None && final(self).tabs() =~= old(self).tabs(),
            tab_error(old(self).surface_seq(), path) is None ==> exists|u: Tree<Tab>|
                #[trigger] crate::tree::tab_removed(old(self).tree_at(path.surface.0 as int), u, path.node.0 as int, path.tab.0 as int)
                && tree_replaced_then_cleaned(old(self).surface_seq(), old(self).focused(), final(self).surface_seq(), final(self).focused(), path.surface.0 as int, u),
            tab_error(old(self).surface_seq(), path) is Some ==> if old(self).has_tree(path.surface.0 as int) {
                tree_replaced_then_cleaned(old(self).surface_seq(), old(self).focused(), final(self).surface_seq(), final(self).focused(), path.surface.0 as int, old(self).tree_at(path.surface.0 as int))
            } else {
                final(self).surface_seq() == old(self).surface_seq() && final(self).focused() == old(self).focused()
            },
            final(self).texts() == old(self).texts(),
    {
        if path.surface.0 >= self.surfaces.len() || self.surfaces[path.surface.0].is_empty() {
            return None;
        }
        let ghost old_seq = self.surfaces@;
        let ghost old_focus = self.focused_surface;
        let ghost ot = self.tree_at(path.surface.0 as int);
        let tree = self.index_mut(path.surface);
        let removed = tree.remove_tab((path.node, path.tab));
        let ghost mid = self.surfaces@;
        let ghost u = self.tree_at(path.surface.0 as int);
        proof {
            let i = path.surface.0 as int;
            assert(surface_wf(old_seq[i]));
            lemma_after_index_mut(old_seq, mid, i, surface_tree(mid[i])->0);
            if tab_error(old_seq, path) is None {
                assert(crate::tree::tab_exists(ot.node_seq(), path.node, path.tab));
                assert forall|v: Tab| #[trigger] all_tabs(mid).insert(removed->0).count(v) == all_tabs(old_seq).count(v) by {
                    assert(all_tabs(mid).add(ot.tabs()).count(v) == all_tabs(old_seq).add(self.tree_at(i).tabs()).count(v));
                }
                assert(all_tabs(mid).insert(removed->0) =~= all_tabs(old_seq));
            } else {
                assert(!crate::tree::tab_exists(ot.node_seq(), path.node, path.tab));
                assert forall|v: Tab| #[trigger] all_tabs(mid).count(v) == all_tabs(old_seq).count(v) by {
                    assert(all_tabs(mid).add(ot.tabs()).count(v) == all_tabs(old_seq).add(self.tree_at(i).tabs()).count(v));
                }
                assert(all_tabs(mid) =~= all_tabs(old_seq));
            }
        }
        if !path.surface.is_main() && self.index(path.surface).is_empty() {
            proof {
                let i = path.surface.0 as int;
                assert(crate::shape::shape(self.tree_at(i).node_seq(), 0) == crate::shape::Shape::<Tab>::Nil);
                assert(crate::shape::shape_tabs(crate::shape::Shape::<Tab>::Nil) =~= Multiset::empty());
                assert(surface_tabs(mid[i]) =~= Multiset::empty());
            }
            let _ = self.remove_surface(path.surface);
            proof {
                let i = path.surface.0 as int;
                assert forall|v: Tab| #[trigger] all_tabs(self.surfaces@).count(v) == all_tabs(mid).count(v) by {
                    assert(all_tabs(self.surfaces@).add(surface_tabs(mid[i])).count(v) == all_tabs(mid).count(v));
                }
                assert(all_tabs(self.surfaces@) =~= all_tabs(mid));
            }
        }
        proof {
            assert(all_tabs(self.surfaces@) =~= all_tabs(mid));
            let i = path.surface.0 as int;
            assert(mid == old_seq.update(i, with_tree(old_seq[i], u)));
            if i != 0 && u.node_seq().len() == 0 {
                if i == old_seq.len() - 1 {
                    assert(self.surfaces@ =~= old_seq.drop_last());
                } else {
                    assert(self.surfaces@ =~= old_seq.update(i, Surface::Empty));
                }
            }
            if tab_error(old_seq, path) is None {
                assert(crate::tree::tab_removed(ot, u, path.node.0 as int, path.tab.0 as int));
            } else {
                assert(u == ot);
                assert(old_seq.update(i, with_tree(old_seq[i], u)) =~= old_seq);
            }
            assert(tree_replaced_then_cleaned(old_seq, old_focus, self.surfaces@, self.focused_surface, i, u));
        }
        removed
    }

    /// Removes the leaf at `path`, with its tabs; a window left without nodes is removed too.
    pub fn remove_leaf(&mut self, path: NodePath)
        requires
            old(self).wf(),
            leaf_error(old(self).surface_seq(), path) is None,
        ensures
            final(self).wf(),
            final(self).tabs().add(node_tabs(node_at(old(self).surface_seq(), path)).to_multiset()) =~= old(self).tabs(),
            exists|u: Tree<Tab>| #[trigger] crate::tree::leaf_removed(old(self).tree_at(path.surface.0 as int), u, path.node.0 as int)
                && tree_replaced_then_cleaned(old(self).surface_seq(), old(self).focused(), final(self).surface_seq(), final(self).focused(), path.surface.0 as int, u),
            final(self).texts() == old(self).texts(),
    {
        let ghost old_focus = self.focused_surface;
        let ghost old_seq = self.surfaces@;
        let ghost ot = self.tree_at(path.surface.0 as int);
        proof {
            assert(surface_wf(old_seq[path.surface.0 as int]));
        }
        let tree = self.index_mut(path.surface);
        tree.remove_leaf(path.node);
        let ghost mid = self.surfaces@;
        let ghost u = self.tree_at(path.surface.0 as int);
        proof {
            let i = path.surface.0 as int;
            lemma_after_index_mut(old_seq, mid, i, surface_tree(mid[i])->0);
            let lt = node_tabs(node_at(old_seq, path)).to_multiset();
            assert forall|v: Tab| #[trigger] all_tabs(mid).add(lt).count(v) == all_tabs(old_seq).count(v) by {
                assert(all_tabs(mid).add(ot.tabs()).count(v) == all_tabs(old_seq).add(self.tree_at(i).tabs()).count(v));
                assert(self.tree_at(i).tabs().add(lt).count(v) == ot.tabs().count(v));
            }
            assert(all_tabs(mid).add(lt) =~= all_tabs(old_seq));
        }
        if !path.surface.is_main() && self.index(path.surface).is_empty() {
            proof {
                let i = path.surface.0 as int;
                assert(crate::shape::shape(self.tree_at(i).node_seq(), 0) == crate::shape::Shape::<Tab>::Nil);
                assert(crate::shape::shape_tabs(crate::shape::Shape::<Tab>::Nil) =~= Multiset::empty());
                assert(surface_tabs(mid[i]) =~= Multiset::empty());
            }
            let _ = self.remove_surface(path.surface);
            proof {
                let i = path.surface.0 as int;
                assert forall|v: Tab| #[trigger] all_tabs(self.surfaces@).count(v) == all_tabs(mid).count(v) by {
                    assert(all_tabs(self.surfaces@).add(surface_tabs(mid[i])).count(v) == all_tabs(mid).count(v));
                }
                assert(all_tabs(self.surfaces@) =~= all_tabs(mid));
            }
        }
        proof {
            assert(all_tabs(self.surfaces@) =~= all_tabs(mid));
            let i = path.surface.0 as int;
            assert(mid == old_seq.update(i, with_tree(old_seq[i], u)));
            assert(crate::tree::leaf_removed(ot, u, path.node.0 as int));
            if i != 0 && u.node_seq().len() == 0 {
                if i == old_seq.len() - 1 {
                    assert(self.surfaces@ =~= old_seq.drop_last());
                } else {
                    assert(self.surfaces@ =~= old_seq.update(i, Surface::Empty));
                }
            }
            assert(tree_replaced_then_cleaned(old_seq, old_focus, self.surfaces@, self.focused_surface, i, u));
        }
    }

    /// Splits the leaf at `parent_path` in two: the old leaf and `new` become its
    /// children, `new` placed in direction `split`. The surface gets the focus. `new` is
    /// a leaf with at least one tab: a new child without content is not a split. The
    /// positions of the children stay below `MAX_NODES`, a limit of
    /// memory (that many node slots take tens of gigabytes).
    ///
    /// Returns the indices of the old leaf and of the new one.
    pub fn split(&mut self, parent_path: NodePath, split: crate::destination::Split, new: Node<Tab>) -> (r: [NodeIndex; 2])
        requires
            old(self).wf(),
            leaf_error(old(self).surface_seq(), parent_path) is None,
            new is Leaf,
            node_tabs(new).len() > 0,
            crate::index::right_of(parent_path.node.0 as int) < crate::shape::MAX_NODES,
        ensures
            final(self).wf(),
            final(self).tabs() =~= old(self).tabs().add(node_tabs(new).to_multiset()),
            final(self).focused() == Some(parent_path.surface),
            ({
                let (a, b) = crate::tree::split_positions(parent_path.node.0 as int, split);
                r@ == seq![NodeIndex(a as usize), NodeIndex(b as usize)]
            }),
            only_tree_changed(old(self).surface_seq(), final(self).surface_seq(), parent_path.surface.0 as int),
            crate::tree::split_result(
                old(self).tree_at(parent_path.surface.0 as int).node_seq(),
                final(self).tree_at(parent_path.surface.0 as int).node_seq(),
                final(self).tree_at(parent_path.surface.0 as int).focus(),
                parent_path.node.0 as int,
                split,
                new,
                r,
            ),
            split is Left || split is Right ==> final(self).tree_at(parent_path.surface.0 as int).node_seq()[parent_path.node.0 as int] is Horizontal,
            split is Above || split is Below ==> final(self).tree_at(parent_path.surface.0 as int).node_seq()[parent_path.node.0 as int] is Vertical,
            split is Right || split is Below ==> r@[0].0 == crate::index::left_of(parent_path.node.0 as int)
                && r@[1].0 == crate::index::right_of(parent_path.node.0 as int),
            split is Left || split is Above ==> r@[0].0 == crate::index::right_of(parent_path.node.0 as int)
                && r@[1].0 == crate::index::left_of(parent_path.node.0 as int),
            final(self).texts() == old(self).texts(),
    {
        let ghost old_seq = self.surfaces@;
        let ghost ot = self.tree_at(parent_path.surface.0 as int);
        let ghost nv = new;
        proof {
            assert(surface_wf(old_seq[parent_path.surface.0 as int]));
        }
        let tree = self.index_mut(parent_path.surface);
        let index = tree.split(parent_path.node, split, new);
        proof {
            let i = parent_path.surface.0 as int;
            lemma_after_index_mut(old_seq, self.surfaces@, i, surface_tree(self.surfaces@[i])->0);
            lemma_tabs_shift(all_tabs(self.surfaces@), all_tabs(old_seq), ot.tabs(), self.tree_at(i).tabs(), node_tabs(nv).to_multiset());
        }
        self.focused_surface = Some(parent_path.surface);
        index
    }
}


/// `new` (in focus `new_focus`) is `mid` (in focus `mid_focus`) once a tab has left node
/// `src`: a leaf left without tabs there is removed, and then a window left without
/// nodes; anything else stays as it was.
pub open spec fn source_cleaned<Tab>(
    mid: Seq<Surface<Tab>>,
    mid_focus: Option<SurfaceIndex>,
    new: Seq<Surface<Tab>>,
    new_focus: Option<SurfaceIndex>,
    src: NodePath,
) -> bool {
    if node_at(mid, src) is Leaf && node_tabs(node_at(mid, src)).len() == 0 {
        exists|u: Tree<Tab>| #[trigger] crate::tree::leaf_removed(surface_tree(mid[src.surface.0 as int])->0, u, src.node.0 as int)
            && tree_replaced_then_cleaned(mid, mid_focus, new, new_focus, src.surface.0 as int, u)
    } else {
        new == mid && new_focus == mid_focus
    }
}

/// `ss` with surface `s` put at index `i`: in place of the slot there, or as one more
/// surface at the end.
pub open spec fn put_at<Tab>(ss: Seq<Surface<Tab>>, i: int, s: Surface<Tab>) -> Seq<Surface<Tab>> {
    if i < ss.len() {
        ss.update(i, s)
    } else {
        ss.push(s)
    }
}

/// `new` (in focus `new_focus`) is `old` (in focus `old_focus`) once the tab at `src`
/// went to the new window at `w`: the window takes slot `w`, and the source tree loses
/// the tab as removing it would (a leaf left without tabs is removed, then a window left
/// without nodes).
pub open spec fn detached<Tab>(
    old: Seq<Surface<Tab>>,
    old_focus: Option<SurfaceIndex>,
    new: Seq<Surface<Tab>>,
    new_focus: Option<SurfaceIndex>,
    src: TabPath,
    w: int,
) -> bool {
    exists|u: Tree<Tab>| #[trigger] crate::tree::tab_removed(surface_tree(old[src.surface.0 as int])->0, u, src.node.0 as int, src.tab.0 as int)
        && tree_replaced_then_cleaned(put_at(old, w, new[w]), old_focus, new, new_focus, src.surface.0 as int, u)
}

/// A change of tree at surface `i` followed by the clean-up, seen from before that
/// change: what is removed or replaced there does not depend on the tree it had.
proof fn lemma_cleaned_from_before<Tab>(
    x: Seq<Surface<Tab>>,
    y: Seq<Surface<Tab>>,
    focus: Option<SurfaceIndex>,
    new: Seq<Surface<Tab>>,
    new_focus: Option<SurfaceIndex>,
    i: int,
    u: Tree<Tab>,
)
    requires
        0 <= i < x.len(),
        y.len() == x.len(),
        same_but_tree(x[i], y[i]),
        forall|j: int| 0 <= j < x.len() && j != i ==> x[j] == y[j],
        tree_replaced_then_cleaned(y, focus, new, new_focus, i, u),
    ensures
        tree_replaced_then_cleaned(x, focus, new, new_focus, i, u),
{
    assert(with_tree(x[i], u) == with_tree(y[i], u));
    assert(x.update(i, with_tree(x[i], u)) =~= y.update(i, with_tree(y[i], u)));
    assert(x.update(i, Surface::Empty) =~= y.update(i, Surface::Empty));
    if i == x.len() - 1 {
        assert(x.drop_last() =~= y.drop_last());
    }
}

/// A detach stays a detach when the new window is then changed in place, such as its
/// window state.
pub proof fn lemma_detached_window_changed<Tab>(
    old: Seq<Surface<Tab>>,
    old_focus: Option<SurfaceIndex>,
    new: Seq<Surface<Tab>>,
    new_focus: Option<SurfaceIndex>,
    src: TabPath,
    w: int,
    s: Surface<Tab>,
)
    requires
        detached(old, old_focus, new, new_focus, src, w),
        0 <= w < new.len(),
        w != src.surface.0,
        src.surface.0 < old.len(),
    ensures
        detached(old, old_focus, new.update(w, s), new_focus, src, w),
{
    let i = src.surface.0 as int;
    let u = choose|u: Tree<Tab>| #[trigger] crate::tree::tab_removed(surface_tree(old[i])->0, u, src.node.0 as int, src.tab.0 as int)
        && tree_replaced_then_cleaned(put_at(old, w, new[w]), old_focus, new, new_focus, i, u);
    let x = put_at(old, w, new[w]);
    let x2 = put_at(old, w, s);
    let n2 = new.update(w, s);
    assert(x2 =~= x.update(w, s));
    assert(x2[i] == x[i]);
    assert(x2.update(i, with_tree(x2[i], u)) =~= x.update(i, with_tree(x[i], u)).update(w, s));
    assert(x2.update(i, Surface::Empty) =~= x.update(i, Surface::Empty).update(w, s));
    if i == x.len() - 1 {
        assert(x2.drop_last() =~= x.drop_last().update(w, s));
    }
    assert(n2[w] == s);
    assert(tree_replaced_then_cleaned(put_at(old, w, n2[w]), old_focus, n2, new_focus, i, u));
}

/// Every leaf of every tree holds at least one tab.
pub open spec fn leaves_filled<Tab>(ss: Seq<Surface<Tab>>) -> bool {
    forall|i: int| 0 <= i < ss.len() && #[trigger] surface_tree(ss[i]) is Some ==> crate::tree::no_empty_leaf(surface_tree(ss[i])->0.node_seq())
}

/// Every leaf of every tree holds at least one tab, except maybe the node at `src`.
pub open spec fn leaves_filled_but<Tab>(ss: Seq<Surface<Tab>>, src: NodePath) -> bool {
    forall|i: int, j: int|
        0 <= i < ss.len() && surface_tree(ss[i]) is Some && 0 <= j < surface_tree(ss[i])->0.node_seq().len()
            && !(i == src.surface.0 && j == src.node.0) && #[trigger] surface_tree(ss[i])->0.node_seq()[j] is Leaf
            ==> node_tabs(surface_tree(ss[i])->0.node_seq()[j]).len() > 0
}

/// The clean-up after a tab left `src`, where every other leaf holds tabs, leaves every
/// leaf holding tabs.
proof fn lemma_cleaned_leaves_filled<Tab>(
    mid: Seq<Surface<Tab>>,
    mid_focus: Option<SurfaceIndex>,
    new: Seq<Surface<Tab>>,
    new_focus: Option<SurfaceIndex>,
    src: NodePath,
)
    requires
        surfaces_wf(mid),
        node_error(mid, src) is None,
        leaves_filled_but(mid, src),
        source_cleaned(mid, mid_focus, new, new_focus, src),
    ensures
        leaves_filled(new),
{
    let k = src.surface.0 as int;
    let n = src.node.0 as int;
    let mt = surface_tree(mid[k])->0;
    assert(surface_wf(mid[k]));
    if node_at(mid, src) is Leaf && node_tabs(node_at(mid, src)).len() == 0 {
        let u = choose|u: Tree<Tab>| #[trigger] crate::tree::leaf_removed(mt, u, n)
            && tree_replaced_then_cleaned(mid, mid_focus, new, new_focus, k, u);
        assert forall|j: int| 0 <= j < mt.node_seq().len() && j != n && #[trigger] mt.node_seq()[j] is Leaf implies node_tabs(mt.node_seq()[j]).len() > 0 by {
            assert(surface_tree(mid[k])->0.node_seq()[j] is Leaf);
        }
        crate::tree::lemma_leaf_removed_keeps_leaves_filled(mt, u, n);
        assert forall|i: int| 0 <= i < new.len() && #[trigger] surface_tree(new[i]) is Some implies crate::tree::no_empty_leaf(surface_tree(new[i])->0.node_seq()) by {
            if i != k {
                assert(new[i] == mid[i]);
                let t = surface_tree(mid[i])->0;
                assert forall|j: int| 0 <= j < t.node_seq().len() && #[trigger] t.node_seq()[j] is Leaf implies node_tabs(t.node_seq()[j]).len() > 0 by {
                    assert(surface_tree(mid[i])->0.node_seq()[j] is Leaf);
                }
            } else {
                assert(surface_tree(new[i]) == Some(u));
            }
        }
    } else {
        assert forall|i: int| 0 <= i < new.len() && #[trigger] surface_tree(new[i]) is Some implies crate::tree::no_empty_leaf(surface_tree(new[i])->0.node_seq()) by {
            let t = surface_tree(mid[i])->0;
            assert forall|j: int| 0 <= j < t.node_seq().len() && #[trigger] t.node_seq()[j] is Leaf implies node_tabs(t.node_seq()[j]).len() > 0 by {
                assert(surface_tree(mid[i])->0.node_seq()[j] is Leaf);
            }
        }
    }
}

impl<Tab> DockState<Tab> {
    /// After a tab left `src`: removes its leaf if left without tabs, then its surface if
    /// that is a window left without nodes.
    fn clean_up_source(&mut self, src: NodePath)
        requires
            old(self).wf(),
            old(self).has_tree(src.surface.0 as int),
            src.node.0 < old(self).tree_at(src.surface.0 as int).node_seq().len(),
        ensures
            final(self).wf(),
            final(self).tabs() =~= old(self).tabs(),
            final(self).surface_seq().len() <= old(self).surface_seq().len(),
            final(self).surface_seq().len() < old(self).surface_seq().len() ==> src.surface.0 == old(self).surface_seq().len() - 1
                && final(self).surface_seq().len() == old(self).surface_seq().len() - 1,
            forall|j: int| 0 <= j < final(self).surface_seq().len() && j != src.surface.0 ==> final(self).surface_seq()[j] == old(self).surface_seq()[j],
            final(self).focused() == old(self).focused() || final(self).focused() == Some(SurfaceIndex(0)),
            final(self).texts() == old(self).texts(),
            source_cleaned(old(self).surface_seq(), old(self).focused(), final(self).surface_seq(), final(self).focused(), src),
    {
        let ghost old_seq = self.surfaces@;
        let ghost old_focus = self.focused_surface;
        let ghost mut u = self.tree_at(src.surface.0 as int);
        let n = self.index(src.surface).get(src.node).unwrap();
        if n.is_leaf() && n.tabs_count() == 0 {
            let ghost ot = self.tree_at(src.surface.0 as int);
            let ghost lt = node_tabs(ot.node_seq()[src.node.0 as int]);
            proof {
                assert(surface_wf(old_seq[src.surface.0 as int]));
                lemma_empty_to_multiset(lt);
            }
            let tree = self.index_mut(src.surface);
            tree.remove_leaf(src.node);
            proof {
                let i = src.surface.0 as int;
                let mid = self.surfaces@;
                u = self.tree_at(i);
                assert(crate::tree::leaf_removed(ot, u, src.node.0 as int));
                lemma_after_index_mut(old_seq, mid, i, surface_tree(mid[i])->0);
                assert forall|v: Tab| #[trigger] all_tabs(mid).count(v) == all_tabs(old_seq).count(v) by {
                    assert(all_tabs(mid).add(ot.tabs()).count(v) == all_tabs(old_seq).add(self.tree_at(i).tabs()).count(v));
                    assert(self.tree_at(i).tabs().add(lt.to_multiset()).count(v) == ot.tabs().count(v));
                }
                assert(all_tabs(mid) =~= all_tabs(old_seq));
            }
        }
        let ghost mid = self.surfaces@;
        if !src.surface.is_main() && self.index(src.surface).is_empty() {
            proof {
                let i = src.surface.0 as int;
                assert(crate::shape::shape(self.tree_at(i).node_seq(), 0) == crate::shape::Shape::<Tab>::Nil);
                assert(crate::shape::shape_tabs(crate::shape::Shape::<Tab>::Nil) =~= Multiset::empty());
                assert(surface_tabs(mid[i]) =~= Multiset::empty());
            }
            let _ = self.remove_surface(src.surface);
            proof {
                let i = src.surface.0 as int;
                assert forall|v: Tab| #[trigger] all_tabs(self.surfaces@).count(v) == all_tabs(mid).count(v) by {
                    assert(all_tabs(self.surfaces@).add(surface_tabs(mid[i])).count(v) == all_tabs(mid).count(v));
                }
                assert(all_tabs(self.surfaces@) =~= all_tabs(mid));
            }
        }
        proof {
            let i = src.surface.0 as int;
            if node_at(old_seq, src) is Leaf && node_tabs(node_at(old_seq, src)).len() == 0 {
                assert(mid == old_seq.update(i, with_tree(old_seq[i], u)));
                if i != 0 && u.node_seq().len() == 0 {
                    if i == old_seq.len() - 1 {
                        assert(self.surfaces@ =~= old_seq.drop_last());
                    } else {
                        assert(self.surfaces@ =~= old_seq.update(i, Surface::Empty));
                    }
                }
                assert(tree_replaced_then_cleaned(old_seq, old_focus, self.surfaces@, self.focused_surface, i, u));
            }
        }
    }

    /// Takes the tab at `src` out of its leaf and puts it into a new window.
    ///
    /// Leaves and windows left empty are removed. Returns the index of the new window.
    /// The placement of the window on screen is left to the caller.
    pub fn detach_tab(&mut self, src: TabPath) -> (r: SurfaceIndex)
        requires
            old(self).wf(),
            tab_error(old(self).surface_seq(), src) is None,
        ensures
            final(self).wf(),
            final(self).tabs() =~= old(self).tabs(),
            r.0 < old(self).surface_seq().len() ==> old(self).surface_seq()[r.0 as int] is Empty,
            forall|j: int| 1 <= j < r.0 ==> !(#[trigger] old(self).surface_seq()[j] is Empty),
            r.0 == first_empty_from(old(self).surface_seq(), 1),
            r.0 != src.surface.0,
            r.0 < final(self).surface_seq().len(),
            final(self).surface_seq()[r.0 as int] is Window,
            final(self).surface_seq()[r.0 as int]->Window_1.is_fresh(),
            final(self).tree_at(r.0 as int).node_seq().len() == 1,
            final(self).tree_at(r.0 as int).node_seq()[0] is Leaf,
            node_tabs(final(self).tree_at(r.0 as int).node_seq()[0]) == seq![node_tabs(node_at(old(self).surface_seq(), src.node_path()))[src.tab.0 as int]],
            crate::tree::single_leaf(final(self).tree_at(r.0 as int), seq![node_tabs(node_at(old(self).surface_seq(), src.node_path()))[src.tab.0 as int]]),
            detached(old(self).surface_seq(), old(self).focused(), final(self).surface_seq(), final(self).focused(), src, r.0 as int),
            forall|j: int| 0 <= j < old(self).surface_seq().len() && j < final(self).surface_seq().len() && j != src.surface.0 && j != r.0
                ==> #[trigger] final(self).surface_seq()[j] == old(self).surface_seq()[j],
            final(self).texts() == old(self).texts(),
            leaves_filled(old(self).surface_seq()) ==> leaves_filled(final(self).surface_seq()),
    {
        let ghost old_seq = self.surfaces@;
        let ghost ot = self.tree_at(src.surface.0 as int);
        proof {
            assert(surface_wf(old_seq[src.surface.0 as int]));
        }
        let tree = self.index_mut(src.surface);
        let tab = tree.take_tab(src.node, src.tab);
        let ghost mid = self.surfaces@;
        proof {
            let i = src.surface.0 as int;
            lemma_after_index_mut(old_seq, mid, i, surface_tree(mid[i])->0);
            assert forall|v: Tab| #[trigger] all_tabs(mid).insert(tab).count(v) == all_tabs(old_seq).count(v) by {
                assert(all_tabs(mid).add(ot.tabs()).count(v) == all_tabs(old_seq).add(self.tree_at(i).tabs()).count(v));
                assert(self.tree_at(i).tabs().insert(tab).count(v) == ot.tabs().count(v));
            }
        }
        let mut tabs = Vec::new();
        tabs.push(tab);
        let surface_index = self.add_window(tabs);
        let ghost mid2 = self.surfaces@;
        proof {
            assert(seq![tab].to_multiset() =~= Multiset::empty().insert(tab)) by {
                assert(seq![tab] =~= Seq::<Tab>::empty().push(tab));
                lemma_empty_to_multiset(Seq::<Tab>::empty());
            }
            assert forall|v: Tab| #[trigger] all_tabs(mid2).count(v) == all_tabs(old_seq).count(v) by {
                assert(all_tabs(mid).insert(tab).count(v) == all_tabs(old_seq).count(v));
                assert(all_tabs(mid2).count(v) == all_tabs(mid).add(Multiset::empty().insert(tab)).count(v));
            }
            assert(all_tabs(mid2) =~= all_tabs(old_seq));
            lemma_first_empty(old_seq, 1);
            lemma_first_empty_same(old_seq, mid, 1);
            assert(mid2[src.surface.0 as int] == mid[src.surface.0 as int]);
        }
        let ghost focus = self.focused_surface;
        self.clean_up_source(src.node_path());
        proof {
            let i = src.surface.0 as int;
            let n = src.node.0 as int;
            let w = surface_index.0 as int;
            assert(w != i);
            if self.surfaces@.len() < mid2.len() {
                assert(i == mid2.len() - 1);
            }
            let x = put_at(old_seq, w, self.surfaces@[w]);
            assert(self.surfaces@[w] == mid2[w]);
            assert forall|j: int| 0 <= j < x.len() && j != i implies x[j] == mid2[j] by {
                if j != w {
                    assert(mid2[j] == mid[j]);
                }
            }
            let mt = surface_tree(mid[i])->0;
            assert(crate::tree::tab_taken(ot, mt, n, src.tab.0 as int));
            if node_tabs(ot.node_seq()[n]).len() == 1 {
                let u = choose|u: Tree<Tab>| #[trigger] crate::tree::leaf_removed(surface_tree(mid2[i])->0, u, n)
                    && tree_replaced_then_cleaned(mid2, focus, self.surfaces@, self.focused_surface, i, u);
                crate::tree::lemma_leaf_removed_any_tabs(ot, mt, u, n);
                lemma_cleaned_from_before(x, mid2, focus, self.surfaces@, self.focused_surface, i, u);
                assert(crate::tree::tab_removed(ot, u, n, src.tab.0 as int));
            } else {
                assert(self.surfaces@ == mid2);
                assert(mid2 =~= mid2.update(i, with_tree(mid2[i], mt)));
                lemma_cleaned_from_before(x, mid2, focus, self.surfaces@, self.focused_surface, i, mt);
                assert(crate::tree::tab_removed(ot, mt, n, src.tab.0 as int));
            }
            if leaves_filled(old_seq) {
                assert forall|a: int, j: int|
                    0 <= a < mid2.len() && surface_tree(mid2[a]) is Some && 0 <= j < surface_tree(mid2[a])->0.node_seq().len()
                        && !(a == i && j == n) && #[trigger] surface_tree(mid2[a])->0.node_seq()[j] is Leaf
                    implies node_tabs(surface_tree(mid2[a])->0.node_seq()[j]).len() > 0 by {
                    if a == w {
                        assert(j == 0);
                    } else {
                        assert(surface_tree(old_seq[a]) is Some);
                        assert(crate::tree::no_empty_leaf(surface_tree(old_seq[a])->0.node_seq()));
                        if a == i {
                            assert(surface_tree(mid2[a])->0.node_seq()[j] == ot.node_seq()[j]);
                        } else {
                            assert(mid2[a] == old_seq[a]);
                        }
                    }
                }
                lemma_cleaned_leaves_filled(mid2, focus, self.surfaces@, self.focused_surface, src.node_path());
            }
        }
        surface_index
    }
}


/// The tabs of the destination node `d` once the tab at `src` has left its leaf.
pub open spec fn tabs_before_insert<Tab>(ss: Seq<Surface<Tab>>, src: TabPath, d: NodePath) -> Seq<Tab> {
    if d == src.node_path() {
        node_tabs(node_at(ss, d)).remove(src.tab.0 as int)
    } else {
        node_tabs(node_at(ss, d))
    }
}

/// The surfaces `new` hold the tab `moved` inserted into node `d` as `ins` says, where
/// `before` are the tabs of `d` just before the insertion; the moved tab is active in
/// the leaf that receives it.
pub open spec fn inserted_at<Tab>(new: Seq<Surface<Tab>>, d: NodePath, ins: crate::destination::TabInsert, before: Seq<Tab>, moved: Tab) -> bool {
    match ins {
        crate::destination::TabInsert::Append => {
            &&& node_at(new, d) is Leaf
            &&& node_tabs(node_at(new, d)) == before.push(moved)
            &&& node_at(new, d)->Leaf_0.active.0 == before.len()
        },
        crate::destination::TabInsert::Insert(i) => {
            let at = if i.0 < before.len() { i.0 as int } else { before.len() as int };
            &&& node_at(new, d) is Leaf
            &&& node_tabs(node_at(new, d)) == before.insert(at, moved)
            &&& node_at(new, d)->Leaf_0.active.0 == at
        },
        crate::destination::TabInsert::Split(sp) => {
            let (a, b) = crate::tree::split_positions(d.node.0 as int, sp);
            let nb = node_at(new, NodePath { surface: d.surface, node: NodeIndex(b as usize) });
            &&& surface_tree(new[d.surface.0 as int])->0.node_seq()[d.node.0 as int] == crate::tree::split_kind::<Tab>(sp)
            &&& node_tabs(node_at(new, NodePath { surface: d.surface, node: NodeIndex(a as usize) })) == before
            &&& nb is Leaf
            &&& node_tabs(nb) == seq![moved]
            &&& nb->Leaf_0.active.0 == 0
        },
    }
}

/// Where a tab lands in node `d`: appended after the tabs `before` the node held once
/// the tab left its leaf, or inserted at the requested position (at the end when that
/// is past the end), or, for a split, alone in the new child on the side the split names
/// while the node's tabs go to the other child.
pub proof fn lemma_lands_in_node<Tab>(new: Seq<Surface<Tab>>, d: NodePath, ins: crate::destination::TabInsert, before: Seq<Tab>, moved: Tab)
    requires
        inserted_at(new, d, ins, before, moved),
        crate::index::right_of(d.node.0 as int) <= usize::MAX,
    ensures
        ins is Append ==> {
            &&& node_tabs(node_at(new, d)).len() == before.len() + 1
            &&& node_tabs(node_at(new, d))[before.len() as int] == moved
            &&& forall|k: int| 0 <= k < before.len() ==> node_tabs(node_at(new, d))[k] == before[k]
        },
        ins matches crate::destination::TabInsert::Insert(i) ==> {
            let at = if i.0 < before.len() { i.0 as int } else { before.len() as int };
            &&& node_tabs(node_at(new, d)).len() == before.len() + 1
            &&& node_tabs(node_at(new, d))[at] == moved
            &&& forall|k: int| 0 <= k < at ==> node_tabs(node_at(new, d))[k] == before[k]
            &&& forall|k: int| at < k <= before.len() ==> node_tabs(node_at(new, d))[k] == before[k - 1]
        },
        ins matches crate::destination::TabInsert::Split(sp) ==> {
            let left = NodePath { surface: d.surface, node: NodeIndex(crate::index::left_of(d.node.0 as int) as usize) };
            let right = NodePath { surface: d.surface, node: NodeIndex(crate::index::right_of(d.node.0 as int) as usize) };
            &&& (sp is Left || sp is Right) ==> node_at(new, d) is Horizontal
            &&& (sp is Above || sp is Below) ==> node_at(new, d) is Vertical
            &&& (sp is Right || sp is Below) ==> node_tabs(node_at(new, right)) == seq![moved] && node_tabs(node_at(new, left)) == before
            &&& (sp is Left || sp is Above) ==> node_tabs(node_at(new, left)) == seq![moved] && node_tabs(node_at(new, right)) == before
        },
{
}

/// Where a tab moved from `src` to a node `dst` lands when no node of the destination's
/// tree is removed after the move (its leaf keeps other tabs, or it goes to another
/// surface): in the destination node, as the insertion says.
pub open spec fn node_move_result<Tab, R>(old: Seq<Surface<Tab>>, new: Seq<Surface<Tab>>, src: TabPath, dst: crate::destination::TabDestination<R>) -> bool {
    match dst {
        crate::destination::TabDestination::Node(d, ins) => {
            &&& node_tabs(node_at(old, src.node_path())).len() > 1 ==> new.len() == old.len()
            &&& (node_tabs(node_at(old, src.node_path())).len() > 1 || d.surface != src.surface) ==> inserted_at(
                new,
                d,
                ins,
                tabs_before_insert(old, src, d),
                node_tabs(node_at(old, src.node_path()))[src.tab.0 as int],
            )
        },
        _ => true,
    }
}

/// The surface a move to `dst` puts the tab in.
pub open spec fn destination_surface<Tab, R>(ss: Seq<Surface<Tab>>, dst: crate::destination::TabDestination<R>) -> int {
    match dst {
        crate::destination::TabDestination::Window(_) => first_empty_from(ss, 1),
        crate::destination::TabDestination::Node(d, _) => d.surface.0 as int,
        crate::destination::TabDestination::EmptySurface(d) => d.0 as int,
    }
}

/// The destination can take the tab (otherwise moving panics). A split also needs the
/// positions of its new children below `MAX_NODES`, a limit of memory (that many node
/// slots take tens of gigabytes).
pub open spec fn destination_ok<Tab, R>(ss: Seq<Surface<Tab>>, dst: crate::destination::TabDestination<R>) -> bool {
    match dst {
        crate::destination::TabDestination::Window(_) => true,
        crate::destination::TabDestination::Node(d, ins) => {
            &&& leaf_error(ss, d) is None
            &&& ins is Split ==> crate::index::right_of(d.node.0 as int) < crate::shape::MAX_NODES
        },
        crate::destination::TabDestination::EmptySurface(d) => {
            &&& d.0 < ss.len()
            &&& surface_tree(ss[d.0 as int]) is Some
            &&& surface_tree(ss[d.0 as int])->0.node_seq().len() == 0
        },
    }
}

/// Moving the tab at `src` to `dst` leaves everything as it is: it is the only tab of its
/// leaf, and goes to that same leaf.
pub open spec fn moves_nothing<Tab, R>(ss: Seq<Surface<Tab>>, src: TabPath, dst: crate::destination::TabDestination<R>) -> bool {
    dst matches crate::destination::TabDestination::Node(d, _) && d == src.node_path() && node_tabs(node_at(ss, d)).len() == 1
}

/// Node `j` of the destination tree is one that inserting at `d` as `ins` writes: `d`
/// itself, and for a split its two children.
pub open spec fn written_by_insert(d: NodePath, ins: crate::destination::TabInsert, j: int) -> bool {
    ||| j == d.node.0
    ||| ins matches crate::destination::TabInsert::Split(sp) && {
        let (a, b) = crate::tree::split_positions(d.node.0 as int, sp);
        j == a || j == b
    }
}

/// `mid` is `old` where the tab at `src` left its leaf for a node or an empty tree `dst`,
/// before any clean-up: the source leaf lost it (unless it is the destination itself),
/// and the destination received it as the move says.
pub open spec fn moved_before_cleanup<Tab, R>(
    old: Seq<Surface<Tab>>,
    mid: Seq<Surface<Tab>>,
    src: TabPath,
    dst: crate::destination::TabDestination<R>,
) -> bool {
    let i = src.surface.0 as int;
    let k = destination_surface(old, dst);
    let moved = node_tabs(node_at(old, src.node_path()))[src.tab.0 as int];
    &&& mid.len() == old.len()
    &&& forall|j: int| 0 <= j < old.len() && j != i && j != k ==> #[trigger] mid[j] == old[j]
    &&& same_but_tree(old[i], mid[i])
    &&& same_but_tree(old[k], mid[k])
    &&& match dst {
        crate::destination::TabDestination::Node(d, ins) => {
            &&& d != src.node_path() ==> {
                &&& node_at(mid, src.node_path()) is Leaf
                &&& node_tabs(node_at(mid, src.node_path())) == node_tabs(node_at(old, src.node_path())).remove(src.tab.0 as int)
            }
            &&& inserted_at(mid, d, ins, tabs_before_insert(old, src, d), moved)
            &&& forall|j: int| 0 <= j < surface_tree(old[i])->0.node_seq().len() && j != src.node.0 && !(k == i && written_by_insert(d, ins, j))
                ==> #[trigger] surface_tree(mid[i])->0.node_seq()[j] == surface_tree(old[i])->0.node_seq()[j]
            &&& forall|j: int| 0 <= j < surface_tree(old[k])->0.node_seq().len() && !(k == i && j == src.node.0) && !written_by_insert(d, ins, j)
                ==> #[trigger] surface_tree(mid[k])->0.node_seq()[j] == surface_tree(old[k])->0.node_seq()[j]
            &&& k != i ==> surface_tree(mid[i])->0.node_seq().len() == surface_tree(old[i])->0.node_seq().len()
                && surface_tree(mid[i])->0.focus() == surface_tree(old[i])->0.focus()
            &&& match ins {
                crate::destination::TabInsert::Split(sp) => {
                    let (a, b) = crate::tree::split_positions(d.node.0 as int, sp);
                    &&& surface_tree(mid[k])->0.focus() == Some(NodeIndex(b as usize))
                    &&& surface_tree(mid[k])->0.node_seq().len() == if surface_tree(old[k])->0.node_seq().len() > crate::index::right_of(d.node.0 as int) {
                        surface_tree(old[k])->0.node_seq().len() as int
                    } else {
                        crate::index::right_of(d.node.0 as int) + 1
                    }
                    &&& forall|j: int| surface_tree(old[k])->0.node_seq().len() <= j < surface_tree(mid[k])->0.node_seq().len() && j != a && j != b
                        ==> #[trigger] surface_tree(mid[k])->0.node_seq()[j] is Empty
                },
                _ => {
                    &&& surface_tree(mid[k])->0.focus() == surface_tree(old[k])->0.focus()
                    &&& surface_tree(mid[k])->0.node_seq().len() == surface_tree(old[k])->0.node_seq().len()
                },
            }
        },
        crate::destination::TabDestination::EmptySurface(_) => {
            &&& crate::tree::tab_taken(surface_tree(old[i])->0, surface_tree(mid[i])->0, src.node.0 as int, src.tab.0 as int)
            &&& crate::tree::single_leaf(surface_tree(mid[k])->0, seq![moved])
        },
        crate::destination::TabDestination::Window(_) => false,
    }
}

/// A tab moved to a node or an empty tree, before any clean-up, leaves every leaf that
/// held tabs holding some, the source leaf aside.
proof fn lemma_moved_leaves_filled<Tab, R>(old: Seq<Surface<Tab>>, mid: Seq<Surface<Tab>>, src: TabPath, dst: crate::destination::TabDestination<R>)
    requires
        surfaces_wf(old),
        leaves_filled(old),
        tab_error(old, src) is None,
        destination_ok(old, dst),
        !moves_nothing(old, src, dst),
        moved_before_cleanup(old, mid, src, dst),
    ensures
        leaves_filled_but(mid, src.node_path()),
{
    let k = src.surface.0 as int;
    let q = destination_surface(old, dst);
    assert forall|i: int, j: int|
        0 <= i < mid.len() && surface_tree(mid[i]) is Some && 0 <= j < surface_tree(mid[i])->0.node_seq().len()
            && !(i == src.surface.0 && j == src.node.0) && #[trigger] surface_tree(mid[i])->0.node_seq()[j] is Leaf
        implies node_tabs(surface_tree(mid[i])->0.node_seq()[j]).len() > 0 by {
        assert(surface_tree(old[i]) is Some);
        let t = surface_tree(old[i])->0;
        let v = surface_tree(mid[i])->0;
        assert(crate::tree::no_empty_leaf(t.node_seq()));
        if i != k && i != q {
            assert(mid[i] == old[i]);
        } else {
            match dst {
                crate::destination::TabDestination::Node(d, ins) => {
                    if i == q && written_by_insert(d, ins, j) {
                        let before = tabs_before_insert(old, src, d);
                        assert(node_at(old, d) is Leaf);
                        assert(node_tabs(node_at(old, d)).len() > 0);
                        if d == src.node_path() {
                            assert(node_tabs(node_at(old, d)).len() > 1);
                        }
                        assert(before.len() > 0);
                    } else if j < t.node_seq().len() {
                        assert(v.node_seq()[j] == t.node_seq()[j]);
                    } else {
                        assert(ins is Split);
                        assert(v.node_seq()[j] is Empty);
                    }
                },
                crate::destination::TabDestination::EmptySurface(_) => {
                    if i == k {
                        assert(v.node_seq()[j] == t.node_seq()[j]);
                    }
                },
                crate::destination::TabDestination::Window(_) => {},
            }
        }
    }
}

impl<Tab> DockState<Tab> {
    /// Moves the tab at `src` to `dst`.
    ///
    /// Moving the only tab of a leaf into that same leaf does nothing. Leaves and windows
    /// left empty are removed. For a window destination, its placement on screen is left
    /// to the caller. A split needs the positions of its new children below `MAX_NODES`,
    /// a limit of memory (that many node slots take tens of gigabytes).
    #[verifier::rlimit(40)]
    #[verifier::spinoff_prover]
    pub fn move_tab<R>(&mut self, src: TabPath, dst: crate::destination::TabDestination<R>)
        requires
            old(self).wf(),
            tab_error(old(self).surface_seq(), src) is None,
            destination_ok(old(self).surface_seq(), dst),
        ensures
            final(self).wf(),
            final(self).tabs() =~= old(self).tabs(),
            final(self).texts() == old(self).texts(),
            leaves_filled(old(self).surface_seq()) ==> leaves_filled(final(self).surface_seq()),
            dst is Window ==> {
                let w = first_empty_from(old(self).surface_seq(), 1);
                &&& w < final(self).surface_seq().len()
                &&& final(self).surface_seq()[w] is Window
                &&& final(self).surface_seq()[w]->Window_1.is_fresh()
                &&& crate::tree::single_leaf(final(self).tree_at(w), seq![node_tabs(node_at(old(self).surface_seq(), src.node_path()))[src.tab.0 as int]])
                &&& detached(old(self).surface_seq(), old(self).focused(), final(self).surface_seq(), final(self).focused(), src, w)
            },
            dst matches crate::destination::TabDestination::EmptySurface(d) ==> {
                &&& d.0 < final(self).surface_seq().len()
                &&& same_but_tree(old(self).surface_seq()[d.0 as int], final(self).surface_seq()[d.0 as int])
                &&& crate::tree::single_leaf(final(self).tree_at(d.0 as int), seq![node_tabs(node_at(old(self).surface_seq(), src.node_path()))[src.tab.0 as int]])
            },
            moves_nothing(old(self).surface_seq(), src, dst) ==> final(self).surface_seq() == old(self).surface_seq() && final(self).focused() == old(self).focused(),
            !(dst is Window) && !moves_nothing(old(self).surface_seq(), src, dst) ==> exists|mid: Seq<Surface<Tab>>|
                #[trigger] moved_before_cleanup(old(self).surface_seq(), mid, src, dst)
                && source_cleaned(mid, old(self).focused(), final(self).surface_seq(), final(self).focused(), src.node_path()),
            !(dst is Window) ==> final(self).surface_seq().len() <= old(self).surface_seq().len(),
            node_move_result(old(self).surface_seq(), final(self).surface_seq(), src, dst),
            dst matches crate::destination::TabDestination::Node(d, ins) ==> (!moves_nothing(old(self).surface_seq(), src, dst)
                && (node_tabs(node_at(old(self).surface_seq(), src.node_path())).len() > 1 || d.surface != src.surface) ==> {
                let before = if d == src.node_path() {
                    node_tabs(node_at(old(self).surface_seq(), d)).remove(src.tab.0 as int)
                } else {
                    node_tabs(node_at(old(self).surface_seq(), d))
                };
                let moved = node_tabs(node_at(old(self).surface_seq(), src.node_path()))[src.tab.0 as int];
                let got = node_tabs(node_at(final(self).surface_seq(), d));
                let left = NodePath { surface: d.surface, node: NodeIndex(crate::index::left_of(d.node.0 as int) as usize) };
                let right = NodePath { surface: d.surface, node: NodeIndex(crate::index::right_of(d.node.0 as int) as usize) };
                &&& ins is Append ==> got.len() == before.len() + 1 && got[before.len() as int] == moved
                    && forall|k: int| 0 <= k < before.len() ==> got[k] == before[k]
                &&& ins matches crate::destination::TabInsert::Insert(i) ==> {
                    let at = if i.0 < before.len() { i.0 as int } else { before.len() as int };
                    &&& got.len() == before.len() + 1
                    &&& got[at] == moved
                    &&& forall|k: int| 0 <= k < at ==> got[k] == before[k]
                    &&& forall|k: int| at < k <= before.len() ==> got[k] == before[k - 1]
                }
                &&& ins matches crate::destination::TabInsert::Split(sp) ==> {
                    &&& (sp is Left || sp is Right) ==> node_at(final(self).surface_seq(), d) is Horizontal
                    &&& (sp is Above || sp is Below) ==> node_at(final(self).surface_seq(), d) is Vertical
                    &&& (sp is Right || sp is Below) ==> node_tabs(node_at(final(self).surface_seq(), right)) == seq![moved]
                        && node_tabs(node_at(final(self).surface_seq(), left)) == before
                    &&& (sp is Left || sp is Above) ==> node_tabs(node_at(final(self).surface_seq(), left)) == seq![moved]
                        && node_tabs(node_at(final(self).surface_seq(), right)) == before
                }
            }),
            forall|j: int| 0 <= j < old(self).surface_seq().len() && j < final(self).surface_seq().len() && j != src.surface.0
                && j != destination_surface(old(self).surface_seq(), dst)
                ==> #[trigger] final(self).surface_seq()[j] == old(self).surface_seq()[j],
    {
        let ghost old_seq = self.surfaces@;
        let ghost old_focus = self.focused_surface;
        match dst {
            crate::destination::TabDestination::Window(_) => {
                let _ = self.detach_tab(src);
                return;
            },
            crate::destination::TabDestination::Node(d, ins) => {
                if src.node_path() == d && self.index(src.surface).get(src.node).unwrap().tabs_count() == 1 {
                    return;
                }
                let ghost ot = self.tree_at(src.surface.0 as int);
                proof {
                    assert(surface_wf(old_seq[src.surface.0 as int]));
                }
                let tab = self.index_mut(src.surface).take_tab(src.node, src.tab);
                let ghost mid = self.surfaces@;
                proof {
                    let i = src.surface.0 as int;
                    lemma_after_index_mut(old_seq, mid, i, surface_tree(mid[i])->0);
                    assert forall|v: Tab| #[trigger] all_tabs(mid).insert(tab).count(v) == all_tabs(old_seq).count(v) by {
                        assert(all_tabs(mid).add(ot.tabs()).count(v) == all_tabs(old_seq).add(self.tree_at(i).tabs()).count(v));
                        assert(self.tree_at(i).tabs().insert(tab).count(v) == ot.tabs().count(v));
                    }
                    assert(surface_wf(mid[d.surface.0 as int]));
                    assert(leaf_error(mid, d) is None);
                }
                let ghost dt = self.tree_at(d.surface.0 as int);
                match ins {
                    crate::destination::TabInsert::Split(split) => {
                        let _ = self.index_mut(d.surface).split(d.node, split, Node::leaf(tab));
                        proof {
                            assert(seq![tab].to_multiset() =~= Multiset::empty().insert(tab)) by {
                                assert(seq![tab] =~= Seq::<Tab>::empty().push(tab));
                                lemma_empty_to_multiset(Seq::<Tab>::empty());
                            }
                        }
                    },
                    crate::destination::TabInsert::Insert(index) => {
                        let count = self.index(d.surface).get(d.node).unwrap().tabs_count();
                        let clamped = if index.0 < count {
                            index.0
                        } else {
                            count
                        };
                        self.index_mut(d.surface).insert_tab(d.node, TabIndex(clamped), tab);
                    },
                    crate::destination::TabInsert::Append => {
                        self.index_mut(d.surface).append_tab(d.node, tab);
                    },
                }
                let ghost mid2 = self.surfaces@;
                proof {
                    let i = d.surface.0 as int;
                    lemma_after_index_mut(mid, mid2, i, surface_tree(mid2[i])->0);
                    assert(self.tree_at(i).tabs() =~= dt.tabs().insert(tab));
                    assert forall|v: Tab| #[trigger] all_tabs(mid2).count(v) == all_tabs(old_seq).count(v) by {
                        assert(all_tabs(mid2).add(dt.tabs()).count(v) == all_tabs(mid).add(self.tree_at(i).tabs()).count(v));
                        assert(all_tabs(mid).insert(tab).count(v) == all_tabs(old_seq).count(v));
                    }
                    assert(all_tabs(mid2) =~= all_tabs(old_seq));
                    assert(self.has_tree(src.surface.0 as int));
                }
                proof {
                    let ss = src.surface.0 as int;
                    let sn = src.node.0 as int;
                    let ds = d.surface.0 as int;
                    let dn = d.node.0 as int;
                    let before = tabs_before_insert(old_seq, src, d);
                    let moved = node_tabs(node_at(old_seq, src.node_path()))[src.tab.0 as int];
                    assert(moved == tab);
                    assert(node_tabs(node_at(mid, d)) == before);
                    assert(mid2.len() == old_seq.len());
                    assert(forall|j: int| 0 <= j < old_seq.len() && j != ds && j != ss ==> #[trigger] mid2[j] == old_seq[j]);
                    assert(inserted_at(mid2, d, ins, before, moved));
                    if node_tabs(node_at(old_seq, src.node_path())).len() > 1 {
                        if ds == ss && ins is Split && dn != sn {
                            let mt = surface_tree(mid[ss])->0;
                            let (a, b) = crate::tree::split_positions(dn, ins->Split_0);
                            assert(mt.wf());
                            if sn == a || sn == b {
                                assert(crate::shape::node_ok(mt.node_seq(), sn));
                                assert(crate::index::parent_of(sn) == dn);
                            }
                        }
                        assert(!(node_at(mid2, src.node_path()) is Leaf && node_tabs(node_at(mid2, src.node_path())).len() == 0));
                    }
                    if d != src.node_path() {
                        if ds == ss && ins is Split && dn != sn {
                            let mt = surface_tree(mid[ss])->0;
                            let (a, b) = crate::tree::split_positions(dn, ins->Split_0);
                            assert(mt.wf());
                            if sn == a || sn == b {
                                assert(crate::shape::node_ok(mt.node_seq(), sn));
                                assert(crate::index::parent_of(sn) == dn);
                            }
                        }
                        assert(node_at(mid2, src.node_path()) == node_at(mid, src.node_path()));
                    }
                    assert(moved_before_cleanup(old_seq, mid2, src, dst));
                }
                self.clean_up_source(src.node_path());
                proof {
                    if leaves_filled(old_seq) {
                        lemma_moved_leaves_filled(old_seq, mid2, src, dst);
                        lemma_cleaned_leaves_filled(mid2, old_focus, self.surfaces@, self.focused_surface, src.node_path());
                    }
                    let before = tabs_before_insert(old_seq, src, d);
                    let moved = node_tabs(node_at(old_seq, src.node_path()))[src.tab.0 as int];
                    if node_tabs(node_at(old_seq, src.node_path())).len() > 1 || d.surface != src.surface {
                        assert(node_move_result(old_seq, self.surfaces@, src, dst));
                        lemma_lands_in_node(self.surfaces@, d, ins, before, moved);
                    }
                }
            },
            crate::destination::TabDestination::EmptySurface(d) => {
                let ghost ot = self.tree_at(src.surface.0 as int);
                proof {
                    assert(surface_wf(old_seq[src.surface.0 as int]));
                    assert(d.0 != src.surface.0);
                }
                let tab = self.index_mut(src.surface).take_tab(src.node, src.tab);
                let ghost mid = self.surfaces@;
                proof {
                    let i = src.surface.0 as int;
                    lemma_after_index_mut(old_seq, mid, i, surface_tree(mid[i])->0);
                    assert forall|v: Tab| #[trigger] all_tabs(mid).insert(tab).count(v) == all_tabs(old_seq).count(v) by {
                        assert(all_tabs(mid).add(ot.tabs()).count(v) == all_tabs(old_seq).add(self.tree_at(i).tabs()).count(v));
                        assert(self.tree_at(i).tabs().insert(tab).count(v) == ot.tabs().count(v));
                    }
                    assert(surface_wf(mid[d.0 as int]));
                }
                let ghost dt = self.tree_at(d.0 as int);
                let mut tabs = Vec::new();
                tabs.push(tab);
                let new_tree = Tree::new(tabs);
                let t = self.index_mut(d);
                *t = new_tree;
                let ghost mid2 = self.surfaces@;
                proof {
                    let i = d.0 as int;
                    lemma_after_index_mut(mid, mid2, i, surface_tree(mid2[i])->0);
                    assert(crate::shape::shape(dt.node_seq(), 0) == crate::shape::Shape::<Tab>::Nil);
                    assert(dt.tabs() =~= Multiset::empty());
                    assert(seq![tab].to_multiset() =~= Multiset::empty().insert(tab)) by {
                        assert(seq![tab] =~= Seq::<Tab>::empty().push(tab));
                        lemma_empty_to_multiset(Seq::<Tab>::empty());
                    }
                    assert forall|v: Tab| #[trigger] all_tabs(mid2).count(v) == all_tabs(old_seq).count(v) by {
                        assert(all_tabs(mid2).add(dt.tabs()).count(v) == all_tabs(mid).add(self.tree_at(i).tabs()).count(v));
                        assert(all_tabs(mid).insert(tab).count(v) == all_tabs(old_seq).count(v));
                    }
                    assert(all_tabs(mid2) =~= all_tabs(old_seq));
                }
                proof {
                    let i = src.surface.0 as int;
                    assert(crate::tree::tab_taken(ot, surface_tree(mid2[i])->0, src.node.0 as int, src.tab.0 as int));
                    assert(moved_before_cleanup(old_seq, mid2, src, dst));
                }
                self.clean_up_source(src.node_path());
                proof {
                    if self.surfaces@.len() < mid2.len() {
                        assert(src.surface.0 == mid2.len() - 1);
                    }
                    if leaves_filled(old_seq) {
                        lemma_moved_leaves_filled(old_seq, mid2, src, dst);
                        lemma_cleaned_leaves_filled(mid2, old_focus, self.surfaces@, self.focused_surface, src.node_path());
                    }
                }
            },
        }
    }
}


/// The surfaces of `ss` that are not unused slots, in order.
pub open spec fn non_empty<Tab>(ss: Seq<Surface<Tab>>) -> Seq<Surface<Tab>>
    decreases ss.len(),
{
    if ss.len() == 0 {
        Seq::empty()
    } else if ss.last() is Empty {
        non_empty(ss.drop_last())
    } else {
        non_empty(ss.drop_last()).push(ss.last())
    }
}

/// `idx` lists, in increasing order, exactly the positions of `ss` in use.
pub open spec fn used_positions<Tab>(idx: Seq<int>, ss: Seq<Surface<Tab>>) -> bool {
    &&& forall|k: int| 0 <= k < idx.len() ==> 0 <= #[trigger] idx[k] < ss.len() && !(ss[idx[k]] is Empty)
    &&& forall|a: int, b: int| 0 <= a < b < idx.len() ==> #[trigger] idx[a] < #[trigger] idx[b]
    &&& forall|i: int| 0 <= i < ss.len() && !(#[trigger] ss[i] is Empty) ==> idx.contains(i)
}

/// Dropping the unused slots keeps every surface in use, once, in its order.
pub proof fn lemma_non_empty_in_order<Tab>(ss: Seq<Surface<Tab>>)
    ensures
        exists|idx: Seq<int>| #[trigger] used_positions(idx, ss) && idx.len() == non_empty(ss).len()
            && forall|k: int| 0 <= k < idx.len() ==> #[trigger] non_empty(ss)[k] == ss[idx[k]],
    decreases ss.len(),
{
    if ss.len() == 0 {
        let idx = Seq::<int>::empty();
        assert(used_positions(idx, ss));
    } else {
        let d = ss.drop_last();
        lemma_non_empty_in_order(d);
        let idx0 = choose|idx: Seq<int>| #[trigger] used_positions(idx, d) && idx.len() == non_empty(d).len()
            && forall|k: int| 0 <= k < idx.len() ==> #[trigger] non_empty(d)[k] == d[idx[k]];
        let n = ss.len() - 1;
        if !(ss.last() is Empty) {
            let idx = idx0.push(n);
            assert forall|k: int| 0 <= k < idx.len() implies 0 <= #[trigger] idx[k] < ss.len() && !(ss[idx[k]] is Empty) by {
                if k < idx0.len() {
                    assert(idx[k] == idx0[k]);
                    assert(!(d[idx0[k]] is Empty));
                }
            }
            assert forall|a: int, b: int| 0 <= a < b < idx.len() implies #[trigger] idx[a] < #[trigger] idx[b] by {
                assert(idx[a] == idx0[a]);
                if b < idx0.len() {
                    assert(idx[b] == idx0[b]);
                }
            }
            assert forall|i: int| 0 <= i < ss.len() && !(#[trigger] ss[i] is Empty) implies idx.contains(i) by {
                if i < n {
                    assert(!(d[i] is Empty));
                    let k = choose|k: int| 0 <= k < idx0.len() && idx0[k] == i;
                    assert(idx[k] == idx0[k]);
                } else {
                    assert(idx[idx.len() - 1] == i);
                }
            }
            assert forall|k: int| 0 <= k < idx.len() implies #[trigger] non_empty(ss)[k] == ss[idx[k]] by {
                if k < idx0.len() {
                    assert(idx[k] == idx0[k]);
                    assert(non_empty(d)[k] == d[idx0[k]]);
                }
            }
            assert(used_positions(idx, ss));
        } else {
            let idx = idx0;
            assert forall|k: int| 0 <= k < idx.len() implies 0 <= #[trigger] idx[k] < ss.len() && !(ss[idx[k]] is Empty) by {
                assert(!(d[idx0[k]] is Empty));
            }
            assert forall|i: int| 0 <= i < ss.len() && !(#[trigger] ss[i] is Empty) implies idx.contains(i) by {
                assert(!(d[i] is Empty));
            }
            assert forall|k: int| 0 <= k < idx.len() implies #[trigger] non_empty(ss)[k] == ss[idx[k]] by {
                assert(non_empty(d)[k] == d[idx0[k]]);
            }
            assert(used_positions(idx, ss));
        }
    }
}

/// The surfaces kept by `non_empty` come from `ss`, the first one first.
proof fn lemma_non_empty<Tab>(ss: Seq<Surface<Tab>>)
    ensures
        forall|k: int| 0 <= k < non_empty(ss).len() ==> exists|j: int| 0 <= j < ss.len() && #[trigger] non_empty(ss)[k] == ss[j],
        ss.len() > 0 && !(ss[0] is Empty) ==> non_empty(ss).len() > 0 && non_empty(ss)[0] == ss[0],
    decreases ss.len(),
{
    if ss.len() > 0 {
        let d = ss.drop_last();
        lemma_non_empty(d);
        assert forall|k: int| 0 <= k < non_empty(ss).len() implies exists|j: int| 0 <= j < ss.len() && #[trigger] non_empty(ss)[k] == ss[j] by {
            if k < non_empty(d).len() {
                let j = choose|j: int| 0 <= j < d.len() && #[trigger] non_empty(d)[k] == d[j];
                assert(ss[j] == d[j]);
            } else {
                assert(non_empty(ss)[k] == ss[ss.len() - 1]);
            }
        }
        if ss.len() > 1 && !(ss[0] is Empty) {
            assert(d[0] == ss[0]);
        }
    }
}

/// What every surface kept by `f` gives the dock: the tabs left are what `f` kept of
/// the tabs before.
proof fn lemma_all_retained_kept_by<Tab, F: Fn(&Tab) -> bool>(f: F, old: Seq<Surface<Tab>>, new: Seq<Surface<Tab>>)
    requires
        new.len() == old.len(),
        forall|i: int| 0 <= i < old.len() ==> surface_retained(f, #[trigger] old[i], new[i]),
    ensures
        crate::tree::kept_by(f, all_tabs(old), all_tabs(new)),
    decreases old.len(),
{
    crate::tree::lemma_kept_by_empty::<Tab, F>(f);
    if old.len() > 0 {
        let n = old.len() - 1;
        assert forall|i: int| 0 <= i < old.drop_last().len() implies surface_retained(f, #[trigger] old.drop_last()[i], new.drop_last()[i]) by {
            assert(surface_retained(f, old[i], new[i]));
        }
        lemma_all_retained_kept_by(f, old.drop_last(), new.drop_last());
        assert(surface_retained(f, old[n], new[n]));
        match old[n] {
            Surface::Empty => {
                assert(surface_tabs(old[n]) =~= Multiset::empty());
                assert(surface_tabs(new[n]) =~= Multiset::empty());
            },
            Surface::Main(t) => {
                let m = choose|m: Seq<crate::node::Node<Tab>>| #[trigger] crate::tree::nodes_retained(f, t.node_seq(), m)
                    && surface_tabs(new[n]) =~= crate::shape::shape_tabs(crate::shape::shape(m, 0)) && crate::surface::pruned_to(new[n], m);
                crate::tree::lemma_nodes_retained_kept_by(f, t.node_seq(), m, 0);
            },
            Surface::Window(t, _) => {
                let m = choose|m: Seq<crate::node::Node<Tab>>| #[trigger] crate::tree::nodes_retained(f, t.node_seq(), m)
                    && surface_tabs(new[n]) =~= crate::shape::shape_tabs(crate::shape::shape(m, 0)) && crate::surface::pruned_to(new[n], m)
                    && (new[n] is Empty <==> crate::shape::shape_tabs(crate::shape::shape(m, 0)).len() == 0);
                crate::tree::lemma_nodes_retained_kept_by(f, t.node_seq(), m, 0);
            },
        }
        crate::tree::lemma_kept_by_add(f, all_tabs(old.drop_last()), all_tabs(new.drop_last()), surface_tabs(old[n]), surface_tabs(new[n]));
    }
}

impl<Tab> DockState<Tab> {
    /// A dock whose tabs are the `Some` results of `function` on the tabs of `self`.
    ///
    /// Leaves left without tabs are removed, and so are windows left without tabs.
    pub fn filter_map_tabs<NewTab, F: Fn(&Tab) -> Option<NewTab>>(&self, function: F) -> (r: DockState<NewTab>)
        requires
            self.wf(),
            forall|t: &Tab| function.requires((t,)),
        ensures
            r.wf(),
            r.focused() == self.focused(),
            r.texts() == self.texts(),
            exists|ms: Seq<Surface<NewTab>>|
                ms.len() == self.surface_seq().len()
                && (forall|i: int| 0 <= i < ms.len() ==> surface_filter_mapped(outcomes(function), #[trigger] self.surface_seq()[i], ms[i]))
                && r.surface_seq() == non_empty(ms),
    {
        let mut surfaces: Vec<Surface<NewTab>> = Vec::new();
        let ghost mut ms: Seq<Surface<NewTab>> = Seq::empty();
        let mut i: usize = 0;
        while i < self.surfaces.len()
            invariant
                i <= self.surfaces@.len(),
                ms.len() == i,
                self.wf(),
                forall|t: &Tab| function.requires((t,)),
                forall|j: int| 0 <= j < i ==> surface_filter_mapped(outcomes(function), #[trigger] self.surfaces@[j], ms[j]),
                surfaces@ == non_empty(ms),
            decreases self.surfaces@.len() - i,
        {
            proof {
                assert(surface_wf(self.surfaces@[i as int]));
            }
            let s = self.surfaces[i].filter_map_tabs(&function);
            let ghost prev = ms;
            proof {
                ms = ms.push(s);
                assert(ms.drop_last() =~= prev);
            }
            if !s.is_empty() {
                surfaces.push(s);
            }
            i += 1;
        }
        proof {
            lemma_non_empty(ms);
            assert(surface_filter_mapped(outcomes(function), self.surfaces@[0], ms[0]));
            assert forall|k: int| 0 <= k < surfaces@.len() implies surface_wf(#[trigger] surfaces@[k]) by {
                let j = choose|j: int| 0 <= j < ms.len() && #[trigger] non_empty(ms)[k] == ms[j];
                assert(surface_filter_mapped(outcomes(function), self.surfaces@[j], ms[j]));
            }
        }
        DockState { surfaces, focused_surface: self.focused_surface, translations: self.translations.clone() }
    }

    /// A dock whose tabs are those of `self` mapped by `function`.
    ///
    /// Leaves without tabs are removed, and so are windows left without tabs.
    pub fn map_tabs<NewTab, F: Fn(&Tab) -> NewTab>(&self, function: F) -> (r: DockState<NewTab>)
        requires
            self.wf(),
            forall|t: &Tab| function.requires((t,)),
        ensures
            r.wf(),
            r.focused() == self.focused(),
            r.texts() == self.texts(),
            exists|ms: Seq<Surface<NewTab>>|
                ms.len() == self.surface_seq().len()
                && (forall|i: int| 0 <= i < ms.len() ==> surface_mapped(outcomes(function), #[trigger] self.surface_seq()[i], ms[i]))
                && r.surface_seq() == non_empty(ms),
    {
        let mut surfaces: Vec<Surface<NewTab>> = Vec::new();
        let ghost mut ms: Seq<Surface<NewTab>> = Seq::empty();
        let mut i: usize = 0;
        while i < self.surfaces.len()
            invariant
                i <= self.surfaces@.len(),
                ms.len() == i,
                self.wf(),
                forall|t: &Tab| function.requires((t,)),
                forall|j: int| 0 <= j < i ==> surface_mapped(outcomes(function), #[trigger] self.surfaces@[j], ms[j]),
                surfaces@ == non_empty(ms),
            decreases self.surfaces@.len() - i,
        {
            proof {
                assert(surface_wf(self.surfaces@[i as int]));
            }
            let s = self.surfaces[i].map_tabs(&function);
            let ghost prev = ms;
            proof {
                ms = ms.push(s);
                assert(ms.drop_last() =~= prev);
            }
            if !s.is_empty() {
                surfaces.push(s);
            }
            i += 1;
        }
        proof {
            lemma_non_empty(ms);
            assert(surface_mapped(outcomes(function), self.surfaces@[0], ms[0]));
            assert forall|k: int| 0 <= k < surfaces@.len() implies surface_wf(#[trigger] surfaces@[k]) by {
                let j = choose|j: int| 0 <= j < ms.len() && #[trigger] non_empty(ms)[k] == ms[j];
                assert(surface_mapped(outcomes(function), self.surfaces@[j], ms[j]));
            }
        }
        DockState { surfaces, focused_surface: self.focused_surface, translations: self.translations.clone() }
    }

    /// Keeps the tabs for which `predicate` holds. The predicate reads each tab and
    /// cannot change it.
    ///
    /// Leaves left without tabs are removed, and a window left without tabs becomes an
    /// unused slot; the main surface always stays, and every other surface keeps its index.
    pub fn retain_tabs<F: Fn(&Tab) -> bool>(&mut self, predicate: F)
        requires
            old(self).wf(),
            forall|t: &Tab| predicate.requires((t,)),
        ensures
            final(self).wf(),
            final(self).focused() == old(self).focused(),
            final(self).texts() == old(self).texts(),
            crate::tree::kept_by(predicate, old(self).tabs(), final(self).tabs()),
            final(self).surface_seq().len() == old(self).surface_seq().len(),
            forall|i: int| 0 <= i < old(self).surface_seq().len()
                ==> surface_retained(predicate, #[trigger] old(self).surface_seq()[i], final(self).surface_seq()[i]),
    {
        let ghost old_seq = self.surfaces@;
        let ghost focus = self.focused_surface;
        let ghost texts = self.translations;
        let n = self.surfaces.len();
        let mut i: usize = 0;
        while i < n
            invariant
                n == self.surfaces@.len(),
                n == old_seq.len(),
                i <= n,
                surfaces_wf(old_seq),
                self.focused_surface == focus,
                self.translations == texts,
                forall|j: int| i <= j < n ==> self.surfaces@[j] == old_seq[j],
                forall|t: &Tab| predicate.requires((t,)),
                forall|j: int| 0 <= j < i ==> surface_retained(predicate, #[trigger] old_seq[j], self.surfaces@[j]),
            decreases n - i,
        {
            let mut s = swap_surface(&mut self.surfaces, i, Surface::Empty);
            proof {
                assert(surface_wf(old_seq[i as int]));
            }
            s.retain_tabs(&predicate);
            let _ = swap_surface(&mut self.surfaces, i, s);
            i += 1;
        }
        proof {
            lemma_all_retained_kept_by(predicate, old_seq, self.surfaces@);
            assert(surface_retained(predicate, old_seq[0], self.surfaces@[0]));
            assert forall|k: int| 0 <= k < self.surfaces@.len() implies surface_wf(#[trigger] self.surfaces@[k]) by {
                assert(surface_retained(predicate, old_seq[k], self.surfaces@[k]));
            }
        }
    }
}


/// What a filter that clones the tabs for which `predicate` holds may give.
pub open spec fn clone_if<Tab: Clone, F: Fn(&Tab) -> bool>(predicate: F) -> spec_fn(Tab, Option<Tab>) -> bool {
    |a: Tab, o: Option<Tab>|
        match o {
            Some(x) => predicate.ensures((&a,), true) && vstd::pervasive::cloned(a, x),
            None => predicate.ensures((&a,), false),
        }
}

/// The tab at `(s, n, t)` comes before `(s2, n2, t2)`: by surface, then node, then tab.
pub open spec fn path_before(s: int, n: int, t: int, s2: int, n2: int, t2: int) -> bool {
    s < s2 || (s == s2 && crate::tree::tab_before(n, t, n2, t2))
}

/// `path_before` orders tab paths by surface, then node, then tab: a strict total order.
pub proof fn lemma_path_before_order(s1: int, n1: int, t1: int, s2: int, n2: int, t2: int, s3: int, n3: int, t3: int)
    ensures
        !path_before(s1, n1, t1, s1, n1, t1),
        (s1, n1, t1) != (s2, n2, t2) ==> path_before(s1, n1, t1, s2, n2, t2) || path_before(s2, n2, t2, s1, n1, t1),
        path_before(s1, n1, t1, s2, n2, t2) ==> !path_before(s2, n2, t2, s1, n1, t1),
        path_before(s1, n1, t1, s2, n2, t2) && path_before(s2, n2, t2, s3, n3, t3) ==> path_before(s1, n1, t1, s3, n3, t3),
        s1 < s2 ==> path_before(s1, n1, t1, s2, n2, t2),
        s1 == s2 && n1 < n2 ==> path_before(s1, n1, t1, s2, n2, t2),
{
}

impl<Tab> DockState<Tab> {
    /// A dock holding clones of the tabs for which `predicate` holds.
    ///
    /// Leaves left without tabs are removed, and so are windows left without tabs.
    pub fn filter_tabs<F: Fn(&Tab) -> bool>(&self, predicate: F) -> (r: DockState<Tab>) where Tab: Clone
        requires
            self.wf(),
            forall|t: &Tab| predicate.requires((t,)),
        ensures
            r.wf(),
            r.focused() == self.focused(),
            r.texts() == self.texts(),
            exists|ms: Seq<Surface<Tab>>|
                ms.len() == self.surface_seq().len()
                && (forall|i: int| 0 <= i < ms.len() ==> surface_filter_mapped(clone_if(predicate), #[trigger] self.surface_seq()[i], ms[i]))
                && r.surface_seq() == non_empty(ms),
    {
        let pr = &predicate;
        let g = |t: &Tab| -> (o: Option<Tab>)
            requires
                pr.requires((t,)),
            ensures
                clone_if(pr)(*t, o),
            {
                if pr(t) {
                    Some(t.clone())
                } else {
                    None
                }
            };
        let r = self.filter_map_tabs(g);
        proof {
            let ms = choose|ms: Seq<Surface<Tab>>|
                ms.len() == self.surface_seq().len()
                && (forall|i: int| 0 <= i < ms.len() ==> surface_filter_mapped(outcomes(g), #[trigger] self.surface_seq()[i], ms[i]))
                && r.surface_seq() == non_empty(ms);
            assert forall|i: int| 0 <= i < ms.len() implies surface_filter_mapped(clone_if(predicate), #[trigger] self.surface_seq()[i], ms[i]) by {
                assert(surface_filter_mapped(outcomes(g), self.surface_seq()[i], ms[i]));
                let t = surface_tree(self.surface_seq()[i]);
                if let Some(tt) = t {
                    let m = choose|m| #[trigger] crate::tree::nodes_filter_mapped_by(outcomes(g), tt.node_seq(), m) && surface_tabs(ms[i]) =~= crate::shape::shape_tabs(crate::shape::shape(m, 0))
                        && crate::surface::pruned_to(ms[i], m);
                    lemma_by_weaker(outcomes(g), clone_if(predicate), tt.node_seq(), m);
                }
            }
        }
        r
    }

    /// Finds the first tab, by surface, then node, then position, for which `predicate` holds.
    pub fn find_tab_from<F: Fn(&Tab) -> bool>(&self, predicate: F) -> (r: Option<TabPath>)
        requires
            forall|t: &Tab| predicate.requires((t,)),
        ensures
            r matches Some(p) ==> {
                &&& tab_error(self.surface_seq(), p) is None
                &&& predicate.ensures((&node_tabs(node_at(self.surface_seq(), p.node_path()))[p.tab.0 as int],), true)
                &&& forall|p2: TabPath| tab_error(self.surface_seq(), p2) is None
                    && path_before(p2.surface.0 as int, p2.node.0 as int, p2.tab.0 as int, p.surface.0 as int, p.node.0 as int, p.tab.0 as int)
                    ==> predicate.ensures((&node_tabs(node_at(self.surface_seq(), p2.node_path()))[p2.tab.0 as int],), false)
            },
            r is None ==> forall|p2: TabPath| tab_error(self.surface_seq(), p2) is None
                ==> predicate.ensures((&node_tabs(node_at(self.surface_seq(), p2.node_path()))[p2.tab.0 as int],), false),
    {
        let mut i: usize = 0;
        while i < self.surfaces.len()
            invariant
                i <= self.surfaces@.len(),
                forall|t: &Tab| predicate.requires((t,)),
                forall|p2: TabPath| tab_error(self.surfaces@, p2) is None && p2.surface.0 < i
                    ==> predicate.ensures((&node_tabs(node_at(self.surfaces@, p2.node_path()))[p2.tab.0 as int],), false),
            decreases self.surfaces@.len() - i,
        {
            match self.surfaces[i].node_tree() {
                None => {},
                Some(tree) => {
                    match tree.find_tab_from(&predicate) {
                        Some((node, tab)) => {
                            let p = TabPath::new(SurfaceIndex(i), node, tab);
                            proof {
                                assert forall|p2: TabPath| tab_error(self.surfaces@, p2) is None
                                    && path_before(p2.surface.0 as int, p2.node.0 as int, p2.tab.0 as int, p.surface.0 as int, p.node.0 as int, p.tab.0 as int)
                                    implies predicate.ensures((&node_tabs(node_at(self.surfaces@, p2.node_path()))[p2.tab.0 as int],), false) by {
                                    if p2.surface.0 == i {
                                        assert(crate::tree::valid_tab(tree.node_seq(), p2.node.0 as int, p2.tab.0 as int));
                                    }
                                }
                            }
                            return Some(p);
                        },
                        None => {
                            proof {
                                assert forall|p2: TabPath| tab_error(self.surfaces@, p2) is None && p2.surface.0 < i + 1
                                    implies predicate.ensures((&node_tabs(node_at(self.surfaces@, p2.node_path()))[p2.tab.0 as int],), false) by {
                                    if p2.surface.0 == i {
                                        assert(crate::tree::valid_tab(tree.node_seq(), p2.node.0 as int, p2.tab.0 as int));
                                    }
                                }
                            }
                        },
                    }
                },
            }
            i += 1;
        }
        None
    }

    /// Finds the first tab equal to `needle_tab`, by surface, then node, then position.
    pub fn find_tab(&self, needle_tab: &Tab) -> (r: Option<TabPath>) where Tab: PartialEq
        ensures
            r matches Some(p) ==> tab_error(self.surface_seq(), p) is None,
            Tab::obeys_eq_spec() ==> (r matches Some(p) ==> {
                &&& node_tabs(node_at(self.surface_seq(), p.node_path()))[p.tab.0 as int].eq_spec(needle_tab)
                &&& forall|p2: TabPath| tab_error(self.surface_seq(), p2) is None
                    && path_before(p2.surface.0 as int, p2.node.0 as int, p2.tab.0 as int, p.surface.0 as int, p.node.0 as int, p.tab.0 as int)
                    ==> !node_tabs(node_at(self.surface_seq(), p2.node_path()))[p2.tab.0 as int].eq_spec(needle_tab)
            }),
            Tab::obeys_eq_spec() ==> (r is None ==> forall|p2: TabPath| tab_error(self.surface_seq(), p2) is None
                ==> !node_tabs(node_at(self.surface_seq(), p2.node_path()))[p2.tab.0 as int].eq_spec(needle_tab)),
    {
        let mut i: usize = 0;
        while i < self.surfaces.len()
            invariant
                i <= self.surfaces@.len(),
                Tab::obeys_eq_spec() ==> forall|p2: TabPath| tab_error(self.surfaces@, p2) is None && p2.surface.0 < i
                    ==> !node_tabs(node_at(self.surfaces@, p2.node_path()))[p2.tab.0 as int].eq_spec(needle_tab),
            decreases self.surfaces@.len() - i,
        {
            match self.surfaces[i].node_tree() {
                None => {},
                Some(tree) => {
                    match tree.find_tab(needle_tab) {
                        Some((node, tab)) => {
                            let p = TabPath::new(SurfaceIndex(i), node, tab);
                            proof {
                                if Tab::obeys_eq_spec() {
                                    assert forall|p2: TabPath| tab_error(self.surfaces@, p2) is None
                                        && path_before(p2.surface.0 as int, p2.node.0 as int, p2.tab.0 as int, p.surface.0 as int, p.node.0 as int, p.tab.0 as int)
                                        implies !node_tabs(node_at(self.surfaces@, p2.node_path()))[p2.tab.0 as int].eq_spec(needle_tab) by {
                                        if p2.surface.0 == i {
                                            assert(crate::tree::valid_tab(tree.node_seq(), p2.node.0 as int, p2.tab.0 as int));
                                        }
                                    }
                                }
                            }
                            return Some(p);
                        },
                        None => {
                            proof {
                                if Tab::obeys_eq_spec() {
                                    assert forall|p2: TabPath| tab_error(self.surfaces@, p2) is None && p2.surface.0 < i + 1
                                        implies !node_tabs(node_at(self.surfaces@, p2.node_path()))[p2.tab.0 as int].eq_spec(needle_tab) by {
                                        if p2.surface.0 == i {
                                            assert(crate::tree::valid_tab(tree.node_seq(), p2.node.0 as int, p2.tab.0 as int));
                                        }
                                    }
                                }
                            }
                        },
                    }
                },
            }
            i += 1;
        }
        None
    }

    /// Finds the first tab of the main surface equal to `needle_tab`, by node, then position.
    pub fn find_main_surface_tab(&self, needle_tab: &Tab) -> (r: Option<(NodeIndex, TabIndex)>) where Tab: PartialEq
        requires
            self.wf(),
        ensures
            r matches Some((n, t)) ==> crate::tree::valid_tab(self.tree_at(0).node_seq(), n.0 as int, t.0 as int),
            Tab::obeys_eq_spec() ==> (r matches Some((n, t)) ==> {
                &&& crate::tree::tab_at(self.tree_at(0).node_seq(), n.0 as int, t.0 as int).eq_spec(needle_tab)
                &&& forall|n2: int, t2: int|
                    crate::tree::valid_tab(self.tree_at(0).node_seq(), n2, t2) && crate::tree::tab_before(n2, t2, n.0 as int, t.0 as int)
                    ==> !crate::tree::tab_at(self.tree_at(0).node_seq(), n2, t2).eq_spec(needle_tab)
            }),
            Tab::obeys_eq_spec() ==> (r is None ==> forall|n2: int, t2: int|
                crate::tree::valid_tab(self.tree_at(0).node_seq(), n2, t2) ==> !crate::tree::tab_at(self.tree_at(0).node_seq(), n2, t2).eq_spec(needle_tab)),
    {
        self.main_surface().find_tab(needle_tab)
    }
}

/// A weaker allowance of outcomes carries over.
proof fn lemma_by_weaker<A, B>(ok1: spec_fn(A, Option<B>) -> bool, ok2: spec_fn(A, Option<B>) -> bool, s: Seq<Node<A>>, m: Seq<Node<B>>)
    requires
        crate::tree::nodes_filter_mapped_by(ok1, s, m),
        forall|a: A, o: Option<B>| #[trigger] ok1(a, o) ==> ok2(a, o),
    ensures
        crate::tree::nodes_filter_mapped_by(ok2, s, m),
{
    assert forall|j: int| 0 <= j < s.len() implies crate::tree::same_kind(#[trigger] s[j], m[j]) && (s[j] is Leaf ==> crate::tree::filter_mapped_by(
        ok2,
        node_tabs(s[j]),
        node_tabs(m[j]),
    )) by {
        assert(crate::tree::same_kind(s[j], m[j]));
        if s[j] is Leaf {
            let cs = choose|cs: Seq<Option<B>>|
                #![trigger crate::tree::somes(cs)]
                cs.len() == node_tabs(s[j]).len() && (forall|k: int| 0 <= k < node_tabs(s[j]).len() ==> ok1(node_tabs(s[j])[k], cs[k])) && node_tabs(m[j]) == crate::tree::somes(cs);
            assert forall|k: int| 0 <= k < node_tabs(s[j]).len() implies ok2(node_tabs(s[j])[k], cs[k]) by {
                assert(ok1(node_tabs(s[j])[k], cs[k]));
            }
        }
    }
}

} // verus!
