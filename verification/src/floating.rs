//! Windows that float inside a viewport, and the drops that are queued while a tab is
//! dragged between viewports.
use vstd::prelude::*;

use crate::destination::TabDestination;
use crate::dock_state::{first_empty_from, node_at, tab_error, DockState};
use crate::drag_and_drop::WindowDropKind;
use crate::index::TabPath;
use crate::index::{NodeIndex, SurfaceIndex};
use crate::node::node_tabs;
use crate::surface::{surface_tree, Surface};

verus! {

/// How a tab torn off mid-drag is shown while the drag goes on.
#[derive(Clone, Copy, Debug, PartialEq, Eq, Structural)]
pub enum GhostDragMode {
    /// In a native viewport of its own.
    Native,
    /// As a panel floating inside the viewport it was dragged from.
    ContainedFloating,
}

/// A drop decided on pointer release, applied once every surface has reported where it
/// lies.
#[derive(Clone, Copy, Debug, PartialEq, Eq)]
pub enum PendingDrop<R> {
    /// A drag within this dock, with the destination read in the releasing frame.
    Tab { destination: Option<TabDestination<R>> },
    /// A drag between viewports; its destination is read again when applied, and
    /// `fallback_destination` is used if that fails.
    CrossViewport { fallback_destination: Option<TabDestination<R>> },
}

/// The stacking rank of surface `s`: that of its window, 0 for any other surface.
pub open spec fn z_key<Tab>(ss: Seq<Surface<Tab>>, s: SurfaceIndex) -> int {
    if s.0 < ss.len() && ss[s.0 as int] is Window {
        ss[s.0 as int]->Window_1.z_rank() as int
    } else {
        0
    }
}

/// `new` holds the entries of `old` moved to the places given by `perm`: entry `k` of
/// `new` is entry `perm[k]` of `old`, every entry is used once, and entries with equal
/// ranks keep their order.
pub open spec fn stable_rearrangement<Tab>(ss: Seq<Surface<Tab>>, old: Seq<SurfaceIndex>, new: Seq<SurfaceIndex>, perm: Seq<int>) -> bool {
    &&& perm.len() == old.len()
    &&& new.len() == old.len()
    &&& forall|k: int| 0 <= k < perm.len() ==> 0 <= #[trigger] perm[k] < old.len() && new[k] == old[perm[k]]
    &&& forall|a: int, b: int| 0 <= a < b < perm.len() ==> #[trigger] perm[a] != #[trigger] perm[b]
    &&& forall|a: int, b: int| 0 <= a < b < perm.len() && z_key(ss, new[a]) == z_key(ss, new[b]) ==> #[trigger] perm[a] < #[trigger] perm[b]
}

/// The entries of `s` come by increasing rank.
pub open spec fn sorted_by_rank<Tab>(ss: Seq<Surface<Tab>>, s: Seq<SurfaceIndex>) -> bool {
    forall|a: int, b: int| 0 <= a < b < s.len() ==> z_key(ss, #[trigger] s[a]) <= z_key(ss, #[trigger] s[b])
}

/// The highest rank among the first `n` floating windows for which `same_host` holds.
pub open spec fn max_floating_rank<Tab>(ss: Seq<Surface<Tab>>, same_host: Seq<bool>, n: int) -> int
    decreases n,
{
    if n <= 0 {
        0
    } else {
        let m = max_floating_rank(ss, same_host, n - 1);
        let i = n - 1;
        if i != 0 && ss[i] is Window && ss[i]->Window_1.floating() && same_host[i] {
            let z = ss[i]->Window_1.z_rank() as int;
            if z > m {
                z
            } else {
                m
            }
        } else {
            m
        }
    }
}

/// Surface `j` is a window other than the main surface, floating in the viewport that
/// `same_host` picks.
pub open spec fn floats_in_host<Tab>(ss: Seq<Surface<Tab>>, same_host: Seq<bool>, j: int) -> bool {
    &&& 0 < j < ss.len()
    &&& ss[j] is Window
    &&& ss[j]->Window_1.floating()
    &&& same_host[j]
}

/// The highest rank among the floating windows of a viewport is at least the rank of
/// each of them, and is the rank of one of them, or 0 when there is none.
pub proof fn lemma_max_floating_rank<Tab>(ss: Seq<Surface<Tab>>, same_host: Seq<bool>, n: int)
    requires
        0 <= n <= ss.len(),
    ensures
        forall|j: int| 0 <= j < n && #[trigger] floats_in_host(ss, same_host, j)
            ==> ss[j]->Window_1.z_rank() <= max_floating_rank(ss, same_host, n),
        max_floating_rank(ss, same_host, n) == 0 || exists|j: int| 0 <= j < n && #[trigger] floats_in_host(ss, same_host, j)
            && ss[j]->Window_1.z_rank() == max_floating_rank(ss, same_host, n),
        0 <= max_floating_rank(ss, same_host, n) <= u32::MAX,
    decreases n,
{
    if n > 0 {
        lemma_max_floating_rank(ss, same_host, n - 1);
        if floats_in_host(ss, same_host, n - 1) {
            assert(floats_in_host(ss, same_host, n - 1));
        }
    }
}

/// Number of tabs in the first `n` node slots of `t`.
pub open spec fn tabs_in_first<Tab>(t: crate::tree::Tree<Tab>, n: int) -> int
    decreases n,
{
    if n <= 0 {
        0
    } else {
        tabs_in_first(t, n - 1) + node_tabs(t.node_seq()[n - 1]).len()
    }
}

/// The tabs counted over the first `n` node slots are as many as the tabs at those slots.
proof fn lemma_tabs_in_first_count<Tab>(t: crate::tree::Tree<Tab>, n: int)
    requires
        0 <= n <= t.node_seq().len(),
    ensures
        tabs_in_first(t, n) == crate::shape::subtree_tabs(t.node_seq(), 0, n).len(),
    decreases n,
{
    broadcast use vstd::seq_lib::group_to_multiset_ensures;
    broadcast use vstd::multiset::group_multiset_axioms;

    if n > 0 {
        lemma_tabs_in_first_count(t, n - 1);
        crate::shape::lemma_subtree_root(n - 1);
    }
}

/// Counting the tabs slot by slot gives the number of tabs of a well-formed tree.
pub proof fn lemma_tabs_in_first_all<Tab>(t: crate::tree::Tree<Tab>)
    requires
        t.wf(),
    ensures
        tabs_in_first(t, t.node_seq().len() as int) == t.tabs().len(),
{
    broadcast use vstd::multiset::group_multiset_axioms;

    lemma_tabs_in_first_count(t, t.node_seq().len() as int);
    if t.node_seq().len() > 0 {
        crate::shape::lemma_subtree_tabs_shape(t.node_seq(), 0);
    } else {
        assert(crate::shape::subtree_tabs(t.node_seq(), 0, 0) =~= vstd::multiset::Multiset::empty());
        assert(crate::shape::shape(t.node_seq(), 0) == crate::shape::Shape::<Tab>::Nil);
    }
}

/// The first leaf of `t` at or after index `i`, or the number of node slots.
pub open spec fn first_leaf_from<Tab>(t: crate::tree::Tree<Tab>, i: int) -> int
    decreases t.node_seq().len() - i,
{
    if i < 0 || i >= t.node_seq().len() {
        t.node_seq().len() as int
    } else if t.node_seq()[i] is Leaf {
        i
    } else {
        first_leaf_from(t, i + 1)
    }
}

/// The first leaf from `i` on is a leaf, or the number of node slots, and no slot
/// before it from `i` on is a leaf.
pub proof fn lemma_first_leaf_from<Tab>(t: crate::tree::Tree<Tab>, i: int)
    requires
        0 <= i,
    ensures
        first_leaf_from(t, i) <= t.node_seq().len(),
        i <= t.node_seq().len() ==> i <= first_leaf_from(t, i),
        first_leaf_from(t, i) < t.node_seq().len() ==> t.node_seq()[first_leaf_from(t, i)] is Leaf,
        forall|j: int| i <= j < first_leaf_from(t, i) ==> !(#[trigger] t.node_seq()[j] is Leaf),
    decreases t.node_seq().len() - i,
{
    if i < t.node_seq().len() && !(t.node_seq()[i] is Leaf) {
        lemma_first_leaf_from(t, i + 1);
    }
}

impl<Tab> DockState<Tab> {
    /// The stacking rank of surface `s`.
    fn z_rank_of(&self, s: SurfaceIndex) -> (r: u32)
        ensures
            r == z_key(self.surface_seq(), s),
    {
        match self.get_surface(s) {
            Some(Surface::Window(_, ws)) => ws.floating_z_rank(),
            _ => 0,
        }
    }

    /// Orders `surfaces` by increasing stacking rank, keeping the order of surfaces of
    /// equal rank.
    pub fn sort_contained_floating_surfaces(&self, surfaces: &mut Vec<SurfaceIndex>)
        requires
            forall|k: int| 0 <= k < old(surfaces)@.len() ==> (#[trigger] old(surfaces)@[k]).0 < self.surface_seq().len(),
        ensures
            sorted_by_rank(self.surface_seq(), final(surfaces)@),
            exists|perm: Seq<int>| stable_rearrangement(self.surface_seq(), old(surfaces)@, final(surfaces)@, perm),
    {
        let ghost ss = self.surface_seq();
        let ghost input = surfaces@;
        let mut r: Vec<SurfaceIndex> = Vec::new();
        let ghost mut perm: Seq<int> = Seq::empty();
        let mut i: usize = 0;
        while i < surfaces.len()
            invariant
                ss == self.surface_seq(),
                input == surfaces@,
                i <= input.len(),
                perm.len() == i,
                r@.len() == i,
                sorted_by_rank(ss, r@),
                forall|k: int| 0 <= k < i ==> 0 <= #[trigger] perm[k] < i && r@[k] == input[perm[k]],
                forall|a: int, b: int| 0 <= a < b < i ==> #[trigger] perm[a] != #[trigger] perm[b],
                forall|a: int, b: int| 0 <= a < b < i && z_key(ss, r@[a]) == z_key(ss, r@[b]) ==> #[trigger] perm[a] < #[trigger] perm[b],
            decreases input.len() - i,
        {
            let x = surfaces[i];
            let kx = self.z_rank_of(x);
            let mut p: usize = 0;
            while p < r.len() && self.z_rank_of(r[p]) <= kx
                invariant
                    ss == self.surface_seq(),
                    kx == z_key(ss, x),
                    p <= r@.len(),
                    forall|k: int| 0 <= k < p ==> z_key(ss, #[trigger] r@[k]) <= kx,
                decreases r@.len() - p,
            {
                p += 1;
            }
            let ghost old_r = r@;
            let ghost old_perm = perm;
            r.insert(p, x);
            proof {
                perm = old_perm.insert(p as int, i as int);
                assert(p < old_r.len() ==> z_key(ss, old_r[p as int]) > kx);
                assert forall|a: int, b: int| 0 <= a < b < r@.len() implies z_key(ss, #[trigger] r@[a]) <= z_key(ss, #[trigger] r@[b]) by {
                    if b < p {
                        assert(r@[a] == old_r[a] && r@[b] == old_r[b]);
                    } else if b == p {
                        assert(r@[a] == old_r[a]);
                    } else if a < p {
                        assert(r@[a] == old_r[a] && r@[b] == old_r[b - 1]);
                        assert(z_key(ss, old_r[b - 1]) >= z_key(ss, old_r[p as int]));
                    } else if a == p {
                        assert(r@[b] == old_r[b - 1]);
                        assert(z_key(ss, old_r[b - 1]) >= z_key(ss, old_r[p as int]));
                    } else {
                        assert(r@[a] == old_r[a - 1] && r@[b] == old_r[b - 1]);
                    }
                }
                assert forall|k: int| 0 <= k < i + 1 implies 0 <= #[trigger] perm[k] < i + 1 && r@[k] == input[perm[k]] by {
                    if k < p {
                        assert(perm[k] == old_perm[k]);
                    } else if k > p {
                        assert(perm[k] == old_perm[k - 1]);
                    }
                }
                assert forall|a: int, b: int| 0 <= a < b < i + 1 implies #[trigger] perm[a] != #[trigger] perm[b] by {
                    if a < p && b < p {
                        assert(perm[a] == old_perm[a] && perm[b] == old_perm[b]);
                    } else if a < p && b > p {
                        assert(perm[a] == old_perm[a] && perm[b] == old_perm[b - 1]);
                    } else if a > p && b > p {
                        assert(perm[a] == old_perm[a - 1] && perm[b] == old_perm[b - 1]);
                    } else if a == p {
                        assert(perm[b] == old_perm[b - 1]);
                    } else {
                        assert(perm[a] == old_perm[a]);
                    }
                }
                assert forall|a: int, b: int| 0 <= a < b < i + 1 && z_key(ss, r@[a]) == z_key(ss, r@[b]) implies #[trigger] perm[a] < #[trigger] perm[b] by {
                    if a < p && b < p {
                        assert(perm[a] == old_perm[a] && perm[b] == old_perm[b]);
                        assert(r@[a] == old_r[a] && r@[b] == old_r[b]);
                    } else if a < p && b > p {
                        assert(perm[a] == old_perm[a] && perm[b] == old_perm[b - 1]);
                        assert(r@[a] == old_r[a] && r@[b] == old_r[b - 1]);
                        assert(z_key(ss, old_r[b - 1]) >= z_key(ss, old_r[p as int]));
                    } else if a > p && b > p {
                        assert(perm[a] == old_perm[a - 1] && perm[b] == old_perm[b - 1]);
                        assert(r@[a] == old_r[a - 1] && r@[b] == old_r[b - 1]);
                    } else if a == p {
                        assert(r@[b] == old_r[b - 1]);
                        assert(z_key(ss, old_r[b - 1]) >= z_key(ss, old_r[p as int]));
                    } else {
                        assert(perm[a] == old_perm[a]);
                    }
                }
            }
            i += 1;
        }
        proof {
            assert(stable_rearrangement(ss, input, r@, perm));
        }
        *surfaces = r;
    }

    /// Puts the floating window `surface` above every other floating window for which
    /// `same_host` holds, that is: one rank above the highest of them (capped at the
    /// largest rank).
    ///
    /// `same_host[i]` says whether surface `i` is shown in the same viewport.
    pub fn bring_contained_floating_to_front(&mut self, surface: SurfaceIndex, same_host: &Vec<bool>)
        requires
            same_host@.len() == old(self).surface_seq().len(),
        ensures
            final(self).focused() == old(self).focused(),
            final(self).texts() == old(self).texts(),
            (surface.0 < old(self).surface_seq().len() && old(self).surface_seq()[surface.0 as int] is Window) ==> {
                let old_ws = old(self).surface_seq()[surface.0 as int]->Window_1;
                let m = max_floating_rank(old(self).surface_seq(), same_host@, old(self).surface_seq().len() as int);
                &&& final(self).surface_seq().len() == old(self).surface_seq().len()
                &&& forall|j: int| 0 <= j < old(self).surface_seq().len() && j != surface.0 ==> #[trigger] final(self).surface_seq()[j] == old(self).surface_seq()[j]
                &&& final(self).surface_seq()[surface.0 as int] matches Surface::Window(t, ws) && t == old(self).surface_seq()[surface.0 as int]->Window_0
                    && ws.z_rank() == (if m + 1 > u32::MAX { u32::MAX as int } else { m + 1 })
                    && ws.native() == old_ws.native() && ws.floating() == old_ws.floating()
                    && ws.is_minimized_spec() == old_ws.is_minimized_spec()
                &&& forall|j: int| #[trigger] floats_in_host(old(self).surface_seq(), same_host@, j)
                    ==> final(self).surface_seq()[surface.0 as int]->Window_1.z_rank() > old(self).surface_seq()[j]->Window_1.z_rank()
                        || final(self).surface_seq()[surface.0 as int]->Window_1.z_rank() == u32::MAX
                &&& final(self).surface_seq()[surface.0 as int]->Window_1.z_rank() == u32::MAX
                    || final(self).surface_seq()[surface.0 as int]->Window_1.z_rank() == 1
                    || exists|j: int| #[trigger] floats_in_host(old(self).surface_seq(), same_host@, j)
                        && final(self).surface_seq()[surface.0 as int]->Window_1.z_rank() == old(self).surface_seq()[j]->Window_1.z_rank() + 1
            },
            !(surface.0 < old(self).surface_seq().len() && old(self).surface_seq()[surface.0 as int] is Window) ==> *final(self) == *old(self),
    {
        let n = self.surfaces_count();
        let mut max_rank: u32 = 0;
        let mut i: usize = 0;
        while i < n
            invariant
                n == self.surface_seq().len(),
                same_host@.len() == n,
                i <= n,
                max_rank == max_floating_rank(self.surface_seq(), same_host@, i as int),
            decreases n - i,
        {
            if i != 0 {
                match self.get_surface(SurfaceIndex(i)) {
                    Some(Surface::Window(_, ws)) => {
                        if ws.is_floating_in_viewport() && same_host[i] {
                            let z = ws.floating_z_rank();
                            if z > max_rank {
                                max_rank = z;
                            }
                        }
                    },
                    _ => {},
                }
            }
            i += 1;
        }
        proof {
            lemma_max_floating_rank(self.surface_seq(), same_host@, n as int);
        }
        match self.get_window_state_mut(surface) {
            Some(ws) => {
                ws.set_floating_z_rank(max_rank.saturating_add(1));
            },
            None => {},
        }
    }

    /// Moves the tab at `src` into a new window of the given kind: a panel floating in
    /// its viewport, a window drawn inside the viewport, or a native window.
    ///
    /// Returns the index of the new window; its placement on screen is left to the
    /// caller.
    pub fn apply_window_drop(&mut self, src: TabPath, kind: WindowDropKind) -> (r: SurfaceIndex)
        requires
            old(self).wf(),
            tab_error(old(self).surface_seq(), src) is None,
        ensures
            final(self).wf(),
            final(self).tabs() =~= old(self).tabs(),
            final(self).texts() == old(self).texts(),
            r.0 == first_empty_from(old(self).surface_seq(), 1),
            r.0 < final(self).surface_seq().len(),
            final(self).surface_seq()[r.0 as int] is Window,
            final(self).tree_at(r.0 as int).node_seq().len() == 1,
            final(self).tree_at(r.0 as int).node_seq()[0] is Leaf,
            node_tabs(final(self).tree_at(r.0 as int).node_seq()[0]) == seq![node_tabs(node_at(old(self).surface_seq(), src.node_path()))[src.tab.0 as int]],
            crate::tree::single_leaf(final(self).tree_at(r.0 as int), seq![node_tabs(node_at(old(self).surface_seq(), src.node_path()))[src.tab.0 as int]]),
            crate::dock_state::detached(old(self).surface_seq(), old(self).focused(), final(self).surface_seq(), final(self).focused(), src, r.0 as int),
            forall|j: int| 0 <= j < old(self).surface_seq().len() && j < final(self).surface_seq().len() && j != src.surface.0 && j != r.0
                ==> #[trigger] final(self).surface_seq()[j] == old(self).surface_seq()[j],
            ({
                let ws = final(self).surface_seq()[r.0 as int]->Window_1;
                &&& ws.native() == !(kind is ContainedWindow)
                &&& ws.floating() == (kind is FloatingPanel)
                &&& ws.z_rank() == 0
                &&& !ws.is_minimized_spec()
            }),
    {
        let ghost old_seq = self.surface_seq();
        let ghost old_focus = self.focused();
        let surface = self.detach_tab(src);
        let ghost mid = self.surface_seq();
        match kind {
            WindowDropKind::FloatingPanel => {
                let ws = self.get_window_state_mut(surface).unwrap();
                ws.set_floating_in_viewport(true);
            },
            WindowDropKind::ContainedWindow => {
                let ws = self.get_window_state_mut(surface).unwrap();
                ws.set_native_viewport(false);
            },
            WindowDropKind::NativeWindow => {},
        }
        proof {
            let i = surface.0 as int;
            if !(kind is NativeWindow) {
                crate::dock_state::lemma_detached_window_changed(old_seq, old_focus, mid, self.focused(), src, i, self.surface_seq()[i]);
                assert(self.surface_seq() == mid.update(i, self.surface_seq()[i]));
            }
            assert forall|j: int| 0 <= j < self.surface_seq().len() implies crate::surface::surface_wf(#[trigger] self.surface_seq()[j]) by {
                assert(crate::surface::surface_wf(mid[j]));
            }
            if !(kind is NativeWindow) {
                crate::dock_state::lemma_all_tabs_update(mid, i, self.surface_seq()[i]);
                assert(crate::surface::surface_tabs(mid[i]) == crate::surface::surface_tabs(self.surface_seq()[i]));
                assert(self.surface_seq() == mid.update(i, self.surface_seq()[i]));
                let x = self.surface_seq()[i];
                assert forall|v: Tab| #[trigger] self.tabs().count(v) == crate::dock_state::all_tabs(mid).count(v) by {
                    assert(crate::dock_state::all_tabs(mid.update(i, x)).add(crate::surface::surface_tabs(mid[i])).count(v)
                        == crate::dock_state::all_tabs(mid).add(crate::surface::surface_tabs(x)).count(v));
                }
                assert(self.tabs() =~= crate::dock_state::all_tabs(mid));
            }
        }
        surface
    }

    /// Number of tabs in all leaves of the surface at `surface`.
    pub fn window_surface_tab_count(&self, surface: SurfaceIndex) -> (r: usize)
        requires
            self.has_tree(surface.0 as int),
            tabs_in_first(self.tree_at(surface.0 as int), self.tree_at(surface.0 as int).node_seq().len() as int) <= usize::MAX,
        ensures
            r == tabs_in_first(self.tree_at(surface.0 as int), self.tree_at(surface.0 as int).node_seq().len() as int),
            self.tree_at(surface.0 as int).wf() ==> r == self.tree_at(surface.0 as int).tabs().len(),
    {
        proof {
            if self.tree_at(surface.0 as int).wf() {
                lemma_tabs_in_first_all(self.tree_at(surface.0 as int));
            }
        }
        let tree = self.index(surface);
        let n = tree.len();
        let ghost t = *tree;
        let mut count: usize = 0;
        let mut j: usize = 0;
        while j < n
            invariant
                t == self.tree_at(surface.0 as int),
                *tree == t,
                n == t.node_seq().len(),
                j <= n,
                count == tabs_in_first(t, j as int),
                tabs_in_first(t, n as int) <= usize::MAX,
            decreases n - j,
        {
            proof {
                lemma_tabs_in_first_grows(t, j as int + 1, n as int);
            }
            let node = tree.get(NodeIndex(j)).unwrap();
            count = count + node.tabs_count();
            j += 1;
        }
        count
    }

    /// The leaf whose active tab names the window at `surface`: its focused leaf, or
    /// else its first leaf.
    pub fn window_title_leaf(&self, surface: SurfaceIndex) -> (r: NodeIndex)
        requires
            self.wf(),
            self.has_tree(surface.0 as int),
            first_leaf_from(self.tree_at(surface.0 as int), 0) < self.tree_at(surface.0 as int).node_seq().len(),
        ensures
            self.tree_at(surface.0 as int).focus() matches Some(f) ==> r == f,
            self.tree_at(surface.0 as int).focus() is None ==> r.0 == first_leaf_from(self.tree_at(surface.0 as int), 0),
            self.tree_at(surface.0 as int).focus() is None ==> forall|j: int| 0 <= j < r.0 ==> !(#[trigger] self.tree_at(surface.0 as int).node_seq()[j] is Leaf),
            r.0 < self.tree_at(surface.0 as int).node_seq().len(),
            self.tree_at(surface.0 as int).node_seq()[r.0 as int] is Leaf,
    {
        let tree = self.index(surface);
        proof {
            lemma_first_leaf_from(self.tree_at(surface.0 as int), 0);
            assert(crate::surface::surface_wf(self.surface_seq()[surface.0 as int]));
        }
        match tree.focused_leaf() {
            Some(f) => f,
            None => {
                let n = tree.len();
                let mut j: usize = 0;
                while j < n
                    invariant
                        *tree == self.tree_at(surface.0 as int),
                        tree.focus() is None,
                        n == tree.node_seq().len(),
                        j <= n,
                        first_leaf_from(*tree, 0) == first_leaf_from(*tree, j as int),
                        first_leaf_from(*tree, 0) < n,
                        forall|k: int| 0 <= k < j ==> !(#[trigger] tree.node_seq()[k] is Leaf),
                    decreases n - j,
                {
                    if tree.get(NodeIndex(j)).unwrap().is_leaf() {
                        return NodeIndex(j);
                    }
                    j += 1;
                }
                NodeIndex(j)
            },
        }
    }
}

/// What to do with a drop that arrives through the cross-viewport payload.
#[derive(Clone, Copy, Debug, PartialEq, Eq, Structural)]
pub enum CrossDropAction {
    /// Nothing to apply.
    Nothing,
    /// The payload belongs to another dock: put it back for that dock.
    ReturnPayload,
    /// Keep the torn-off ghost as a panel floating in its viewport.
    FinalizeContainedGhost,
    /// Keep the torn-off ghost in its native viewport, placed where it was dropped.
    PlaceNativeGhost,
    /// Make the tab a window of the given kind.
    NewWindow(WindowDropKind),
    /// Move the tab to the (non-window) destination.
    Move,
}

/// The action for a cross-viewport drop: whether a payload is present and belongs to
/// this dock, whether the destination is known and is a new window, how a torn-off
/// ghost (if any) is shown, and the dock's options with the control key.
pub fn cross_viewport_drop_action(
    payload_present: bool,
    payload_ours: bool,
    destination_known: bool,
    destination_is_window: bool,
    ghost: Option<GhostDragMode>,
    tear_off_to_floating_on_ctrl: bool,
    contained_window_on_ctrl: bool,
    ctrl: bool,
) -> (r: CrossDropAction)
    ensures
        r == (if !payload_present {
            CrossDropAction::Nothing
        } else if !payload_ours {
            CrossDropAction::ReturnPayload
        } else if !destination_known {
            CrossDropAction::Nothing
        } else if !destination_is_window {
            CrossDropAction::Move
        } else {
            match ghost {
                Some(GhostDragMode::ContainedFloating) => CrossDropAction::FinalizeContainedGhost,
                Some(GhostDragMode::Native) => CrossDropAction::PlaceNativeGhost,
                None => CrossDropAction::NewWindow(
                    if tear_off_to_floating_on_ctrl && ctrl {
                        WindowDropKind::FloatingPanel
                    } else if contained_window_on_ctrl && ctrl {
                        WindowDropKind::ContainedWindow
                    } else {
                        WindowDropKind::NativeWindow
                    },
                ),
            }
        }),
{
    if !payload_present {
        return CrossDropAction::Nothing;
    }
    if !payload_ours {
        return CrossDropAction::ReturnPayload;
    }
    if !destination_known {
        return CrossDropAction::Nothing;
    }
    if !destination_is_window {
        return CrossDropAction::Move;
    }
    match ghost {
        Some(GhostDragMode::ContainedFloating) => CrossDropAction::FinalizeContainedGhost,
        Some(GhostDragMode::Native) => CrossDropAction::PlaceNativeGhost,
        None => CrossDropAction::NewWindow(
            crate::drag_and_drop::window_drop_kind(tear_off_to_floating_on_ctrl, contained_window_on_ctrl, ctrl),
        ),
    }
}

/// What to do with a queued drop once every surface has reported where it lies.
#[derive(Clone, Copy, Debug, PartialEq, Eq)]
pub enum PendingAction<R> {
    /// Nothing to apply.
    Nothing,
    /// Keep the torn-off ghost as a panel floating in its viewport.
    FinalizeContainedGhost,
    /// Apply the in-dock drop to this destination.
    ApplyTabDrop(Option<TabDestination<R>>),
    /// Read the destination again across viewports, falling back to this one.
    ResolveCrossViewport(Option<TabDestination<R>>),
}

/// The action for a queued drop, given whether the in-dock drag is still active and
/// whether a contained ghost panel is being dragged.
pub fn pending_drop_action<R: Copy>(pending: PendingDrop<R>, drag_active: bool, contained_ghost_active: bool) -> (r: PendingAction<R>)
    ensures
        r == (match pending {
            PendingDrop::Tab { destination } => if !drag_active {
                PendingAction::Nothing
            } else if destination is None && contained_ghost_active {
                PendingAction::FinalizeContainedGhost
            } else {
                PendingAction::ApplyTabDrop(destination)
            },
            PendingDrop::CrossViewport { fallback_destination } => PendingAction::ResolveCrossViewport(fallback_destination),
        }),
{
    match pending {
        PendingDrop::Tab { destination } => {
            if !drag_active {
                PendingAction::Nothing
            } else if destination.is_none() && contained_ghost_active {
                PendingAction::FinalizeContainedGhost
            } else {
                PendingAction::ApplyTabDrop(destination)
            }
        },
        PendingDrop::CrossViewport { fallback_destination } => PendingAction::ResolveCrossViewport(fallback_destination),
    }
}

/// The destination of a tab released this frame: the overlay's, unless the dock detaches
/// on ALT and ALT is held while a tab is dragged, in which case a new window at
/// `new_window`.
pub fn release_destination<R: Copy>(
    overlay: Option<TabDestination<R>>,
    detach_on_alt: bool,
    alt: bool,
    dragging_tab: bool,
    new_window: R,
) -> (r: Option<TabDestination<R>>)
    ensures
        r == (if detach_on_alt && alt && dragging_tab { Some(TabDestination::Window(new_window)) } else { overlay }),
{
    if detach_on_alt && alt && dragging_tab {
        Some(TabDestination::Window(new_window))
    } else {
        overlay
    }
}

/// The windows floating in a viewport, in increasing index order: the surfaces other
/// than the main one that are windows, float, and have `same_host` set.
pub open spec fn floating_candidates<Tab>(ss: Seq<Surface<Tab>>, same_host: Seq<bool>, n: int) -> Seq<SurfaceIndex>
    decreases n,
{
    if n <= 0 {
        Seq::empty()
    } else if n - 1 != 0 && ss[n - 1] is Window && ss[n - 1]->Window_1.floating() && same_host[n - 1] {
        floating_candidates(ss, same_host, n - 1).push(SurfaceIndex((n - 1) as usize))
    } else {
        floating_candidates(ss, same_host, n - 1)
    }
}

/// The floating windows of a viewport among the first `n` surfaces, each once, by
/// increasing index: all of them and only them.
pub proof fn lemma_floating_candidates<Tab>(ss: Seq<Surface<Tab>>, same_host: Seq<bool>, n: int)
    requires
        0 <= n <= ss.len(),
        ss.len() <= usize::MAX,
    ensures
        forall|k: int| 0 <= k < floating_candidates(ss, same_host, n).len()
            ==> (#[trigger] floating_candidates(ss, same_host, n)[k]).0 < n
                && floats_in_host(ss, same_host, floating_candidates(ss, same_host, n)[k].0 as int),
        forall|a: int, b: int| 0 <= a < b < floating_candidates(ss, same_host, n).len()
            ==> (#[trigger] floating_candidates(ss, same_host, n)[a]).0 < (#[trigger] floating_candidates(ss, same_host, n)[b]).0,
        forall|j: int| 0 <= j < n && #[trigger] floats_in_host(ss, same_host, j)
            ==> floating_candidates(ss, same_host, n).contains(SurfaceIndex(j as usize)),
    decreases n,
{
    if n > 0 {
        lemma_floating_candidates(ss, same_host, n - 1);
        let v = floating_candidates(ss, same_host, n - 1);
        if floats_in_host(ss, same_host, n - 1) {
            let w = v.push(SurfaceIndex((n - 1) as usize));
            assert(floating_candidates(ss, same_host, n) == w);
            assert forall|k: int| 0 <= k < w.len() implies (#[trigger] w[k]).0 < n && floats_in_host(ss, same_host, w[k].0 as int) by {
                if k < v.len() {
                    assert(w[k] == v[k]);
                }
            }
            assert forall|a: int, b: int| 0 <= a < b < w.len() implies (#[trigger] w[a]).0 < (#[trigger] w[b]).0 by {
                assert(w[a] == v[a]);
                if b < v.len() {
                    assert(w[b] == v[b]);
                }
            }
            assert forall|j: int| 0 <= j < n && #[trigger] floats_in_host(ss, same_host, j) implies w.contains(SurfaceIndex(j as usize)) by {
                if j < n - 1 {
                    let k = choose|k: int| 0 <= k < v.len() && v[k] == SurfaceIndex(j as usize);
                    assert(w[k] == v[k]);
                } else {
                    assert(w[w.len() - 1] == SurfaceIndex(j as usize));
                }
            }
        } else {
            assert(floating_candidates(ss, same_host, n) == v);
        }
    }
}

/// A one-to-one choice of `n` positions among `n` takes every position.
proof fn lemma_perm_onto(perm: Seq<int>, n: int)
    requires
        perm.len() == n,
        forall|k: int| 0 <= k < n ==> 0 <= #[trigger] perm[k] < n,
        forall|a: int, b: int| 0 <= a < b < n ==> #[trigger] perm[a] != #[trigger] perm[b],
    ensures
        forall|v: int| 0 <= v < n ==> perm.contains(v),
{
    assert(perm.no_duplicates()) by {
        assert forall|a: int, b: int| 0 <= a < perm.len() && 0 <= b < perm.len() && a != b implies perm[a] != perm[b] by {
            if a < b {
            } else {
                assert(perm[b] != perm[a]);
            }
        }
    }
    perm.unique_seq_to_set();
    vstd::set_lib::lemma_int_range(0, n);
    let r = vstd::set_lib::set_int_range(0, n);
    assert(perm.to_set().subset_of(r)) by {
        assert forall|v: int| perm.to_set().contains(v) implies r.contains(v) by {
            let k = choose|k: int| 0 <= k < perm.len() && perm[k] == v;
        }
    }
    vstd::set_lib::lemma_len_subset(perm.to_set(), r);
    vstd::set_lib::lemma_subset_equality(perm.to_set(), r);
    assert forall|v: int| 0 <= v < n implies perm.contains(v) by {
        assert(r.contains(v));
        assert(perm.to_set().contains(v));
    }
}

impl<Tab> DockState<Tab> {
    /// The windows floating in one viewport, from the bottom of the stack to the top:
    /// `same_host[i]` says whether surface `i` is shown in that viewport.
    pub fn contained_floating_surfaces(&self, same_host: &Vec<bool>) -> (r: Vec<SurfaceIndex>)
        requires
            same_host@.len() == self.surface_seq().len(),
        ensures
            sorted_by_rank(self.surface_seq(), r@),
            exists|perm: Seq<int>| stable_rearrangement(
                self.surface_seq(),
                floating_candidates(self.surface_seq(), same_host@, self.surface_seq().len() as int),
                r@,
                perm,
            ),
            forall|k: int| 0 <= k < r@.len() ==> floats_in_host(self.surface_seq(), same_host@, (#[trigger] r@[k]).0 as int),
            forall|j: int| #[trigger] floats_in_host(self.surface_seq(), same_host@, j) ==> r@.contains(SurfaceIndex(j as usize)),
            r@.no_duplicates(),
    {
        let n = self.surfaces_count();
        let mut c: Vec<SurfaceIndex> = Vec::new();
        let mut i: usize = 0;
        while i < n
            invariant
                n == self.surface_seq().len(),
                same_host@.len() == n,
                i <= n,
                c@ == floating_candidates(self.surface_seq(), same_host@, i as int),
                forall|k: int| 0 <= k < c@.len() ==> (#[trigger] c@[k]).0 < i,
            decreases n - i,
        {
            if i != 0 {
                match self.get_surface(SurfaceIndex(i)) {
                    Some(Surface::Window(_, ws)) => {
                        if ws.is_floating_in_viewport() && same_host[i] {
                            c.push(SurfaceIndex(i));
                        }
                    },
                    _ => {},
                }
            }
            i += 1;
        }
        let ghost cand = c@;
        proof {
            lemma_floating_candidates(self.surface_seq(), same_host@, n as int);
        }
        self.sort_contained_floating_surfaces(&mut c);
        proof {
            let perm = choose|perm: Seq<int>| stable_rearrangement(self.surface_seq(), cand, c@, perm);
            lemma_perm_onto(perm, cand.len() as int);
            assert forall|k: int| 0 <= k < c@.len() implies floats_in_host(self.surface_seq(), same_host@, (#[trigger] c@[k]).0 as int) by {
                assert(c@[k] == cand[perm[k]]);
            }
            assert forall|j: int| #[trigger] floats_in_host(self.surface_seq(), same_host@, j) implies c@.contains(SurfaceIndex(j as usize)) by {
                let q = choose|q: int| 0 <= q < cand.len() && cand[q] == SurfaceIndex(j as usize);
                assert(perm.contains(q));
                let k = choose|k: int| 0 <= k < perm.len() && perm[k] == q;
                assert(c@[k] == cand[q]);
            }
            assert forall|a: int, b: int| 0 <= a < c@.len() && 0 <= b < c@.len() && a != b implies c@[a] != c@[b] by {
                assert(c@[a] == cand[perm[a]]);
                assert(c@[b] == cand[perm[b]]);
                if a < b {
                    assert(perm[a] != perm[b]);
                } else {
                    assert(perm[b] != perm[a]);
                }
                if perm[a] < perm[b] {
                    assert(cand[perm[a]].0 < cand[perm[b]].0);
                } else {
                    assert(cand[perm[b]].0 < cand[perm[a]].0);
                }
            }
        }
        c
    }
}

/// Counting more node slots never gives fewer tabs.
proof fn lemma_tabs_in_first_grows<Tab>(t: crate::tree::Tree<Tab>, a: int, b: int)
    requires
        a <= b,
    ensures
        tabs_in_first(t, a) <= tabs_in_first(t, b),
    decreases b - a,
{
    if a < b {
        lemma_tabs_in_first_grows(t, a, b - 1);
    }
}

} // verus!
