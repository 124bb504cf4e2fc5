//! Walks over the surfaces, nodes and tabs of a dock, in a fixed order.
use vstd::multiset::Multiset;
use vstd::prelude::*;

use crate::dock_state::DockState;
use crate::index::{NodeIndex, NodePath, SurfaceIndex, TabIndex, TabPath};
use crate::node::{node_tabs, LeafNode, Node};
use crate::surface::{surface_tree, Surface};
use crate::tree::Tree;

verus! {

/// The entries of `r` hold the keys and, behind their references, the values of `e`.
pub open spec fn same_entries<'a, K, V>(r: Seq<(K, &'a V)>, e: Seq<(K, V)>) -> bool {
    &&& r.len() == e.len()
    &&& forall|k: int| 0 <= k < r.len() ==> (#[trigger] r[k]).0 == e[k].0 && *r[k].1 == e[k].1
}

/// The entries of `r` hold the keys and, behind their mutable references, the values of
/// `e`.
pub open spec fn same_entries_mut<'a, K, V>(r: Seq<(K, &'a mut V)>, e: Seq<(K, V)>) -> bool {
    &&& r.len() == e.len()
    &&& forall|k: int| 0 <= k < r.len() ==> (#[trigger] r[k]).0 == e[k].0 && *r[k].1 == e[k].1
}

/// `b` is `a` with possibly other node contents: same kind, same window state, and a
/// tree with as many node slots and the same focus.
pub open spec fn same_frame<Tab>(a: Surface<Tab>, b: Surface<Tab>) -> bool {
    match (a, b) {
        (Surface::Empty, Surface::Empty) => true,
        (Surface::Main(t), Surface::Main(u)) => t.node_seq().len() == u.node_seq().len() && t.focus() == u.focus(),
        (Surface::Window(t, w), Surface::Window(u, w2)) => w == w2 && t.node_seq().len() == u.node_seq().len()
            && t.focus() == u.focus(),
        _ => false,
    }
}

/// The node slots of surface `i`, each with its path, by node index.
pub open spec fn surface_node_entries<Tab>(ss: Seq<Surface<Tab>>, i: int) -> Seq<(NodePath, Node<Tab>)> {
    match surface_tree(ss[i]) {
        Some(t) => Seq::new(
            t.node_seq().len(),
            |j: int| (NodePath { surface: SurfaceIndex(i as usize), node: NodeIndex(j as usize) }, t.node_seq()[j]),
        ),
        None => Seq::empty(),
    }
}

/// The node slots of the first `n` surfaces, each with its path, by surface, then node.
pub open spec fn node_entries<Tab>(ss: Seq<Surface<Tab>>, n: int) -> Seq<(NodePath, Node<Tab>)>
    decreases n,
{
    if n <= 0 {
        Seq::empty()
    } else {
        node_entries(ss, n - 1) + surface_node_entries(ss, n - 1)
    }
}

/// The tabs of node `n`, each with its path, given the path of the node.
pub open spec fn node_tab_seq<Tab>(n: Node<Tab>, p: NodePath) -> Seq<(TabPath, Tab)> {
    let ts = node_tabs(n);
    Seq::new(ts.len(), |k: int| (TabPath { surface: p.surface, node: p.node, tab: TabIndex(k as usize) }, ts[k]))
}

/// The tabs of the first `m` nodes of tree `t` of surface `s`, each with its path.
pub open spec fn tree_tab_entries<Tab>(t: Tree<Tab>, s: SurfaceIndex, m: int) -> Seq<(TabPath, Tab)>
    decreases m,
{
    if m <= 0 {
        Seq::empty()
    } else {
        tree_tab_entries(t, s, m - 1) + node_tab_seq(t.node_seq()[m - 1], NodePath { surface: s, node: NodeIndex((m - 1) as usize) })
    }
}

/// The tabs of node `j` of surface `i`, each with its path.
pub open spec fn node_tab_entries<Tab>(ss: Seq<Surface<Tab>>, i: int, j: int) -> Seq<(TabPath, Tab)> {
    node_tab_seq(surface_tree(ss[i])->0.node_seq()[j], NodePath { surface: SurfaceIndex(i as usize), node: NodeIndex(j as usize) })
}

/// The tabs of the first `m` nodes of surface `i`, each with its path.
pub open spec fn surface_tab_entries<Tab>(ss: Seq<Surface<Tab>>, i: int, m: int) -> Seq<(TabPath, Tab)> {
    tree_tab_entries(surface_tree(ss[i])->0, SurfaceIndex(i as usize), m)
}

/// `b` is node `a` with possibly other tabs in place of its tabs: a leaf stays a leaf
/// with as many tabs and the same active index, any other node stays as it is.
pub open spec fn same_node_frame<Tab>(a: Node<Tab>, b: Node<Tab>) -> bool {
    match a {
        Node::Leaf(l) => b matches Node::Leaf(m) && m.active == l.active && m.tabs@.len() == l.tabs@.len(),
        _ => b == a,
    }
}

/// `u` is tree `t` with possibly other tabs in place of its tabs.
pub open spec fn same_tree_frame<Tab>(t: Tree<Tab>, u: Tree<Tab>) -> bool {
    &&& u.node_seq().len() == t.node_seq().len()
    &&& u.focus() == t.focus()
    &&& forall|j: int| 0 <= j < t.node_seq().len() ==> same_node_frame(t.node_seq()[j], #[trigger] u.node_seq()[j])
}

/// `b` is surface `a` with possibly other tabs in place of its tabs.
pub open spec fn same_surface_frame<Tab>(a: Surface<Tab>, b: Surface<Tab>) -> bool {
    match (a, b) {
        (Surface::Empty, Surface::Empty) => true,
        (Surface::Main(t), Surface::Main(u)) => same_tree_frame(t, u),
        (Surface::Window(t, w), Surface::Window(u, w2)) => w == w2 && same_tree_frame(t, u),
        _ => false,
    }
}

/// Number of node slots of surface `i`.
pub open spec fn node_count<Tab>(ss: Seq<Surface<Tab>>, i: int) -> int {
    match surface_tree(ss[i]) {
        Some(t) => t.node_seq().len() as int,
        None => 0,
    }
}

/// The tabs of the first `n` surfaces, each with its path, by surface, then node, then
/// position.
pub open spec fn tab_entries<Tab>(ss: Seq<Surface<Tab>>, n: int) -> Seq<(TabPath, Tab)>
    decreases n,
{
    if n <= 0 {
        Seq::empty()
    } else {
        tab_entries(ss, n - 1) + surface_tab_entries(ss, n - 1, node_count(ss, n - 1))
    }
}

/// The tabs of a sequence of entries, without their paths.
pub open spec fn entry_tabs<Tab>(e: Seq<(TabPath, Tab)>) -> Multiset<Tab> {
    e.map_values(|x: (TabPath, Tab)| x.1).to_multiset()
}

/// The tabs of two runs of entries, one after the other.
proof fn lemma_entry_tabs_concat<Tab>(a: Seq<(TabPath, Tab)>, b: Seq<(TabPath, Tab)>)
    ensures
        entry_tabs(a + b) =~= entry_tabs(a).add(entry_tabs(b)),
{
    let f = |x: (TabPath, Tab)| x.1;
    assert((a + b).map_values(f) =~= a.map_values(f) + b.map_values(f));
    vstd::seq_lib::lemma_multiset_commutative(a.map_values(f), b.map_values(f));
}

/// The tabs of the entries of the first `m` nodes of a tree are the tabs at those
/// positions.
proof fn lemma_tree_entry_tabs<Tab>(t: Tree<Tab>, s: SurfaceIndex, m: int)
    requires
        m >= 0,
    ensures
        entry_tabs(tree_tab_entries(t, s, m)) =~= crate::shape::subtree_tabs(t.node_seq(), 0, m),
    decreases m,
{
    if m == 0 {
        assert(tree_tab_entries(t, s, 0).map_values(|x: (TabPath, Tab)| x.1) =~= Seq::<Tab>::empty());
        broadcast use vstd::seq_lib::group_to_multiset_ensures;
        assert(Seq::<Tab>::empty().to_multiset() =~= Multiset::empty()) by {
            crate::dock_state::lemma_empty_to_multiset(Seq::<Tab>::empty());
        }
    } else {
        lemma_tree_entry_tabs(t, s, m - 1);
        let n = t.node_seq()[m - 1];
        let seq_n = node_tab_seq(n, NodePath { surface: s, node: NodeIndex((m - 1) as usize) });
        lemma_entry_tabs_concat(tree_tab_entries(t, s, m - 1), seq_n);
        assert(seq_n.map_values(|x: (TabPath, Tab)| x.1) =~= node_tabs(n));
        crate::shape::lemma_subtree_root(m - 1);
    }
}

/// The tabs of the entries of the first `n` surfaces are the tabs of those surfaces.
proof fn lemma_tab_entries_prefix<Tab>(ss: Seq<Surface<Tab>>, n: int)
    requires
        0 <= n <= ss.len(),
        forall|i: int| 0 <= i < ss.len() ==> crate::surface::surface_wf(#[trigger] ss[i]),
    ensures
        entry_tabs(tab_entries(ss, n)) =~= crate::dock_state::all_tabs(ss.subrange(0, n)),
    decreases n,
{
    if n == 0 {
        assert(tab_entries(ss, 0).map_values(|x: (TabPath, Tab)| x.1) =~= Seq::<Tab>::empty());
        crate::dock_state::lemma_empty_to_multiset(Seq::<Tab>::empty());
    } else {
        lemma_tab_entries_prefix(ss, n - 1);
        let sub = ss.subrange(0, n);
        assert(sub.drop_last() =~= ss.subrange(0, n - 1));
        assert(sub.last() == ss[n - 1]);
        let last = surface_tab_entries(ss, n - 1, node_count(ss, n - 1));
        lemma_entry_tabs_concat(tab_entries(ss, n - 1), last);
        assert(crate::surface::surface_wf(ss[n - 1]));
        match surface_tree(ss[n - 1]) {
            Some(t) => {
                lemma_tree_entry_tabs(t, SurfaceIndex((n - 1) as usize), t.node_seq().len() as int);
                if t.node_seq().len() > 0 {
                    crate::shape::lemma_subtree_tabs_shape(t.node_seq(), 0);
                } else {
                    assert(crate::shape::subtree_tabs(t.node_seq(), 0, 0) =~= Multiset::empty());
                    assert(crate::shape::shape(t.node_seq(), 0) == crate::shape::Shape::<Tab>::Nil);
                }
            },
            None => {
                assert(last.map_values(|x: (TabPath, Tab)| x.1) =~= Seq::<Tab>::empty());
                crate::dock_state::lemma_empty_to_multiset(Seq::<Tab>::empty());
            },
        }
    }
}

/// The tabs that [`DockState::iter_all_tabs`] walks over are the tabs of the dock, each
/// as many times as it occurs.
pub proof fn lemma_tab_entries_are_tabs<Tab>(ss: Seq<Surface<Tab>>)
    requires
        crate::dock_state::surfaces_wf(ss),
    ensures
        entry_tabs(tab_entries(ss, ss.len() as int)) =~= crate::dock_state::all_tabs(ss),
{
    lemma_tab_entries_prefix(ss, ss.len() as int);
    assert(ss.subrange(0, ss.len() as int) =~= ss);
}

/// The leaves among the first `n` entries of `e`, in order.
pub open spec fn leaf_entries<Tab>(e: Seq<(NodePath, Node<Tab>)>, n: int) -> Seq<(NodePath, LeafNode<Tab>)>
    decreases n,
{
    if n <= 0 {
        Seq::empty()
    } else if e[n - 1].1 is Leaf {
        leaf_entries(e, n - 1).push((e[n - 1].0, e[n - 1].1->Leaf_0))
    } else {
        leaf_entries(e, n - 1)
    }
}


/// Where every leaf holds tabs, so does every leaf among the node entries.
proof fn lemma_node_entries_filled<Tab>(ss: Seq<Surface<Tab>>, n: int)
    requires
        0 <= n <= ss.len(),
        crate::dock_state::leaves_filled(ss),
    ensures
        forall|k: int| 0 <= k < node_entries(ss, n).len() && #[trigger] node_entries(ss, n)[k].1 is Leaf
            ==> node_tabs(node_entries(ss, n)[k].1).len() > 0,
    decreases n,
{
    if n > 0 {
        lemma_node_entries_filled(ss, n - 1);
        let a = node_entries(ss, n - 1);
        let b = surface_node_entries(ss, n - 1);
        assert forall|k: int| 0 <= k < node_entries(ss, n).len() && #[trigger] node_entries(ss, n)[k].1 is Leaf
            implies node_tabs(node_entries(ss, n)[k].1).len() > 0 by {
            if k < a.len() {
                assert(node_entries(ss, n)[k] == a[k]);
            } else {
                assert(node_entries(ss, n)[k] == b[k - a.len()]);
                assert(surface_tree(ss[n - 1]) is Some);
                let t = surface_tree(ss[n - 1])->0;
                assert(crate::tree::no_empty_leaf(t.node_seq()));
                assert(b[k - a.len()].1 == t.node_seq()[k - a.len()]);
            }
        }
    }
}

/// The leaves picked from entries whose leaves all hold tabs hold tabs.
proof fn lemma_leaf_entries_filled<Tab>(e: Seq<(NodePath, Node<Tab>)>, n: int)
    requires
        0 <= n <= e.len(),
        forall|k: int| 0 <= k < e.len() && #[trigger] e[k].1 is Leaf ==> node_tabs(e[k].1).len() > 0,
    ensures
        forall|k: int| 0 <= k < leaf_entries(e, n).len() ==> (#[trigger] leaf_entries(e, n)[k]).1.tabs@.len() > 0,
    decreases n,
{
    if n > 0 {
        lemma_leaf_entries_filled(e, n - 1);
        if e[n - 1].1 is Leaf {
            assert(node_tabs(e[n - 1].1).len() > 0);
            assert forall|k: int| 0 <= k < leaf_entries(e, n).len() implies (#[trigger] leaf_entries(e, n)[k]).1.tabs@.len() > 0 by {
                if k < leaf_entries(e, n - 1).len() {
                    assert(leaf_entries(e, n)[k] == leaf_entries(e, n - 1)[k]);
                } else {
                    assert(leaf_entries(e, n)[k] == (e[n - 1].0, e[n - 1].1->Leaf_0));
                }
            }
        } else {
            assert(leaf_entries(e, n) == leaf_entries(e, n - 1));
        }
    }
}

/// Where every leaf of every tree holds tabs, [`DockState::iter_leaves`] yields no leaf
/// without tabs.
pub proof fn lemma_filled_leaves_listed<Tab>(ss: Seq<Surface<Tab>>)
    requires
        crate::dock_state::leaves_filled(ss),
    ensures
        forall|k: int| 0 <= k < leaf_entries(node_entries(ss, ss.len() as int), node_entries(ss, ss.len() as int).len() as int).len()
            ==> (#[trigger] leaf_entries(node_entries(ss, ss.len() as int), node_entries(ss, ss.len() as int).len() as int)[k]).1.tabs@.len() > 0,
{
    lemma_node_entries_filled(ss, ss.len() as int);
    let e = node_entries(ss, ss.len() as int);
    lemma_leaf_entries_filled(e, e.len() as int);
}

/// Mutable references to the elements of `s`, in order.
fn refs_mut<'a, T>(s: &'a mut [T]) -> (r: Vec<&'a mut T>)
    ensures
        r@.len() == old(s)@.len(),
        final(s)@.len() == old(s)@.len(),
        forall|i: int| 0 <= i < r@.len() ==> *(#[trigger] r@[i]) == old(s)@[i] && final(s)@[i] == *final(r@[i]),
    decreases old(s)@.len(),
{
    if s.len() == 0 {
        Vec::new()
    } else {
        let ghost s0 = s@;
        let (first, rest) = s.split_at_mut(1);
        let ghost rest0 = rest@;
        let mut tail = refs_mut(rest);
        let mut r = Vec::new();
        r.push(&mut first[0]);
        r.append(&mut tail);
        assert forall|i: int| 0 <= i < r@.len() implies *(#[trigger] r@[i]) == s0[i] by {
            if i > 0 {
                assert(rest0[i - 1] == s0[i]);
            }
        }
        r
    }
}

/// Mutable references to the elements of `s`, in order, each paired with its index
/// counted from `start`.
fn surface_refs_mut<'a, Tab>(s: &'a mut [Surface<Tab>], start: usize) -> (r: Vec<(SurfaceIndex, &'a mut Surface<Tab>)>)
    requires
        start + old(s)@.len() <= usize::MAX,
    ensures
        r@.len() == old(s)@.len(),
        final(s)@.len() == old(s)@.len(),
        forall|i: int| 0 <= i < r@.len() ==> (#[trigger] r@[i]).0 == SurfaceIndex((start + i) as usize)
            && *r@[i].1 == old(s)@[i] && final(s)@[i] == *final(r@[i].1),
    decreases old(s)@.len(),
{
    if s.len() == 0 {
        Vec::new()
    } else {
        let ghost s0 = s@;
        let (first, rest) = s.split_at_mut(1);
        let ghost rest0 = rest@;
        let mut tail = surface_refs_mut(rest, start + 1);
        let mut r = Vec::new();
        r.push((SurfaceIndex(start), &mut first[0]));
        r.append(&mut tail);
        assert forall|i: int| 0 <= i < r@.len() implies (#[trigger] r@[i]).0 == SurfaceIndex((start + i) as usize)
            && *r@[i].1 == s0[i] by {
            if i > 0 {
                assert(rest0[i - 1] == s0[i]);
            }
        }
        r
    }
}

/// Mutable references to the node slots in `s`, in order, each paired with its path in
/// surface `surface`, counting node indices from `start`.
fn node_refs_mut<'a, Tab>(s: &'a mut [Node<Tab>], surface: SurfaceIndex, start: usize) -> (r: Vec<(NodePath, &'a mut Node<Tab>)>)
    requires
        start + old(s)@.len() <= usize::MAX,
    ensures
        r@.len() == old(s)@.len(),
        final(s)@.len() == old(s)@.len(),
        forall|i: int| 0 <= i < r@.len() ==> (#[trigger] r@[i]).0 == (NodePath { surface, node: NodeIndex((start + i) as usize) })
            && *r@[i].1 == old(s)@[i] && final(s)@[i] == *final(r@[i].1),
    decreases old(s)@.len(),
{
    if s.len() == 0 {
        Vec::new()
    } else {
        let ghost s0 = s@;
        let (first, rest) = s.split_at_mut(1);
        let ghost rest0 = rest@;
        let mut tail = node_refs_mut(rest, surface, start + 1);
        let mut r = Vec::new();
        r.push((NodePath::new(surface, NodeIndex(start)), &mut first[0]));
        r.append(&mut tail);
        assert forall|i: int| 0 <= i < r@.len() implies (#[trigger] r@[i]).0 == (NodePath { surface, node: NodeIndex((start + i) as usize) })
            && *r@[i].1 == s0[i] by {
            if i > 0 {
                assert(rest0[i - 1] == s0[i]);
            }
        }
        r
    }
}

/// Mutable references to the tabs in `s`, in order, each paired with its path in the
/// node at `p`, counting positions from `start`.
fn tab_refs_mut<'a, Tab>(s: &'a mut [Tab], p: NodePath, start: usize) -> (r: Vec<(TabPath, &'a mut Tab)>)
    requires
        start + old(s)@.len() <= usize::MAX,
    ensures
        r@.len() == old(s)@.len(),
        final(s)@.len() == old(s)@.len(),
        forall|i: int| 0 <= i < r@.len() ==> (#[trigger] r@[i]).0 == (TabPath { surface: p.surface, node: p.node, tab: TabIndex((start + i) as usize) })
            && *r@[i].1 == old(s)@[i] && final(s)@[i] == *final(r@[i].1),
    decreases old(s)@.len(),
{
    if s.len() == 0 {
        Vec::new()
    } else {
        let ghost s0 = s@;
        let (first, rest) = s.split_at_mut(1);
        let ghost rest0 = rest@;
        let mut tail = tab_refs_mut(rest, p, start + 1);
        let mut r = Vec::new();
        r.push((TabPath::new(p.surface, p.node, TabIndex(start)), &mut first[0]));
        r.append(&mut tail);
        assert forall|i: int| 0 <= i < r@.len() implies (#[trigger] r@[i]).0 == (TabPath { surface: p.surface, node: p.node, tab: TabIndex((start + i) as usize) })
            && *r@[i].1 == s0[i] by {
            if i > 0 {
                assert(rest0[i - 1] == s0[i]);
            }
        }
        r
    }
}

/// Mutable references to the tabs of node `n`, whose path is `p`, in order.
fn node_tab_refs_mut<'a, Tab>(n: &'a mut Node<Tab>, p: NodePath) -> (r: Vec<(TabPath, &'a mut Tab)>)
    ensures
        same_entries_mut(r@, node_tab_seq(*old(n), p)),
        node_tabs(*old(n)).len() <= usize::MAX,
        same_node_frame(*old(n), *final(n)),
        forall|k: int| 0 <= k < r@.len() ==> node_tabs(*final(n))[k] == *final(#[trigger] r@[k].1),
{
    match n.get_leaf_mut() {
        Some(leaf) => {
            let tabs = leaf.tabs_slice_mut();
            let _m = tabs.len();
            tab_refs_mut(tabs, p, 0)
        },
        None => Vec::new(),
    }
}

/// Mutable references to the tabs of tree `t`, whose surface is `s`, by node, then
/// position.
fn tree_tab_refs_mut<'a, Tab>(t: &'a mut Tree<Tab>, s: SurfaceIndex) -> (r: Vec<(TabPath, &'a mut Tab)>)
    ensures
        same_entries_mut(r@, tree_tab_entries(*old(t), s, old(t).node_seq().len() as int)),
        same_tree_frame(*old(t), *final(t)),
        forall|k: int| 0 <= k < r@.len() ==> (#[trigger] r@[k]).0.node.0 < old(t).node_seq().len() && (r@[k].0).surface == s
            && node_tabs(final(t).node_seq()[r@[k].0.node.0 as int])[r@[k].0.tab.0 as int] == *final(r@[k].1),
{
    let ghost t0 = *t;
    let nodes = t.nodes_slice_mut();
    let ghost nodes_ref = nodes;
    let m = nodes.len();
    let mut refs = node_refs_mut(nodes, s, 0);
    let ghost refs0 = refs@;
    let mut r: Vec<(TabPath, &mut Tab)> = Vec::new();
    let mut j: usize = 0;
    while refs.len() > 0
        invariant
            m == t0.node_seq().len(),
            refs0.len() == m,
            j <= m,
            refs@.len() == m - j,
            forall|q: int| 0 <= q < refs@.len() ==> #[trigger] refs@[q] == refs0[j + q],
            forall|q: int| 0 <= q < m ==> (#[trigger] refs0[q]).0 == (NodePath { surface: s, node: NodeIndex(q as usize) })
                && *refs0[q].1 == t0.node_seq()[q],
            same_entries_mut(r@, tree_tab_entries(t0, s, j as int)),
            forall|q: int| 0 <= q < j ==> same_node_frame(t0.node_seq()[q], *final(#[trigger] refs0[q].1)),
            forall|k: int| 0 <= k < r@.len() ==> (#[trigger] r@[k]).0.node.0 < j && (r@[k].0).surface == s
                && node_tabs(*final(refs0[r@[k].0.node.0 as int].1))[r@[k].0.tab.0 as int] == *final(r@[k].1),
        decreases refs@.len(),
    {
        let (p, n) = refs.remove(0);
        let ghost nref = n;
        let mut part = node_tab_refs_mut(n, p);
        let ghost prev = r@;
        let ghost part0 = part@;
        r.append(&mut part);
        proof {
            assert(refs0[j as int].1 == nref);
            let e = node_tab_seq(t0.node_seq()[j as int], NodePath { surface: s, node: NodeIndex(j as usize) });
            assert(tree_tab_entries(t0, s, j + 1) == tree_tab_entries(t0, s, j as int) + e);
            assert forall|k: int| 0 <= k < r@.len() implies (#[trigger] r@[k]).0 == (tree_tab_entries(t0, s, j as int) + e)[k].0
                && *r@[k].1 == (tree_tab_entries(t0, s, j as int) + e)[k].1 by {
                if k >= prev.len() {
                    assert(r@[k] == part0[k - prev.len()]);
                } else {
                    assert(r@[k] == prev[k]);
                }
            }
            assert forall|k: int| 0 <= k < r@.len() implies (#[trigger] r@[k]).0.node.0 < j + 1 && (r@[k].0).surface == s
                && node_tabs(*final(refs0[r@[k].0.node.0 as int].1))[r@[k].0.tab.0 as int] == *final(r@[k].1) by {
                if k >= prev.len() {
                    let i = k - prev.len();
                    assert(r@[k] == part0[i]);
                    assert(p == refs0[j as int].0);
                    assert(part0[i].0 == node_tab_seq(*nref, p)[i].0);
                    assert(node_tabs(*final(nref))[i] == *final(part0[i].1));
                } else {
                    assert(r@[k] == prev[k]);
                }
            }
        }
        j += 1;
    }
    proof {
        assert forall|q: int| 0 <= q < m implies same_node_frame(t0.node_seq()[q], #[trigger] final(nodes_ref)@[q]) by {
            assert(refs0[q].0 == NodePath { surface: s, node: NodeIndex(q as usize) });
        }
    }
    r
}

impl<Tab> DockState<Tab> {
    /// All surfaces, unused slots included, by index.
    pub fn iter_surfaces(&self) -> (r: Vec<&Surface<Tab>>)
        ensures
            r@.len() == self.surface_seq().len(),
            forall|k: int| 0 <= k < r@.len() ==> *(#[trigger] r@[k]) == self.surface_seq()[k],
    {
        let mut r: Vec<&Surface<Tab>> = Vec::new();
        let n = self.surfaces_count();
        let mut i: usize = 0;
        while i < n
            invariant
                n == self.surface_seq().len(),
                i <= n,
                r@.len() == i,
                forall|k: int| 0 <= k < r@.len() ==> *(#[trigger] r@[k]) == self.surface_seq()[k],
            decreases n - i,
        {
            let s = self.get_surface(SurfaceIndex(i)).unwrap();
            r.push(s);
            i += 1;
        }
        r
    }

    /// All surfaces, unused slots included, each with its index.
    pub fn iter_surfaces_indexed(&self) -> (r: Vec<(SurfaceIndex, &Surface<Tab>)>)
        ensures
            same_entries(r@, Seq::new(self.surface_seq().len(), |k: int| (SurfaceIndex(k as usize), self.surface_seq()[k]))),
    {
        let ghost e = Seq::new(self.surface_seq().len(), |k: int| (SurfaceIndex(k as usize), self.surface_seq()[k]));
        let mut r: Vec<(SurfaceIndex, &Surface<Tab>)> = Vec::new();
        let n = self.surfaces_count();
        let mut i: usize = 0;
        while i < n
            invariant
                n == self.surface_seq().len(),
                e == Seq::new(self.surface_seq().len(), |k: int| (SurfaceIndex(k as usize), self.surface_seq()[k])),
                i <= n,
                same_entries(r@, e.take(i as int)),
            decreases n - i,
        {
            let s = self.get_surface(SurfaceIndex(i)).unwrap();
            r.push((SurfaceIndex(i), s));
            proof {
                assert(e.take(i + 1) =~= e.take(i as int).push(e[i as int]));
            }
            i += 1;
        }
        proof {
            assert(e.take(n as int) =~= e);
        }
        r
    }

    /// Appends the node slots of surface `i` to `r`.
    fn push_surface_nodes<'a>(&'a self, i: usize, r: &mut Vec<(NodePath, &'a Node<Tab>)>)
        requires
            i < self.surface_seq().len(),
        ensures
            final(r)@.len() == old(r)@.len() + surface_node_entries(self.surface_seq(), i as int).len(),
            forall|k: int| 0 <= k < old(r)@.len() ==> #[trigger] final(r)@[k] == old(r)@[k],
            forall|k: int| 0 <= k < surface_node_entries(self.surface_seq(), i as int).len() ==>
                (#[trigger] final(r)@[old(r)@.len() + k]).0 == surface_node_entries(self.surface_seq(), i as int)[k].0
                && *final(r)@[old(r)@.len() + k].1 == surface_node_entries(self.surface_seq(), i as int)[k].1,
    {
        let ghost e = surface_node_entries(self.surface_seq(), i as int);
        let ghost r0 = r@;
        let s = self.get_surface(SurfaceIndex(i)).unwrap();
        match s.node_tree() {
            None => {},
            Some(tree) => {
                let m = tree.len();
                let mut j: usize = 0;
                while j < m
                    invariant
                        m == tree.node_seq().len(),
                        surface_tree(self.surface_seq()[i as int]) == Some(*tree),
                        e == surface_node_entries(self.surface_seq(), i as int),
                        j <= m,
                        r@.len() == r0.len() + j,
                        forall|k: int| 0 <= k < r0.len() ==> #[trigger] r@[k] == r0[k],
                        forall|k: int| 0 <= k < j ==> (#[trigger] r@[r0.len() + k]).0 == e[k].0 && *r@[r0.len() + k].1 == e[k].1,
                    decreases m - j,
                {
                    let node = tree.get(NodeIndex(j)).unwrap();
                    r.push((NodePath::new(SurfaceIndex(i), NodeIndex(j)), node));
                    proof {
                        assert(r@[r0.len() + j] == r@.last());
                    }
                    j += 1;
                }
            },
        }
    }

    /// Every node slot of every surface, with its path, by surface, then node.
    pub fn iter_all_nodes(&self) -> (r: Vec<(NodePath, &Node<Tab>)>)
        ensures
            same_entries(r@, node_entries(self.surface_seq(), self.surface_seq().len() as int)),
    {
        let mut r: Vec<(NodePath, &Node<Tab>)> = Vec::new();
        let n = self.surfaces_count();
        let mut i: usize = 0;
        while i < n
            invariant
                n == self.surface_seq().len(),
                i <= n,
                same_entries(r@, node_entries(self.surface_seq(), i as int)),
            decreases n - i,
        {
            let ghost prev = r@;
            self.push_surface_nodes(i, &mut r);
            proof {
                let a = node_entries(self.surface_seq(), i as int);
                let b = surface_node_entries(self.surface_seq(), i as int);
                assert(node_entries(self.surface_seq(), i + 1) == a + b);
                assert forall|k: int| 0 <= k < r@.len() implies (#[trigger] r@[k]).0 == (a + b)[k].0 && *r@[k].1 == (a + b)[k].1 by {
                    if k < prev.len() {
                        assert(prev[k] == r@[k]);
                    } else {
                        assert(r@[prev.len() + (k - prev.len())] == r@[k]);
                    }
                }
            }
            i += 1;
        }
        r
    }

    /// Every node slot of every surface, by surface, then node.
    pub fn iter_nodes(&self) -> (r: Vec<&Node<Tab>>)
        ensures
            r@.len() == node_entries(self.surface_seq(), self.surface_seq().len() as int).len(),
            forall|k: int| 0 <= k < r@.len() ==> *(#[trigger] r@[k]) == node_entries(self.surface_seq(), self.surface_seq().len() as int)[k].1,
    {
        let all = self.iter_all_nodes();
        let mut r: Vec<&Node<Tab>> = Vec::new();
        let mut k: usize = 0;
        while k < all.len()
            invariant
                k <= all@.len(),
                r@.len() == k,
                forall|q: int| 0 <= q < k ==> *(#[trigger] r@[q]) == *all@[q].1,
            decreases all@.len() - k,
        {
            r.push(all[k].1);
            k += 1;
        }
        r
    }

    /// The node slots of the main surface, by node index.
    pub fn iter_main_surface_nodes(&self) -> (r: Vec<&Node<Tab>>)
        requires
            self.wf(),
        ensures
            r@.len() == self.tree_at(0).node_seq().len(),
            forall|k: int| 0 <= k < r@.len() ==> *(#[trigger] r@[k]) == self.tree_at(0).node_seq()[k],
    {
        let tree = self.main_surface();
        let mut r: Vec<&Node<Tab>> = Vec::new();
        let m = tree.len();
        let mut j: usize = 0;
        while j < m
            invariant
                m == tree.node_seq().len(),
                *tree == self.tree_at(0),
                j <= m,
                r@.len() == j,
                forall|k: int| 0 <= k < r@.len() ==> *(#[trigger] r@[k]) == self.tree_at(0).node_seq()[k],
            decreases m - j,
        {
            r.push(tree.get(NodeIndex(j)).unwrap());
            j += 1;
        }
        r
    }

    /// Every leaf of every surface, with its path, by surface, then node.
    pub fn iter_leaves(&self) -> (r: Vec<(NodePath, &LeafNode<Tab>)>)
        ensures
            same_entries(
                r@,
                leaf_entries(
                    node_entries(self.surface_seq(), self.surface_seq().len() as int),
                    node_entries(self.surface_seq(), self.surface_seq().len() as int).len() as int,
                ),
            ),
    {
        let all = self.iter_all_nodes();
        let ghost e = node_entries(self.surface_seq(), self.surface_seq().len() as int);
        let mut r: Vec<(NodePath, &LeafNode<Tab>)> = Vec::new();
        let mut k: usize = 0;
        while k < all.len()
            invariant
                same_entries(all@, e),
                k <= all@.len(),
                same_entries(r@, leaf_entries(e, k as int)),
            decreases all@.len() - k,
        {
            let (path, node) = all[k];
            match node.get_leaf() {
                Some(leaf) => {
                    r.push((path, leaf));
                },
                None => {},
            }
            k += 1;
        }
        r
    }

    /// Appends the tabs of node `j` of surface `i` to `r`.
    fn push_node_tabs<'a>(&'a self, i: usize, j: usize, r: &mut Vec<(TabPath, &'a Tab)>)
        requires
            i < self.surface_seq().len(),
            j < node_count(self.surface_seq(), i as int),
        ensures
            final(r)@.len() == old(r)@.len() + node_tab_entries(self.surface_seq(), i as int, j as int).len(),
            forall|k: int| 0 <= k < old(r)@.len() ==> #[trigger] final(r)@[k] == old(r)@[k],
            forall|k: int| 0 <= k < node_tab_entries(self.surface_seq(), i as int, j as int).len() ==>
                (#[trigger] final(r)@[old(r)@.len() + k]).0 == node_tab_entries(self.surface_seq(), i as int, j as int)[k].0
                && *final(r)@[old(r)@.len() + k].1 == node_tab_entries(self.surface_seq(), i as int, j as int)[k].1,
    {
        let ghost e = node_tab_entries(self.surface_seq(), i as int, j as int);
        let ghost r0 = r@;
        let s = self.get_surface(SurfaceIndex(i)).unwrap();
        let tree = s.node_tree().unwrap();
        let node = tree.get(NodeIndex(j)).unwrap();
        match node.tabs() {
            None => {},
            Some(tabs) => {
                let m = tabs.len();
                let mut k: usize = 0;
                while k < m
                    invariant
                        m == tabs@.len(),
                        tabs@ == node_tabs(surface_tree(self.surface_seq()[i as int])->0.node_seq()[j as int]),
                        e == node_tab_entries(self.surface_seq(), i as int, j as int),
                        k <= m,
                        r@.len() == r0.len() + k,
                        forall|q: int| 0 <= q < r0.len() ==> #[trigger] r@[q] == r0[q],
                        forall|q: int| 0 <= q < k ==> (#[trigger] r@[r0.len() + q]).0 == e[q].0 && *r@[r0.len() + q].1 == e[q].1,
                    decreases m - k,
                {
                    r.push((TabPath::new(SurfaceIndex(i), NodeIndex(j), TabIndex(k)), &tabs[k]));
                    proof {
                        assert(r@[r0.len() + k] == r@.last());
                    }
                    k += 1;
                }
            },
        }
    }

    /// Every tab of the dock, with its path, by surface, then node, then position.
    pub fn iter_all_tabs(&self) -> (r: Vec<(TabPath, &Tab)>)
        ensures
            same_entries(r@, tab_entries(self.surface_seq(), self.surface_seq().len() as int)),
            self.wf() ==> entry_tabs(tab_entries(self.surface_seq(), self.surface_seq().len() as int)) == self.tabs(),
    {
        proof {
            if self.wf() {
                lemma_tab_entries_are_tabs(self.surface_seq());
            }
        }
        let mut r: Vec<(TabPath, &Tab)> = Vec::new();
        let n = self.surfaces_count();
        let mut i: usize = 0;
        while i < n
            invariant
                n == self.surface_seq().len(),
                i <= n,
                same_entries(r@, tab_entries(self.surface_seq(), i as int)),
            decreases n - i,
        {
            let s = self.get_surface(SurfaceIndex(i)).unwrap();
            let m: usize = match s.node_tree() {
                Some(tree) => tree.len(),
                None => 0,
            };
            let ghost base = tab_entries(self.surface_seq(), i as int);
            let mut j: usize = 0;
            while j < m
                invariant
                    n == self.surface_seq().len(),
                    i < n,
                    m == node_count(self.surface_seq(), i as int),
                    base == tab_entries(self.surface_seq(), i as int),
                    j <= m,
                    same_entries(r@, base + surface_tab_entries(self.surface_seq(), i as int, j as int)),
                decreases m - j,
            {
                let ghost prev = r@;
                self.push_node_tabs(i, j, &mut r);
                proof {
                    let a = base + surface_tab_entries(self.surface_seq(), i as int, j as int);
                    let b = node_tab_entries(self.surface_seq(), i as int, j as int);
                    assert(base + surface_tab_entries(self.surface_seq(), i as int, j + 1) =~= a + b);
                    assert forall|k: int| 0 <= k < r@.len() implies (#[trigger] r@[k]).0 == (a + b)[k].0 && *r@[k].1 == (a + b)[k].1 by {
                        if k < prev.len() {
                            assert(prev[k] == r@[k]);
                        } else {
                            assert(r@[prev.len() + (k - prev.len())] == r@[k]);
                        }
                    }
                }
                j += 1;
            }
            proof {
                assert(tab_entries(self.surface_seq(), i + 1) == base + surface_tab_entries(self.surface_seq(), i as int, m as int));
            }
            i += 1;
        }
        r
    }

    /// All surfaces, unused slots included, by index, mutably.
    pub fn iter_surfaces_mut(&mut self) -> (r: Vec<&mut Surface<Tab>>)
        ensures
            r@.len() == old(self).surface_seq().len(),
            final(self).surface_seq().len() == old(self).surface_seq().len(),
            forall|i: int| 0 <= i < r@.len() ==> *(#[trigger] r@[i]) == old(self).surface_seq()[i]
                && final(self).surface_seq()[i] == *final(r@[i]),
            final(self).focused() == old(self).focused(),
            final(self).texts() == old(self).texts(),
    {
        refs_mut(self.surfaces_slice_mut())
    }

    /// All surfaces, unused slots included, each with its index, mutably.
    pub fn iter_surfaces_mut_indexed(&mut self) -> (r: Vec<(SurfaceIndex, &mut Surface<Tab>)>)
        ensures
            r@.len() == old(self).surface_seq().len(),
            final(self).surface_seq().len() == old(self).surface_seq().len(),
            forall|i: int| 0 <= i < r@.len() ==> (#[trigger] r@[i]).0 == SurfaceIndex(i as usize)
                && *r@[i].1 == old(self).surface_seq()[i]
                && final(self).surface_seq()[i] == *final(r@[i].1),
            final(self).focused() == old(self).focused(),
            final(self).texts() == old(self).texts(),
    {
        let slice = self.surfaces_slice_mut();
        let _n = slice.len();
        surface_refs_mut(slice, 0)
    }

    /// The node slots of the main surface, by node index, mutably.
    pub fn iter_main_surface_nodes_mut(&mut self) -> (r: Vec<(NodePath, &mut Node<Tab>)>)
        requires
            old(self).wf(),
        ensures
            r@.len() == old(self).tree_at(0).node_seq().len(),
            final(self).surface_seq().len() == old(self).surface_seq().len(),
            forall|j: int| 1 <= j < old(self).surface_seq().len() ==> #[trigger] final(self).surface_seq()[j] == old(self).surface_seq()[j],
            final(self).surface_seq()[0] is Main,
            final(self).tree_at(0).focus() == old(self).tree_at(0).focus(),
            final(self).tree_at(0).node_seq().len() == old(self).tree_at(0).node_seq().len(),
            forall|i: int| 0 <= i < r@.len() ==> (#[trigger] r@[i]).0 == (NodePath { surface: SurfaceIndex(0), node: NodeIndex(i as usize) })
                && *r@[i].1 == old(self).tree_at(0).node_seq()[i]
                && final(self).tree_at(0).node_seq()[i] == *final(r@[i].1),
            final(self).focused() == old(self).focused(),
            final(self).texts() == old(self).texts(),
    {
        let tree = self.main_surface_mut();
        let slice = tree.nodes_slice_mut();
        let _n = slice.len();
        node_refs_mut(slice, SurfaceIndex(0), 0)
    }

    /// Every node slot of every surface, with its path, by surface, then node, mutably.
    pub fn iter_all_nodes_mut(&mut self) -> (r: Vec<(NodePath, &mut Node<Tab>)>)
        ensures
            same_entries_mut(r@, node_entries(old(self).surface_seq(), old(self).surface_seq().len() as int)),
            final(self).surface_seq().len() == old(self).surface_seq().len(),
            forall|i: int| 0 <= i < old(self).surface_seq().len() ==> same_frame(old(self).surface_seq()[i], #[trigger] final(self).surface_seq()[i]),
            forall|k: int| 0 <= k < r@.len() ==> crate::dock_state::node_at(final(self).surface_seq(), (#[trigger] r@[k]).0) == *final(r@[k].1),
            final(self).focused() == old(self).focused(),
            final(self).texts() == old(self).texts(),
    {
        let ghost ss0 = self.surface_seq();
        let slice = self.surfaces_slice_mut();
        let ghost slice_ref = slice;
        let n = slice.len();
        let mut surf = surface_refs_mut(slice, 0);
        let ghost surf0 = surf@;
        let mut r: Vec<(NodePath, &mut Node<Tab>)> = Vec::new();
        let mut i: usize = 0;
        while surf.len() > 0
            invariant
                n == ss0.len(),
                surf0.len() == n,
                i <= n,
                surf@.len() == n - i,
                forall|q: int| 0 <= q < surf@.len() ==> #[trigger] surf@[q] == surf0[i + q],
                forall|q: int| 0 <= q < n ==> (#[trigger] surf0[q]).0 == SurfaceIndex(q as usize) && *surf0[q].1 == ss0[q],
                same_entries_mut(r@, node_entries(ss0, i as int)),
                forall|q: int| 0 <= q < i ==> same_frame(ss0[q], *final(#[trigger] surf0[q].1)),
                forall|k: int| 0 <= k < r@.len() ==> (#[trigger] r@[k]).0.surface.0 < i
                    && surface_tree(*final(surf0[r@[k].0.surface.0 as int].1))->0.node_seq()[r@[k].0.node.0 as int] == *final(r@[k].1),
            decreases surf@.len(),
        {
            let (si, s) = surf.remove(0);
            let ghost prev = r@;
            let ghost sref = s;
            match s.node_tree_mut() {
                Some(t) => {
                    let nodes = t.nodes_slice_mut();
                    let _m = nodes.len();
                    let mut part = node_refs_mut(nodes, si, 0);
                    r.append(&mut part);
                },
                None => {},
            }
            proof {
                assert(surf0[i as int].1 == sref);
            }
            i += 1;
        }
        proof {
            assert forall|q: int| 0 <= q < n implies same_frame(ss0[q], #[trigger] final(slice_ref)@[q]) by {
                assert(surf0[q].0 == SurfaceIndex(q as usize));
            }
        }
        r
    }

    /// Every tab of the dock, with its path, by surface, then node, then position,
    /// mutably.
    pub fn iter_all_tabs_mut(&mut self) -> (r: Vec<(TabPath, &mut Tab)>)
        ensures
            same_entries_mut(r@, tab_entries(old(self).surface_seq(), old(self).surface_seq().len() as int)),
            final(self).surface_seq().len() == old(self).surface_seq().len(),
            forall|i: int| 0 <= i < old(self).surface_seq().len() ==> same_surface_frame(old(self).surface_seq()[i], #[trigger] final(self).surface_seq()[i]),
            forall|k: int| 0 <= k < r@.len() ==> node_tabs(crate::dock_state::node_at(final(self).surface_seq(), (#[trigger] r@[k]).0.node_path()))[r@[k].0.tab.0 as int] == *final(r@[k].1),
            final(self).focused() == old(self).focused(),
            final(self).texts() == old(self).texts(),
    {
        let ghost ss0 = self.surface_seq();
        let slice = self.surfaces_slice_mut();
        let ghost slice_ref = slice;
        let n = slice.len();
        let mut surf = surface_refs_mut(slice, 0);
        let ghost surf0 = surf@;
        let mut r: Vec<(TabPath, &mut Tab)> = Vec::new();
        let mut i: usize = 0;
        while surf.len() > 0
            invariant
                n == ss0.len(),
                surf0.len() == n,
                i <= n,
                surf@.len() == n - i,
                forall|q: int| 0 <= q < surf@.len() ==> #[trigger] surf@[q] == surf0[i + q],
                forall|q: int| 0 <= q < n ==> (#[trigger] surf0[q]).0 == SurfaceIndex(q as usize) && *surf0[q].1 == ss0[q],
                same_entries_mut(r@, tab_entries(ss0, i as int)),
                forall|q: int| 0 <= q < i ==> same_surface_frame(ss0[q], *final(#[trigger] surf0[q].1)),
                forall|k: int| 0 <= k < r@.len() ==> (#[trigger] r@[k]).0.surface.0 < i
                    && node_tabs(surface_tree(*final(surf0[r@[k].0.surface.0 as int].1))->0.node_seq()[r@[k].0.node.0 as int])[r@[k].0.tab.0 as int] == *final(r@[k].1),
            decreases surf@.len(),
        {
            let (si, s) = surf.remove(0);
            let ghost prev = r@;
            let ghost sref = s;
            match s.node_tree_mut() {
                Some(t) => {
                    let mut part = tree_tab_refs_mut(t, si);
                    let ghost part0 = part@;
                    r.append(&mut part);
                    proof {
                        assert forall|k: int| 0 <= k < r@.len() implies (#[trigger] r@[k]).0 == (tab_entries(ss0, i as int) + surface_tab_entries(ss0, i as int, node_count(ss0, i as int)))[k].0
                            && *r@[k].1 == (tab_entries(ss0, i as int) + surface_tab_entries(ss0, i as int, node_count(ss0, i as int)))[k].1 by {
                            if k >= prev.len() {
                                assert(r@[k] == part0[k - prev.len()]);
                            } else {
                                assert(r@[k] == prev[k]);
                            }
                        }
                        assert forall|k: int| 0 <= k < r@.len() implies (#[trigger] r@[k]).0.surface.0 < i + 1
                            && node_tabs(surface_tree(*final(surf0[r@[k].0.surface.0 as int].1))->0.node_seq()[r@[k].0.node.0 as int])[r@[k].0.tab.0 as int] == *final(r@[k].1) by {
                            if k >= prev.len() {
                                assert(r@[k] == part0[k - prev.len()]);
                                assert(surf0[i as int].1 == sref);
                            } else {
                                assert(r@[k] == prev[k]);
                            }
                        }
                    }
                },
                None => {},
            }
            proof {
                assert(surf0[i as int].1 == sref);
                assert(tab_entries(ss0, i + 1) == tab_entries(ss0, i as int) + surface_tab_entries(ss0, i as int, node_count(ss0, i as int)));
            }
            i += 1;
        }
        proof {
            assert forall|q: int| 0 <= q < n implies same_surface_frame(ss0[q], #[trigger] final(slice_ref)@[q]) by {
                assert(surf0[q].0 == SurfaceIndex(q as usize));
            }
        }
        r
    }

    /// Every leaf of every surface, with its path, by surface, then node, mutably.
    pub fn iter_leaves_mut(&mut self) -> (r: Vec<(NodePath, &mut LeafNode<Tab>)>)
        ensures
            ({
                let e = node_entries(old(self).surface_seq(), old(self).surface_seq().len() as int);
                &&& same_entries_mut(r@, leaf_entries(e, e.len() as int))
                &&& forall|q: int| 0 <= q < e.len() && !(e[q].1 is Leaf) ==> crate::dock_state::node_at(final(self).surface_seq(), (#[trigger] e[q]).0) == e[q].1
            }),
            final(self).surface_seq().len() == old(self).surface_seq().len(),
            forall|i: int| 0 <= i < old(self).surface_seq().len() ==> same_frame(old(self).surface_seq()[i], #[trigger] final(self).surface_seq()[i]),
            forall|k: int| 0 <= k < r@.len() ==> crate::dock_state::node_at(final(self).surface_seq(), (#[trigger] r@[k]).0) == Node::Leaf(*final(r@[k].1)),
            final(self).focused() == old(self).focused(),
            final(self).texts() == old(self).texts(),
    {
        let ghost e = node_entries(self.surface_seq(), self.surface_seq().len() as int);
        let mut all = self.iter_all_nodes_mut();
        let ghost all0 = all@;
        let total = all.len();
        let mut r: Vec<(NodePath, &mut LeafNode<Tab>)> = Vec::new();
        let ghost mut idx: Seq<int> = Seq::empty();
        let mut k: usize = 0;
        while all.len() > 0
            invariant
                same_entries_mut(all0, e),
                total == all0.len(),
                k <= all0.len(),
                all@.len() == all0.len() - k,
                forall|q: int| 0 <= q < all@.len() ==> #[trigger] all@[q] == all0[k + q],
                same_entries_mut(r@, leaf_entries(e, k as int)),
                idx.len() == r@.len(),
                forall|j: int| 0 <= j < r@.len() ==> 0 <= idx[j] < k && all0[idx[j]].0 == (#[trigger] r@[j]).0
                    && *final(all0[idx[j]].1) == Node::Leaf(*final(r@[j].1)),
                forall|q: int| #![trigger e[q]] 0 <= q < k && !(e[q].1 is Leaf) ==> *final(all0[q].1) == *all0[q].1,
            decreases all@.len(),
        {
            let (p, n) = all.remove(0);
            let ghost nref = n;
            proof {
                assert(all0[k as int] == (p, nref));
            }
            let ghost r_before = r@;
            proof {
                assert forall|j: int| 0 <= j < r@.len() implies 0 <= #[trigger] idx[j] < k by {
                    assert(r@[j] == r_before[j]);
                }
            }
            match n.get_leaf_mut() {
                Some(leaf) => {
                    let ghost prev = r@;
                    let ghost lref = leaf;
                    r.push((p, leaf));
                    proof {
                        assert(*final(nref) == Node::Leaf(*final(lref)));
                        assert(*final(lref) == *final(r@[r@.len() - 1].1));
                        idx = idx.push(k as int);
                        assert forall|j: int| 0 <= j < r@.len() implies 0 <= idx[j] < k + 1 && all0[idx[j]].0 == (#[trigger] r@[j]).0
                            && *final(all0[idx[j]].1) == Node::Leaf(*final(r@[j].1)) by {
                            if j < prev.len() {
                                assert(r@[j] == prev[j]);
                            }
                        }
                    }
                },
                None => {},
            }
            k += 1;
        }
        r
    }
}

} // verus!
