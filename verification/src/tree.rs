//! A binary tree of nodes stored in breadth-first order.
use vstd::multiset::Multiset;
use vstd::prelude::*;
use vstd::std_specs::cmp::PartialEqSpec;

use crate::destination::Split;
use crate::index::{left_of, parent_of, right_of, NodeIndex};
use crate::node::{node_tabs, Node};
use crate::shape::{
    fits, in_subtree, lemma_fits_lower, lemma_prune_replace_below, lemma_reach_subtree, lemma_replace_below, lemma_subtree_child,
    lemma_subtree_disjoint, lemma_subtree_ge, lemma_subtree_nested, lemma_subtree_split, lemma_subtree_trans,
    lemma_wf_ancestors, lemma_wf_shape, node_ok, nodes_wf, prune, reach, shape, shape_empty_leaves, shape_size,
    shape_tabs, shape_wf, Shape, MAX_NODES,
};
use crate::subtree::{
    extract, lemma_reach_node_ok, lemma_relocate, lemma_wf_below_non_parent, put_node, relocate, take_node,
    write_shape,
};

verus! {

broadcast use vstd::seq_lib::group_to_multiset_ensures;

/// The other child of the parent of `n`.
pub open spec fn sibling_of(n: int) -> int {
    if n % 2 == 1 {
        n + 1
    } else {
        n - 1
    }
}

/// A focus, if any, designates a leaf.
pub open spec fn focus_ok<Tab>(s: Seq<Node<Tab>>, f: Option<NodeIndex>) -> bool {
    f matches Some(n) ==> (n.0 < s.len() && s[n.0 as int] is Leaf)
}

/// `new` is `old` where the subtree at `p` was replaced by the subtree at `s`.
pub open spec fn lifted<Tab>(old: Seq<Node<Tab>>, new: Seq<Node<Tab>>, p: int, s: int) -> bool {
    &&& new.len() == old.len()
    &&& forall|j: int| 0 <= j < old.len() && !in_subtree(j, p) ==> new[j] == old[j]
    &&& shape(new, p) == shape(old, s)
    &&& forall|j: int| 0 <= j < old.len() && in_subtree(j, p) && !(new[j] is Empty) ==> reach(new, p, j)
}

/// Where the focus goes when the leaf at `node` is removed.
pub open spec fn focus_after_removal<Tab>(s: Seq<Node<Tab>>, focus: Option<NodeIndex>, node: int) -> Option<
    NodeIndex,
> {
    if node == 0 {
        None
    } else {
        let p = parent_of(node);
        let sib = sibling_of(node);
        match focus {
            None => None,
            Some(f) => if f.0 == node {
                if s[sib] is Leaf {
                    Some(NodeIndex(p as usize))
                } else {
                    None
                }
            } else if in_subtree(f.0 as int, sib) {
                Some(NodeIndex(relocate(f.0 as int, sib, p) as usize))
            } else {
                Some(f)
            },
        }
    }
}

/// `u` is `t` after removing the leaf at `node`: the tree is emptied if it was the root,
/// otherwise its sibling's subtree takes the place of their parent; the focus follows.
pub open spec fn leaf_removed<Tab>(t: Tree<Tab>, u: Tree<Tab>, node: int) -> bool {
    &&& node == 0 ==> u.node_seq().len() == 0
    &&& node != 0 ==> lifted(t.node_seq(), u.node_seq(), parent_of(node), sibling_of(node))
    &&& u.focus() == focus_after_removal(t.node_seq(), t.focus(), node)
}

/// `u` is `t` after removing the tab at `tab` of the leaf at `node`: the last tab of a
/// leaf takes the leaf with it, any other tab leaves the rest of the tree as it is.
pub open spec fn tab_removed<Tab>(t: Tree<Tab>, u: Tree<Tab>, node: int, tab: int) -> bool {
    let tabs = node_tabs(t.node_seq()[node]);
    &&& tabs.len() == 1 ==> leaf_removed(t, u, node)
    &&& tabs.len() > 1 ==> {
        &&& u.node_seq().len() == t.node_seq().len()
        &&& u.node_seq()[node] is Leaf
        &&& node_tabs(u.node_seq()[node]) == tabs.remove(tab)
        &&& forall|j: int| 0 <= j < t.node_seq().len() && j != node ==> u.node_seq()[j] == t.node_seq()[j]
        &&& u.focus() == t.focus()
    }
}

/// `u` is `t` where the leaf at `node` lost its tab at `tab`; nothing else changed.
pub open spec fn tab_taken<Tab>(t: Tree<Tab>, u: Tree<Tab>, node: int, tab: int) -> bool {
    &&& u.node_seq().len() == t.node_seq().len()
    &&& u.node_seq()[node] is Leaf
    &&& node_tabs(u.node_seq()[node]) == node_tabs(t.node_seq()[node]).remove(tab)
    &&& forall|j: int| 0 <= j < t.node_seq().len() && j != node ==> u.node_seq()[j] == t.node_seq()[j]
    &&& u.focus() == t.focus()
}

/// `t` is a tree whose root is its only node, a leaf holding `tabs` with the first one
/// active, and nothing in focus.
pub open spec fn single_leaf<Tab>(t: Tree<Tab>, tabs: Seq<Tab>) -> bool {
    &&& t.node_seq().len() == 1
    &&& t.node_seq()[0] is Leaf
    &&& node_tabs(t.node_seq()[0]) == tabs
    &&& t.node_seq()[0]->Leaf_0.active.0 == 0
    &&& t.focus() is None
}

/// Removing a leaf gives the same tree whatever that leaf held.
pub proof fn lemma_leaf_removed_any_tabs<Tab>(t: Tree<Tab>, t2: Tree<Tab>, u: Tree<Tab>, node: int)
    requires
        t.wf(),
        0 <= node < t.node_seq().len(),
        t.node_seq()[node] is Leaf,
        t2.node_seq().len() == t.node_seq().len(),
        forall|j: int| 0 <= j < t.node_seq().len() && j != node ==> t2.node_seq()[j] == t.node_seq()[j],
        t2.focus() == t.focus(),
        leaf_removed(t2, u, node),
    ensures
        leaf_removed(t, u, node),
{
    let s = t.node_seq();
    let s2 = t2.node_seq();
    if node != 0 {
        let p = parent_of(node);
        let sib = sibling_of(node);
        assert(node_ok(s, node));
        assert(in_subtree(node, node));
        lemma_subtree_child(node, p);
        assert forall|j: int| 0 <= j < s.len() && !in_subtree(j, p) implies u.node_seq()[j] == s[j] by {}
        assert forall|j: int| 0 <= j < s.len() && in_subtree(j, sib) implies s2[j] == s[j] by {
            if j == node {
                lemma_subtree_ge(j, sib);
                lemma_subtree_disjoint(j, p);
            }
        }
        crate::shape::lemma_shape_frame(s2, s, sib);
        assert(node_ok(s, p));
        assert(0 <= sib < s.len());
        assert(s2[sib] == s[sib]);
        assert(lifted(s, u.node_seq(), p, sib));
        assert(focus_after_removal(s2, t.focus(), node) == focus_after_removal(s, t.focus(), node));
    }
}

/// Removing a leaf, where every other leaf holds tabs, leaves no leaf without tabs.
pub proof fn lemma_leaf_removed_keeps_leaves_filled<Tab>(t: Tree<Tab>, u: Tree<Tab>, node: int)
    requires
        t.wf(),
        0 <= node < t.node_seq().len(),
        t.node_seq()[node] is Leaf,
        leaf_removed(t, u, node),
        forall|j: int| 0 <= j < t.node_seq().len() && j != node && #[trigger] t.node_seq()[j] is Leaf ==> node_tabs(t.node_seq()[j]).len() > 0,
    ensures
        no_empty_leaf(u.node_seq()),
{
    let s = t.node_seq();
    let v = u.node_seq();
    if node != 0 {
        let p = parent_of(node);
        let sib = sibling_of(node);
        assert(node_ok(s, node));
        assert(in_subtree(node, node));
        lemma_subtree_child(node, p);
        assert forall|j: int| 0 <= j < s.len() && in_subtree(j, sib) && #[trigger] s[j] is Leaf implies node_tabs(s[j]).len() > 0 by {
            if j == node {
                lemma_subtree_ge(j, sib);
                lemma_subtree_disjoint(j, p);
            }
        }
        crate::shape::lemma_filled_leaves_shape(s, sib);
        assert forall|j: int| 0 <= j < v.len() && #[trigger] v[j] is Leaf implies node_tabs(v[j]).len() > 0 by {
            if in_subtree(j, p) {
                assert(reach(v, p, j));
                crate::shape::lemma_reach_empty_leaves(v, p, j);
                let l = if left_of(j) < v.len() { shape(v, left_of(j)) } else { Shape::Nil };
                let r = if right_of(j) < v.len() { shape(v, right_of(j)) } else { Shape::Nil };
                assert(shape(v, j) == Shape::Branch(v[j], Box::new(l), Box::new(r)));
            } else {
                assert(v[j] == s[j]);
            }
        }
    }
}

/// Binary tree of dock nodes, stored in breadth-first order.
#[derive(Clone, Debug)]
pub struct Tree<Tab> {
    nodes: Vec<Node<Tab>>,
    focused_node: Option<NodeIndex>,
}

/// Is `j` `i` or below it?
fn is_in_subtree(j: usize, i: usize) -> (r: bool)
    ensures
        r == in_subtree(j as int, i as int),
{
    let mut k = j;
    while k > i
        invariant
            in_subtree(j as int, i as int) == in_subtree(k as int, i as int),
            k <= j,
        decreases k,
    {
        k = (k - 1) / 2;
    }
    k == i
}

/// Position of `f` (below `from`) after the subtree at `from` moved up to `to`.
fn relocate_up(f: usize, from: usize, to: usize) -> (r: usize)
    requires
        in_subtree(f as int, from as int),
        to < from,
    ensures
        r == relocate(f as int, from as int, to as int),
        r < f,
    decreases f,
{
    if f <= from {
        proof {
            lemma_subtree_ge(f as int, from as int);
        }
        to
    } else {
        let m = relocate_up((f - 1) / 2, from, to);
        if f % 2 == 1 {
            2 * m + 1
        } else {
            2 * m + 2
        }
    }
}

impl<Tab> Tree<Tab> {
    /// The nodes, in breadth-first order.
    pub closed spec fn node_seq(&self) -> Seq<Node<Tab>> {
        self.nodes@
    }

    /// The focused node, if any.
    pub closed spec fn focus(&self) -> Option<NodeIndex> {
        self.focused_node
    }

    /// Every parent has two children, every other node hangs from a parent, and the
    /// focus designates a leaf.
    pub open spec fn wf(&self) -> bool {
        &&& nodes_wf(self.node_seq())
        &&& focus_ok(self.node_seq(), self.focus())
    }

    /// The tabs of all leaves of the tree.
    pub open spec fn tabs(&self) -> Multiset<Tab> {
        shape_tabs(shape(self.node_seq(), 0))
    }

    /// The tree seen as a recursive shape from its root.
    pub open spec fn root_shape(&self) -> Shape<Tab> {
        shape(self.node_seq(), 0)
    }

    /// A tree whose root is a leaf holding `tabs`.
    pub fn new(tabs: Vec<Tab>) -> (r: Self)
        ensures
            r.wf(),
            r.node_seq().len() == 1,
            r.node_seq()[0] is Leaf,
            node_tabs(r.node_seq()[0]) == tabs@,
            r.node_seq()[0]->Leaf_0.active.0 == 0,
            r.focus() is None,
            r.tabs() =~= tabs@.to_multiset(),
    {
        let mut nodes = Vec::new();
        nodes.push(Node::leaf_with(tabs));
        let r = Tree { nodes, focused_node: None };
        proof {
            let s = r.nodes@;
            assert(node_ok(s, 0));
            assert(shape(s, 0) == Shape::Branch(s[0], Box::new(Shape::<Tab>::Nil), Box::new(Shape::<Tab>::Nil)));
            assert(node_tabs(s[0]) == tabs@);
            assert(shape_tabs(Shape::<Tab>::Nil) =~= Multiset::empty());
        }
        r
    }

    /// Returns `true` if the node slots and the focus satisfy [`wf`](Self::wf).
    pub fn is_well_formed(&self) -> (r: bool)
        ensures
            r == self.wf(),
    {
        let n = self.nodes.len();
        if n > MAX_NODES {
            return false;
        }
        let mut i: usize = 0;
        while i < n
            invariant
                n == self.nodes@.len(),
                n <= MAX_NODES,
                i <= n,
                forall|j: int| 0 <= j < i ==> #[trigger] node_ok(self.nodes@, j),
            decreases n - i,
        {
            let split = self.nodes[i].is_parent();
            if split {
                if 2 * i + 2 >= n || self.nodes[2 * i + 1].is_empty() || self.nodes[2 * i + 2].is_empty() {
                    proof {
                        assert(!node_ok(self.nodes@, i as int));
                    }
                    return false;
                }
            }
            if i > 0 && !self.nodes[i].is_empty() && !self.nodes[(i - 1) / 2].is_parent() {
                proof {
                    assert(!node_ok(self.nodes@, i as int));
                }
                return false;
            }
            i += 1;
        }
        match self.focused_node {
            Some(f) => f.0 < n && self.nodes[f.0].is_leaf(),
            None => true,
        }
    }

    /// The tree holding `nodes`, in breadth-first order, focused on `focused_node`, if
    /// they are well-formed.
    pub fn from_nodes(nodes: Vec<Node<Tab>>, focused_node: Option<NodeIndex>) -> (r: Option<Self>)
        ensures
            r is Some <==> (nodes_wf(nodes@) && focus_ok(nodes@, focused_node)),
            r matches Some(t) ==> t.node_seq() == nodes@ && t.focus() == focused_node,
    {
        let t = Tree { nodes, focused_node };
        if t.is_well_formed() {
            Some(t)
        } else {
            None
        }
    }

    /// The node slots, in breadth-first order, and the focus.
    pub fn into_parts(self) -> (r: (Vec<Node<Tab>>, Option<NodeIndex>))
        ensures
            r.0@ == self.node_seq(),
            r.1 == self.focus(),
    {
        (self.nodes, self.focused_node)
    }

    /// Number of node slots (including empty ones).
    pub fn len(&self) -> (r: usize)
        ensures
            r == self.node_seq().len(),
    {
        self.nodes.len()
    }

    /// Returns `true` if the tree holds no node slot at all.
    pub fn is_empty(&self) -> (r: bool)
        ensures
            r == (self.node_seq().len() == 0),
    {
        self.nodes.len() == 0
    }

    /// The node at `index`, if the index is in range.
    pub fn get(&self, index: NodeIndex) -> (r: Option<&Node<Tab>>)
        ensures
            index.0 < self.node_seq().len() ==> r == Some(&self.node_seq()[index.0 as int]),
            index.0 >= self.node_seq().len() ==> r is None,
    {
        if index.0 < self.nodes.len() {
            Some(&self.nodes[index.0])
        } else {
            None
        }
    }

    /// The node at `index`, mutably, if the index is in range.
    pub fn get_mut(&mut self, index: NodeIndex) -> (r: Option<&mut Node<Tab>>)
        ensures
            index.0 < old(self).node_seq().len() ==> (r matches Some(n) && *n == old(self).node_seq()[index.0 as int]
                && final(self).node_seq() == old(self).node_seq().update(index.0 as int, *final(n))
                && final(self).focus() == old(self).focus()),
            index.0 >= old(self).node_seq().len() ==> r is None && *final(self) == *old(self),
    {
        if index.0 < self.nodes.len() {
            Some(&mut self.nodes[index.0])
        } else {
            None
        }
    }

    /// The node slots, mutably, for walking over them.
    pub(crate) fn nodes_slice_mut(&mut self) -> (r: &mut [Node<Tab>])
        ensures
            r@ == old(self).node_seq(),
            final(self).node_seq() == final(r)@,
            final(self).focus() == old(self).focus(),
    {
        self.nodes.as_mut_slice()
    }

    /// The focused leaf, if any.
    pub fn focused_leaf(&self) -> (r: Option<NodeIndex>)
        ensures
            r == self.focus(),
    {
        self.focused_node
    }

    /// Focuses `node` if it is a leaf; otherwise clears the focus.
    pub fn set_focused_node(&mut self, node: NodeIndex)
        ensures
            final(self).node_seq() == old(self).node_seq(),
            (node.0 < old(self).node_seq().len() && old(self).node_seq()[node.0 as int] is Leaf) ==> final(self).focus() == Some(node),
            !(node.0 < old(self).node_seq().len() && old(self).node_seq()[node.0 as int] is Leaf) ==> final(self).focus() is None,
    {
        if node.0 < self.nodes.len() && self.nodes[node.0].is_leaf() {
            self.focused_node = Some(node);
        } else {
            self.focused_node = None;
        }
    }

    /// Removes the leaf at `node`, with its tabs.
    ///
    /// Its parent is replaced by its sibling, which moves up together with everything
    /// below it. Removing the root leaves a tree without nodes.
    pub fn remove_leaf(&mut self, node: NodeIndex)
        requires
            old(self).wf(),
            node.0 < old(self).node_seq().len(),
            old(self).node_seq()[node.0 as int] is Leaf,
        ensures
            final(self).wf(),
            node.0 == 0 ==> final(self).node_seq().len() == 0,
            node.0 != 0 ==> lifted(
                old(self).node_seq(),
                final(self).node_seq(),
                parent_of(node.0 as int),
                sibling_of(node.0 as int),
            ),
            final(self).focus() == focus_after_removal(old(self).node_seq(), old(self).focus(), node.0 as int),
            leaf_removed(*old(self), *final(self), node.0 as int),
            final(self).tabs().add(node_tabs(old(self).node_seq()[node.0 as int]).to_multiset())
                =~= old(self).tabs(),
            shape_size(final(self).root_shape()) + (if node.0 == 0 { 1int } else { 2int }) == shape_size(
                old(self).root_shape(),
            ),
            shape_empty_leaves(final(self).root_shape()) + (if node_tabs(
                old(self).node_seq()[node.0 as int],
            ).len() == 0 {
                1int
            } else {
                0int
            }) == shape_empty_leaves(old(self).root_shape()),
            node_tabs(old(self).node_seq()[node.0 as int]).len() == 0 ==> prune(final(self).root_shape()) == prune(
                old(self).root_shape(),
            ),
    {
        let ghost old_nodes = self.nodes@;
        if node.0 == 0 {
            self.nodes.clear();
            self.focused_node = None;
            proof {
                lemma_leaf_root(old_nodes);
                assert(shape(self.nodes@, 0) == Shape::<Tab>::Nil);
            }
            return;
        }
        let n = node.0;
        let p = (n - 1) / 2;
        let s = if n % 2 == 1 {
            n + 1
        } else {
            n - 1
        };
        proof {
            assert(node_ok(old_nodes, n as int));
            assert(node_ok(old_nodes, p as int));
            assert(s as int == sibling_of(n as int));
            assert(s == 2 * p + 1 || s == 2 * p + 2);
            assert(n == 2 * p + 1 || n == 2 * p + 2);
        }
        let new_focus = match self.focused_node {
            Some(f) => {
                if f.0 == n {
                    if self.nodes[s].is_leaf() {
                        Some(NodeIndex(p))
                    } else {
                        None
                    }
                } else if is_in_subtree(f.0, s) {
                    Some(NodeIndex(relocate_up(f.0, s, p)))
                } else {
                    Some(f)
                }
            },
            None => None,
        };
        let t = extract(&mut self.nodes, s);
        let ghost mid1 = self.nodes@;
        let _ = take_node(&mut self.nodes, n);
        let _ = take_node(&mut self.nodes, p);
        let ghost mid2 = self.nodes@;
        proof {
            lemma_wf_shape(old_nodes, s as int);
            lemma_fits_lower(t, p as int, s as int, old_nodes.len() as int);
            assert forall|j: int| 0 <= j < mid2.len() && in_subtree(j, p as int) implies mid2[j] is Empty by {
                lemma_cleared_below(old_nodes, mid1, mid2, n as int, p as int, s as int, j);
            }
        }
        write_shape(&mut self.nodes, t, p);
        self.focused_node = new_focus;
        proof {
            let new_nodes = self.nodes@;
            assert forall|j: int| 0 <= j < old_nodes.len() && !in_subtree(j, p as int) implies new_nodes[j]
                == old_nodes[j] by {
                lemma_outside_unchanged(old_nodes, mid1, mid2, n as int, p as int, s as int, j);
            }
            assert(lifted(old_nodes, new_nodes, p as int, s as int));
            lemma_lift_wf(old_nodes, new_nodes, n as int, p as int, s as int);
            lemma_lift_measures(old_nodes, new_nodes, n as int, p as int, s as int);
            lemma_lift_focus(old_nodes, new_nodes, self.focused_node, old(self).focused_node, n as int, p as int, s as int);
        }
    }
}

/// A leaf at the root is the only node of a well-formed array.
proof fn lemma_leaf_root<Tab>(s: Seq<Node<Tab>>)
    requires
        nodes_wf(s),
        s.len() > 0,
        s[0] is Leaf,
    ensures
        shape(s, 0) == Shape::Branch(s[0], Box::new(Shape::<Tab>::Nil), Box::new(Shape::<Tab>::Nil)),
        shape_size(shape(s, 0)) == 1,
        shape_tabs(shape(s, 0)) =~= node_tabs(s[0]).to_multiset(),
        shape_empty_leaves(shape(s, 0)) == (if node_tabs(s[0]).len() == 0 { 1nat } else { 0nat }),
{
    assert(in_subtree(0, 0));
    if 1 < s.len() {
        assert(in_subtree(1, 0));
        lemma_wf_below_non_parent(s, 0, 1);
    }
    if 2 < s.len() {
        assert(in_subtree(2, 0));
        lemma_wf_below_non_parent(s, 0, 2);
    }
    assert(shape(s, 1) == Shape::<Tab>::Nil);
    assert(shape(s, 2) == Shape::<Tab>::Nil);
    let t = Shape::Branch(s[0], Box::new(Shape::<Tab>::Nil), Box::new(Shape::<Tab>::Nil));
    assert(shape(s, 0) == t);
    assert(shape_size(Shape::<Tab>::Nil) == 0);
    assert(shape_empty_leaves(Shape::<Tab>::Nil) == 0);
    assert(shape_size(t) == 1);
    assert(shape_tabs(Shape::<Tab>::Nil) =~= Multiset::empty());
    assert(shape_tabs(t) =~= node_tabs(s[0]).to_multiset());
}

/// After extracting the sibling and emptying the leaf and the parent, nothing is left below the parent.
proof fn lemma_cleared_below<Tab>(
    old: Seq<Node<Tab>>,
    mid1: Seq<Node<Tab>>,
    mid2: Seq<Node<Tab>>,
    n: int,
    p: int,
    s: int,
    j: int,
)
    requires
        nodes_wf(old),
        0 < n < old.len(),
        old[n] is Leaf,
        p == parent_of(n),
        s == sibling_of(n),
        s == left_of(p) || s == right_of(p),
        n == left_of(p) || n == right_of(p),
        s != n,
        mid1.len() == old.len(),
        forall|k: int| 0 <= k < old.len() ==> #[trigger] mid1[k] == if reach(old, s, k) { Node::Empty } else { old[k] },
        mid2 == mid1.update(n, Node::Empty).update(p, Node::Empty),
        0 <= j < old.len(),
        in_subtree(j, p),
    ensures
        mid2[j] is Empty,
{
    if j != p && j != n {
        lemma_subtree_split(j, p);
        if in_subtree(j, n) {
            lemma_wf_below_non_parent(old, n, j);
            assert(mid1[j] == old[j] || mid1[j] is Empty);
        } else {
            assert(in_subtree(j, s));
            if !(old[j] is Empty) {
                lemma_wf_ancestors(old, s, j);
            }
            assert(mid1[j] is Empty || mid1[j] == old[j]);
        }
    }
}

/// The positions outside the parent's subtree keep their nodes.
proof fn lemma_outside_unchanged<Tab>(
    old: Seq<Node<Tab>>,
    mid1: Seq<Node<Tab>>,
    mid2: Seq<Node<Tab>>,
    n: int,
    p: int,
    s: int,
    j: int,
)
    requires
        0 <= p,
        s == left_of(p) || s == right_of(p),
        n == left_of(p) || n == right_of(p),
        mid1.len() == old.len(),
        forall|k: int| 0 <= k < old.len() ==> #[trigger] mid1[k] == if reach(old, s, k) { Node::Empty } else { old[k] },
        0 <= n < old.len(),
        0 <= p < old.len(),
        mid2 == mid1.update(n, Node::Empty).update(p, Node::Empty),
        0 <= j < old.len(),
        !in_subtree(j, p),
    ensures
        mid2[j] == old[j],
{
    assert(in_subtree(p, p));
    assert(j != p);
    if j == n || j == s {
        assert(in_subtree(j, j));
        lemma_subtree_child(j, p);
    }
    if reach(old, s, j) {
        lemma_reach_subtree(old, s, j);
        lemma_subtree_child(j, p);
    }
    assert(j != n);
    assert(mid1[j] == old[j]);
}

/// The lifted array is well-formed.
proof fn lemma_lift_wf<Tab>(old: Seq<Node<Tab>>, new: Seq<Node<Tab>>, n: int, p: int, s: int)
    requires
        nodes_wf(old),
        0 < n < old.len(),
        old[n] is Leaf,
        p == parent_of(n),
        s == sibling_of(n),
        s == left_of(p) || s == right_of(p),
        n == left_of(p) || n == right_of(p),
        s != n,
        lifted(old, new, p, s),
    ensures
        nodes_wf(new),
{
    assert(node_ok(old, p));
    assert(node_ok(old, n));
    lemma_wf_shape(old, s);
    assert(shape(old, s) is Branch);
    assert(shape(new, p) is Branch);
    assert(in_subtree(p, p));
    assert forall|j: int| 0 <= j < new.len() implies #[trigger] node_ok(new, j) by {
        assert(node_ok(old, j));
        if in_subtree(j, p) {
            if !(new[j] is Empty) {
                assert(reach(new, p, j));
                lemma_reach_node_ok(new, p, j);
                if j == p && p > 0 {
                    assert(!in_subtree(parent_of(p), p)) by {
                        if in_subtree(parent_of(p), p) {
                            lemma_subtree_ge(parent_of(p), p);
                        }
                    }
                    assert(node_ok(old, p));
                }
            }
        } else {
            assert(new[j] == old[j]);
            if new[j].is_split() {
                assert(in_subtree(left_of(j), j) && in_subtree(right_of(j), j)) by {
                    assert(in_subtree(j, j));
                    lemma_subtree_child(left_of(j), j);
                    lemma_subtree_child(right_of(j), j);
                }
                if in_subtree(left_of(j), p) && left_of(j) != p {
                    assert(in_subtree(j, p));
                }
                if in_subtree(right_of(j), p) && right_of(j) != p {
                    assert(in_subtree(j, p));
                }
            }
            if j > 0 && !(new[j] is Empty) {
                if in_subtree(parent_of(j), p) {
                    lemma_subtree_ge(parent_of(j), p);
                    assert(in_subtree(j, p));
                }
            }
        }
    }
}

/// Tabs, size and empty leaves after the lift.
proof fn lemma_lift_measures<Tab>(old: Seq<Node<Tab>>, new: Seq<Node<Tab>>, n: int, p: int, s: int)
    requires
        nodes_wf(old),
        0 < n < old.len(),
        old[n] is Leaf,
        p == parent_of(n),
        s == sibling_of(n),
        s == left_of(p) || s == right_of(p),
        n == left_of(p) || n == right_of(p),
        s != n,
        lifted(old, new, p, s),
    ensures
        shape_tabs(shape(new, 0)).add(node_tabs(old[n]).to_multiset()) =~= shape_tabs(shape(old, 0)),
        shape_size(shape(new, 0)) + 2 == shape_size(shape(old, 0)),
        shape_empty_leaves(shape(new, 0)) + (if node_tabs(old[n]).len() == 0 { 1int } else { 0int })
            == shape_empty_leaves(shape(old, 0)),
        node_tabs(old[n]).len() == 0 ==> prune(shape(new, 0)) == prune(shape(old, 0)),
{
    assert(node_ok(old, n));
    assert(node_ok(old, p));
    lemma_in_subtree_root(p);
    assert forall|j: int| in_subtree(p, j) && j != p implies reach(old, j, parent_of(p)) by {
        lemma_subtree_ge(p, j);
        assert(!(old[p] is Empty));
        assert(in_subtree(parent_of(p), j));
        assert(node_ok(old, parent_of(p)));
        lemma_wf_ancestors(old, j, parent_of(p));
    }
    lemma_replace_below(old, new, 0, p);
    // the old shape at p: the parent, the leaf and the sibling
    assert(node_ok(old, n));
    assert(shape(old, n) == Shape::Branch(old[n], Box::new(Shape::<Tab>::Nil), Box::new(Shape::<Tab>::Nil))) by {
        if left_of(n) < old.len() {
            assert(in_subtree(left_of(n), n)) by {
                assert(in_subtree(n, n));
            }
            lemma_wf_below_non_parent(old, n, left_of(n));
        }
        if right_of(n) < old.len() {
            assert(in_subtree(right_of(n), n)) by {
                assert(in_subtree(n, n));
            }
            lemma_wf_below_non_parent(old, n, right_of(n));
        }
        assert(shape(old, left_of(n)) == Shape::<Tab>::Nil);
        assert(shape(old, right_of(n)) == Shape::<Tab>::Nil);
    }
    assert(node_tabs(old[p]) =~= Seq::<Tab>::empty());
    let lt = node_tabs(old[n]).to_multiset();
    let st = shape_tabs(shape(old, s));
    let e = Multiset::<Tab>::empty();
    assert(shape_tabs(Shape::<Tab>::Nil) =~= e);
    assert(shape_tabs(shape(old, n)) =~= lt);
    assert(shape_size(Shape::<Tab>::Nil) == 0);
    assert(shape_empty_leaves(Shape::<Tab>::Nil) == 0);
    assert(shape_size(shape(old, n)) == 1);
    assert(shape_empty_leaves(shape(old, n)) == (if node_tabs(old[n]).len() == 0 { 1nat } else { 0nat }));
    assert(shape(old, left_of(p)) == (if left_of(p) < old.len() { shape(old, left_of(p)) } else { Shape::Nil }));
    assert(shape(old, right_of(p)) == (if right_of(p) < old.len() { shape(old, right_of(p)) } else { Shape::Nil }));
    assert(shape_size(shape(old, p)) == 2 + shape_size(shape(old, s)));
    assert(shape_empty_leaves(shape(old, p)) == shape_empty_leaves(shape(old, n)) + shape_empty_leaves(shape(old, s)));
    assert(node_tabs(old[p]).to_multiset() =~= e);
    if n == left_of(p) {
        assert(shape_tabs(shape(old, p)) =~= e.add(lt).add(st));
    } else {
        assert(shape_tabs(shape(old, p)) =~= e.add(st).add(lt));
    }
    let a = shape_tabs(shape(new, 0));
    let b = shape_tabs(shape(old, 0));
    assert forall|v: Tab| #[trigger] a.add(lt).count(v) == b.count(v) by {
        assert(a.add(shape_tabs(shape(old, p))).count(v) == b.add(st).count(v));
    }
    if node_tabs(old[n]).len() == 0 {
        assert(prune(shape(old, n)) == Shape::<Tab>::Nil);
        assert(old[p].is_split());
        assert(prune(shape(old, p)) == prune(shape(old, s)));
        assert(prune(shape(new, p)) == prune(shape(old, p)));
        lemma_prune_replace_below(old, new, 0, p);
    }
}

proof fn lemma_in_subtree_root(j: int)
    requires
        j >= 0,
    ensures
        in_subtree(j, 0),
    decreases j,
{
    if j > 0 {
        lemma_in_subtree_root(parent_of(j));
    }
}

/// The focus after the lift still designates a leaf, and the expected one.
proof fn lemma_lift_focus<Tab>(
    old: Seq<Node<Tab>>,
    new: Seq<Node<Tab>>,
    new_focus: Option<NodeIndex>,
    old_focus: Option<NodeIndex>,
    n: int,
    p: int,
    s: int,
)
    requires
        nodes_wf(old),
        focus_ok(old, old_focus),
        0 < n < old.len(),
        old[n] is Leaf,
        p == parent_of(n),
        s == sibling_of(n),
        s == left_of(p) || s == right_of(p),
        n == left_of(p) || n == right_of(p),
        s != n,
        lifted(old, new, p, s),
        new_focus == focus_after_removal(old, old_focus, n),
    ensures
        focus_ok(new, new_focus),
{
    assert(node_ok(old, n));
    assert(node_ok(old, p));
    if let Some(f) = old_focus {
        let fi = f.0 as int;
        assert(in_subtree(p, p));
        if fi == n {
            if old[s] is Leaf {
                assert(shape(old, s) is Branch);
                assert(shape(new, p) is Branch);
                assert(new[p] == old[s]);
            }
        } else if in_subtree(fi, s) {
            lemma_wf_ancestors(old, s, fi);
            lemma_relocate(new, p, old, s, fi);
            lemma_reach_subtree(new, p, relocate(fi, s, p));
        } else {
            assert(fi < old.len() && old[fi] is Leaf);
            assert(!in_subtree(fi, p)) by {
                if in_subtree(fi, p) {
                    if fi == p {
                        assert(old[p].is_split());
                    } else {
                        lemma_subtree_split(fi, p);
                        if in_subtree(fi, n) && fi != n {
                            lemma_wf_below_non_parent(old, n, fi);
                        }
                    }
                }
            }
        }
    }
}


/// The shape below a leaf of a well-formed array is the leaf alone.
pub proof fn lemma_leaf_shape<Tab>(s: Seq<Node<Tab>>, x: int)
    requires
        nodes_wf(s),
        0 <= x < s.len(),
        s[x] is Leaf,
    ensures
        shape(s, x) == Shape::Branch(s[x], Box::new(Shape::<Tab>::Nil), Box::new(Shape::<Tab>::Nil)),
        shape_tabs(shape(s, x)) =~= node_tabs(s[x]).to_multiset(),
        shape_size(shape(s, x)) == 1,
        shape_empty_leaves(shape(s, x)) == (if node_tabs(s[x]).len() == 0 { 1nat } else { 0nat }),
{
    assert(in_subtree(x, x));
    if left_of(x) < s.len() {
        assert(in_subtree(left_of(x), x));
        lemma_wf_below_non_parent(s, x, left_of(x));
    }
    if right_of(x) < s.len() {
        assert(in_subtree(right_of(x), x));
        lemma_wf_below_non_parent(s, x, right_of(x));
    }
    assert(shape(s, left_of(x)) == Shape::<Tab>::Nil);
    assert(shape(s, right_of(x)) == Shape::<Tab>::Nil);
    assert(shape_size(Shape::<Tab>::Nil) == 0);
    assert(shape_empty_leaves(Shape::<Tab>::Nil) == 0);
    assert(shape_tabs(Shape::<Tab>::Nil) =~= Multiset::empty());
}

/// The nodes above a non-empty node are reached from every ancestor.
pub proof fn lemma_ancestors_reach<Tab>(s: Seq<Node<Tab>>, x: int)
    requires
        nodes_wf(s),
        0 <= x < s.len(),
        !(s[x] is Empty),
    ensures
        in_subtree(x, 0),
        forall|j: int| in_subtree(x, j) && j != x ==> reach(s, j, parent_of(x)),
{
    lemma_in_subtree_root(x);
    assert forall|j: int| in_subtree(x, j) && j != x implies reach(s, j, parent_of(x)) by {
        lemma_subtree_ge(x, j);
        assert(in_subtree(parent_of(x), j));
        assert(node_ok(s, x));
        lemma_wf_ancestors(s, j, parent_of(x));
    }
}

/// Replacing one node by another of the same kind keeps the array well-formed.
pub proof fn lemma_same_kind_wf<Tab>(old: Seq<Node<Tab>>, x: int, n: Node<Tab>)
    requires
        nodes_wf(old),
        0 <= x < old.len(),
        n.is_split() == old[x].is_split(),
        (n is Empty) == (old[x] is Empty),
    ensures
        nodes_wf(old.update(x, n)),
{
    let new = old.update(x, n);
    assert forall|j: int| 0 <= j < new.len() implies #[trigger] node_ok(new, j) by {
        assert(node_ok(old, j));
    }
}

/// Replacing a leaf by another leaf: the tabs change by as much.
pub proof fn lemma_replace_leaf<Tab>(old: Seq<Node<Tab>>, x: int, n: Node<Tab>)
    requires
        nodes_wf(old),
        0 <= x < old.len(),
        old[x] is Leaf,
        n is Leaf,
    ensures
        nodes_wf(old.update(x, n)),
        shape_tabs(shape(old.update(x, n), 0)).add(node_tabs(old[x]).to_multiset()) =~= shape_tabs(
            shape(old, 0),
        ).add(node_tabs(n).to_multiset()),
        shape_size(shape(old.update(x, n), 0)) == shape_size(shape(old, 0)),
        shape_empty_leaves(shape(old.update(x, n), 0)) + (if node_tabs(old[x]).len() == 0 { 1int } else { 0int })
            == shape_empty_leaves(shape(old, 0)) + (if node_tabs(n).len() == 0 { 1int } else { 0int }),
{
    let new = old.update(x, n);
    lemma_same_kind_wf(old, x, n);
    lemma_ancestors_reach(old, x);
    assert forall|j: int| 0 <= j < old.len() && !in_subtree(j, x) implies old[j] == new[j] by {
        assert(in_subtree(x, x));
    }
    lemma_replace_below(old, new, 0, x);
    lemma_leaf_shape(old, x);
    lemma_leaf_shape(new, x);
}

impl<Tab> Tree<Tab> {
    /// Removes the tab `tab` of the leaf `node`; a leaf left without tabs is removed too.
    ///
    /// Returns the removed tab, or `None` if there is no such tab.
    pub fn remove_tab(&mut self, index: (NodeIndex, crate::index::TabIndex)) -> (r: Option<Tab>)
        requires
            old(self).wf(),
        ensures
            final(self).wf(),
            tab_exists(old(self).node_seq(), index.0, index.1) ==> {
                let tabs = node_tabs(old(self).node_seq()[index.0.0 as int]);
                &&& r == Some(tabs[index.1.0 as int])
                &&& final(self).tabs().insert(tabs[index.1.0 as int]) =~= old(self).tabs()
                &&& tab_removed(*old(self), *final(self), index.0.0 as int, index.1.0 as int)
                &&& tabs.len() == 1 ==> {
                    &&& index.0.0 == 0 ==> final(self).node_seq().len() == 0
                    &&& index.0.0 != 0 ==> lifted(
                        old(self).node_seq(),
                        final(self).node_seq(),
                        parent_of(index.0.0 as int),
                        sibling_of(index.0.0 as int),
                    )
                    &&& final(self).focus() == focus_after_removal(
                        old(self).node_seq(),
                        old(self).focus(),
                        index.0.0 as int,
                    )
                }
                &&& tabs.len() > 1 ==> {
                    &&& final(self).node_seq().len() == old(self).node_seq().len()
                    &&& final(self).node_seq()[index.0.0 as int] is Leaf
                    &&& node_tabs(final(self).node_seq()[index.0.0 as int]) == tabs.remove(index.1.0 as int)
                    &&& forall|j: int|
                        0 <= j < old(self).node_seq().len() && j != index.0.0 ==> final(self).node_seq()[j]
                            == old(self).node_seq()[j]
                    &&& final(self).focus() == old(self).focus()
                }
            },
            !tab_exists(old(self).node_seq(), index.0, index.1) ==> r is None && *final(self) == *old(self),
    {
        let (node, tab) = index;
        if node.0 >= self.nodes.len() || tab.0 >= self.nodes[node.0].tabs_count() || !self.nodes[node.0].is_leaf() {
            return None;
        }
        let ghost old_nodes = self.nodes@;
        let ghost old_tabs = node_tabs(old_nodes[node.0 as int]);
        let mut n = take_node(&mut self.nodes, node.0);
        let removed = n.remove_tab(tab);
        let now_empty = n.tabs_count() == 0;
        put_node(&mut self.nodes, node.0, n);
        proof {
            lemma_replace_leaf(old_nodes, node.0 as int, n);
            assert(self.nodes@ == old_nodes.update(node.0 as int, n));
            assert(old_tabs.to_multiset() =~= old_tabs.remove(tab.0 as int).to_multiset().insert(
                old_tabs[tab.0 as int],
            ));
        }
        if now_empty {
            let ghost mid = self.nodes@;
            self.remove_leaf(node);
            proof {
                assert(old_tabs.remove(tab.0 as int).len() == 0);
                assert(node_tabs(mid[node.0 as int]).to_multiset() =~= Multiset::empty());
                if node.0 != 0 {
                    assert forall|j: int| 0 <= j < mid.len() && !in_subtree(j, parent_of(node.0 as int))
                        implies self.nodes@[j] == old_nodes[j] by {
                        if j == node.0 {
                            lemma_subtree_child(j, parent_of(node.0 as int));
                            assert(in_subtree(j, j));
                        }
                    }
                    assert(shape(mid, sibling_of(node.0 as int)) == shape(old_nodes, sibling_of(node.0 as int))) by {
                        let sib = sibling_of(node.0 as int);
                        assert forall|j: int| 0 <= j < mid.len() && in_subtree(j, sib) implies mid[j] == old_nodes[j] by {
                            if j == node.0 {
                                lemma_subtree_ge(j, sib);
                                lemma_subtree_disjoint(j, parent_of(node.0 as int));
                                assert(in_subtree(j, j));
                            }
                        }
                        crate::shape::lemma_shape_frame(mid, old_nodes, sib);
                    }
                    assert(node_ok(old_nodes, node.0 as int));
                    assert(node_ok(old_nodes, parent_of(node.0 as int)));
                    assert(mid[sibling_of(node.0 as int)] == old_nodes[sibling_of(node.0 as int)]);
                }
                let x = old_tabs[tab.0 as int];
                let ft = shape_tabs(shape(self.nodes@, 0));
                let mt = shape_tabs(shape(mid, 0));
                let ot = shape_tabs(shape(old_nodes, 0));
                assert forall|v: Tab| #[trigger] ft.insert(x).count(v) == ot.count(v) by {
                    assert(ft.add(Multiset::empty()).count(v) == mt.count(v));
                    assert(mt.add(old_tabs.to_multiset()).count(v) == ot.add(old_tabs.remove(tab.0 as int).to_multiset()).count(v));
                }
            }
        } else {
            proof {
                let x = old_tabs[tab.0 as int];
                let ft = shape_tabs(shape(self.nodes@, 0));
                let ot = shape_tabs(shape(old_nodes, 0));
                assert forall|v: Tab| #[trigger] ft.insert(x).count(v) == ot.count(v) by {
                    assert(ft.add(old_tabs.to_multiset()).count(v) == ot.add(old_tabs.remove(tab.0 as int).to_multiset()).count(v));
                }
            }
        }
        removed
    }
}

/// There is a leaf at `node` with a tab at `tab`.
pub open spec fn tab_exists<Tab>(s: Seq<Node<Tab>>, node: NodeIndex, tab: crate::index::TabIndex) -> bool {
    &&& node.0 < s.len()
    &&& s[node.0 as int] is Leaf
    &&& tab.0 < node_tabs(s[node.0 as int]).len()
}


/// The first position, from `i` on, that does not hold a parent.
pub open spec fn first_non_split_from<Tab>(s: Seq<Node<Tab>>, i: int) -> int
    decreases s.len() - i,
{
    if i < 0 || i >= s.len() {
        s.len() as int
    } else if !s[i].is_split() {
        i
    } else {
        first_non_split_from(s, i + 1)
    }
}

/// Appending empty nodes changes no shape.
pub proof fn lemma_pad_shape<Tab>(s: Seq<Node<Tab>>, t: Seq<Node<Tab>>, i: int)
    requires
        t.len() >= s.len(),
        forall|j: int| 0 <= j < s.len() ==> t[j] == s[j],
        forall|j: int| s.len() <= j < t.len() ==> t[j] is Empty,
        i >= 0,
    ensures
        shape(t, i) == shape(s, i),
    decreases t.len() - i,
{
    if i < t.len() && !(t[i] is Empty) {
        if left_of(i) < t.len() {
            lemma_pad_shape(s, t, left_of(i));
        }
        if right_of(i) < t.len() {
            lemma_pad_shape(s, t, right_of(i));
        }
        assert(shape(s, left_of(i)) == (if left_of(i) < s.len() { shape(s, left_of(i)) } else { Shape::Nil }));
        assert(shape(s, right_of(i)) == (if right_of(i) < s.len() { shape(s, right_of(i)) } else { Shape::Nil }));
        assert(shape(t, left_of(i)) == (if left_of(i) < t.len() { shape(t, left_of(i)) } else { Shape::Nil }));
        assert(shape(t, right_of(i)) == (if right_of(i) < t.len() { shape(t, right_of(i)) } else { Shape::Nil }));
    }
}

/// Appending empty nodes keeps an array well-formed.
pub proof fn lemma_pad_wf<Tab>(s: Seq<Node<Tab>>, t: Seq<Node<Tab>>)
    requires
        nodes_wf(s),
        t.len() >= s.len(),
        t.len() <= MAX_NODES,
        forall|j: int| 0 <= j < s.len() ==> t[j] == s[j],
        forall|j: int| s.len() <= j < t.len() ==> t[j] is Empty,
    ensures
        nodes_wf(t),
{
    assert forall|j: int| 0 <= j < t.len() implies #[trigger] node_ok(t, j) by {
        if j < s.len() {
            assert(node_ok(s, j));
        }
    }
}

/// An empty root means no node at all.
proof fn lemma_empty_root<Tab>(s: Seq<Node<Tab>>, j: int)
    requires
        nodes_wf(s),
        s.len() > 0,
        s[0] is Empty,
        0 <= j < s.len(),
    ensures
        s[j] is Empty,
{
    if !(s[j] is Empty) {
        lemma_in_subtree_root(j);
        lemma_wf_ancestors(s, 0, j);
    }
}

impl<Tab> Tree<Tab> {
    /// Appends `tab` to the leaf at `node` and makes it active.
    pub fn append_tab(&mut self, node: NodeIndex, tab: Tab)
        requires
            old(self).wf(),
            node.0 < old(self).node_seq().len(),
            old(self).node_seq()[node.0 as int] is Leaf,
        ensures
            final(self).wf(),
            final(self).node_seq().len() == old(self).node_seq().len(),
            final(self).node_seq()[node.0 as int] is Leaf,
            node_tabs(final(self).node_seq()[node.0 as int]) == node_tabs(old(self).node_seq()[node.0 as int]).push(tab),
            final(self).node_seq()[node.0 as int]->Leaf_0.active.0 == node_tabs(old(self).node_seq()[node.0 as int]).len(),
            forall|j: int| 0 <= j < old(self).node_seq().len() && j != node.0 ==> final(self).node_seq()[j] == old(self).node_seq()[j],
            final(self).focus() == old(self).focus(),
            final(self).tabs() =~= old(self).tabs().insert(tab),
    {
        let ghost old_nodes = self.nodes@;
        let mut n = take_node(&mut self.nodes, node.0);
        n.append_tab(tab);
        put_node(&mut self.nodes, node.0, n);
        proof {
            let ot = node_tabs(old_nodes[node.0 as int]);
            lemma_replace_leaf(old_nodes, node.0 as int, n);
            assert(self.nodes@ == old_nodes.update(node.0 as int, n));
            let ft = shape_tabs(shape(self.nodes@, 0));
            let o = shape_tabs(shape(old_nodes, 0));
            assert forall|v: Tab| #[trigger] ft.count(v) == o.insert(tab).count(v) by {
                assert(ft.add(ot.to_multiset()).count(v) == o.add(ot.push(tab).to_multiset()).count(v));
            }
        }
    }

    /// Inserts `tab` into the leaf at `node` at position `index` and makes it active.
    pub fn insert_tab(&mut self, node: NodeIndex, index: crate::index::TabIndex, tab: Tab)
        requires
            old(self).wf(),
            node.0 < old(self).node_seq().len(),
            old(self).node_seq()[node.0 as int] is Leaf,
            index.0 <= node_tabs(old(self).node_seq()[node.0 as int]).len(),
        ensures
            final(self).wf(),
            final(self).node_seq().len() == old(self).node_seq().len(),
            final(self).node_seq()[node.0 as int] is Leaf,
            node_tabs(final(self).node_seq()[node.0 as int]) == node_tabs(old(self).node_seq()[node.0 as int]).insert(index.0 as int, tab),
            final(self).node_seq()[node.0 as int]->Leaf_0.active == index,
            forall|j: int| 0 <= j < old(self).node_seq().len() && j != node.0 ==> final(self).node_seq()[j] == old(self).node_seq()[j],
            final(self).focus() == old(self).focus(),
            final(self).tabs() =~= old(self).tabs().insert(tab),
    {
        let ghost old_nodes = self.nodes@;
        let mut n = take_node(&mut self.nodes, node.0);
        n.insert_tab(index, tab);
        put_node(&mut self.nodes, node.0, n);
        proof {
            let ot = node_tabs(old_nodes[node.0 as int]);
            lemma_replace_leaf(old_nodes, node.0 as int, n);
            assert(self.nodes@ == old_nodes.update(node.0 as int, n));
            let ft = shape_tabs(shape(self.nodes@, 0));
            let o = shape_tabs(shape(old_nodes, 0));
            assert(ot.insert(index.0 as int, tab).to_multiset() =~= ot.to_multiset().insert(tab)) by {
                vstd::seq_lib::to_multiset_insert(ot, index.0 as int, tab);
            }
            assert forall|v: Tab| #[trigger] ft.count(v) == o.insert(tab).count(v) by {
                assert(ft.add(ot.to_multiset()).count(v) == o.add(ot.insert(index.0 as int, tab).to_multiset()).count(v));
            }
        }
    }

    /// Pushes `tab` to the first leaf in breadth-first order, or makes the first empty
    /// position a leaf holding it. That node gets the focus.
    pub fn push_to_first_leaf(&mut self, tab: Tab)
        requires
            old(self).wf(),
        ensures
            final(self).wf(),
            final(self).tabs() =~= old(self).tabs().insert(tab),
            pushed_to_first_leaf(old(self).node_seq(), final(self).node_seq(), final(self).focus(), tab),
            final(self).focus() matches Some(f) && {
                &&& forall|k: int| 0 <= k < f.0 && k < old(self).node_seq().len() ==> (#[trigger] old(self).node_seq()[k]).is_split()
                &&& f.0 < old(self).node_seq().len() ==> !old(self).node_seq()[f.0 as int].is_split()
                &&& final(self).node_seq()[f.0 as int] is Leaf
                &&& node_tabs(final(self).node_seq()[f.0 as int]) == if f.0 < old(self).node_seq().len() && old(self).node_seq()[f.0 as int] is Leaf {
                    node_tabs(old(self).node_seq()[f.0 as int]).push(tab)
                } else {
                    seq![tab]
                }
            },
    {
        let ghost s = self.nodes@;
        let mut i: usize = 0;
        while i < self.nodes.len()
            invariant
                self.nodes@ == s,
                *self == *old(self),
                self.wf(),
                nodes_wf(s),
                i <= s.len(),
                forall|k: int| 0 <= k < i ==> s[k].is_split(),
                first_non_split_from(s, 0) == first_non_split_from(s, i as int),
            decreases s.len() - i,
        {
            if self.nodes[i].is_leaf() {
                proof {
                    lemma_first_non_split(s, 0, i as int);
                }
                self.append_tab(NodeIndex(i), tab);
                self.focused_node = Some(NodeIndex(i));
                return;
            }
            if self.nodes[i].is_empty() {
                proof {
                    if i > 0 {
                        assert(first_non_split_from(s, 0) == i) by {
                            lemma_first_non_split(s, 0, i as int);
                        }
                        assert(node_ok(s, parent_of(i as int)));
                        lemma_first_non_split_before(s, parent_of(i as int), i as int);
                        assert(node_ok(s, parent_of(i as int)));
                        assert(i as int == left_of(parent_of(i as int)) || i as int == right_of(parent_of(i as int)));
                    }
                }
                put_node(&mut self.nodes, i, Node::leaf(tab));
                self.focused_node = Some(NodeIndex(i));
                proof {
                    lemma_root_becomes_leaf(s, self.nodes@);
                }
                return;
            }
            proof {
                lemma_first_non_split(s, 0, i as int + 1);
            }
            i += 1;
        }
        proof {
            if s.len() > 0 {
                assert(node_ok(s, s.len() - 1));
                lemma_first_non_split(s, 0, s.len() as int);
                assert(s[s.len() - 1].is_split()) by {
                    lemma_first_non_split_before(s, s.len() - 1, s.len() as int);
                }
            }
        }
        self.nodes.push(Node::leaf(tab));
        self.focused_node = Some(NodeIndex(0));
        proof {
            let t = self.nodes@;
            assert(node_ok(t, 0));
            lemma_leaf_shape(t, 0);
            assert(shape(s, 0) == Shape::<Tab>::Nil);
            assert(shape_tabs(Shape::<Tab>::Nil) =~= Multiset::empty());
        }
    }

    /// Pushes `tab` to the focused leaf; without a focus, behaves as
    /// [`push_to_first_leaf`](Self::push_to_first_leaf).
    pub fn push_to_focused_leaf(&mut self, tab: Tab)
        requires
            old(self).wf(),
        ensures
            final(self).wf(),
            final(self).tabs() =~= old(self).tabs().insert(tab),
            old(self).focus() matches Some(f) ==> {
                &&& final(self).node_seq().len() == old(self).node_seq().len()
                &&& final(self).node_seq()[f.0 as int] is Leaf
                &&& node_tabs(final(self).node_seq()[f.0 as int]) == node_tabs(old(self).node_seq()[f.0 as int]).push(tab)
                &&& forall|k: int| 0 <= k < old(self).node_seq().len() && k != f.0 ==> final(self).node_seq()[k] == old(self).node_seq()[k]
                &&& final(self).focus() == Some(f)
            },
            old(self).focus() is None ==> pushed_to_first_leaf(old(self).node_seq(), final(self).node_seq(), final(self).focus(), tab),
    {
        match self.focused_node {
            Some(f) => {
                self.append_tab(f, tab);
            },
            None => {
                self.push_to_first_leaf(tab);
            },
        }
    }
}

proof fn lemma_first_non_split<Tab>(s: Seq<Node<Tab>>, i: int, j: int)
    requires
        0 <= i <= j <= s.len(),
        forall|k: int| i <= k < j ==> s[k].is_split(),
    ensures
        first_non_split_from(s, i) == first_non_split_from(s, j),
    decreases j - i,
{
    if i < j {
        lemma_first_non_split(s, i + 1, j);
    }
}

proof fn lemma_first_non_split_before<Tab>(s: Seq<Node<Tab>>, k: int, j: int)
    requires
        0 <= k < j <= s.len(),
        first_non_split_from(s, 0) == first_non_split_from(s, j),
        j == s.len() || !s[j].is_split(),
    ensures
        s[k].is_split(),
{
    lemma_first_non_split_walk(s, 0, k, j);
}

proof fn lemma_first_non_split_walk<Tab>(s: Seq<Node<Tab>>, i: int, k: int, j: int)
    requires
        0 <= i <= k < j <= s.len(),
        first_non_split_from(s, i) == first_non_split_from(s, j),
        j == s.len() || !s[j].is_split(),
    ensures
        s[k].is_split(),
    decreases k - i,
{
    assert(first_non_split_from(s, j) == j);
    if !s[i].is_split() {
        assert(first_non_split_from(s, i) == i);
    } else if i < k {
        lemma_first_non_split_walk(s, i + 1, k, j);
    }
}

/// Making the (empty) root a leaf of a tree without nodes.
proof fn lemma_root_becomes_leaf<Tab>(s: Seq<Node<Tab>>, t: Seq<Node<Tab>>)
    requires
        nodes_wf(s),
        s.len() > 0,
        s[0] is Empty,
        t.len() == s.len(),
        t[0] is Leaf,
        forall|j: int| 0 < j < s.len() ==> t[j] == s[j],
    ensures
        nodes_wf(t),
        shape_tabs(shape(t, 0)) =~= node_tabs(t[0]).to_multiset(),
        shape_tabs(shape(s, 0)) =~= Multiset::empty(),
{
    assert forall|j: int| 0 <= j < t.len() implies #[trigger] node_ok(t, j) by {
        lemma_empty_root(s, j);
        if left_of(j) < s.len() {
            lemma_empty_root(s, left_of(j));
        }
        if right_of(j) < s.len() {
            lemma_empty_root(s, right_of(j));
        }
    }
    lemma_leaf_shape(t, 0);
    assert(shape_tabs(Shape::<Tab>::Nil) =~= Multiset::empty());
}


/// `t`, focused on `focus`, is `s` with `tab` pushed to its first leaf (which gets the
/// focus), or to a new root leaf where the tree has none.
pub open spec fn pushed_to_first_leaf<Tab>(s: Seq<Node<Tab>>, t: Seq<Node<Tab>>, focus: Option<NodeIndex>, tab: Tab) -> bool {
    let j = first_non_split_from(s, 0);
    &&& j < s.len() && s[j] is Leaf ==> {
        &&& t.len() == s.len()
        &&& t[j] is Leaf
        &&& node_tabs(t[j]) == node_tabs(s[j]).push(tab)
        &&& t[j]->Leaf_0.active.0 == node_tabs(s[j]).len()
        &&& forall|k: int| 0 <= k < s.len() && k != j ==> t[k] == s[k]
    }
    &&& j < s.len() && s[j] is Empty ==> {
        &&& j == 0
        &&& t == s.update(0, t[0])
        &&& t[0] is Leaf
        &&& node_tabs(t[0]) == seq![tab]
    }
    &&& j >= s.len() ==> {
        &&& s.len() == 0
        &&& t.len() == 1
        &&& t[0] is Leaf
        &&& node_tabs(t[0]) == seq![tab]
    }
    &&& focus == Some(NodeIndex((if j < s.len() { j } else { 0 }) as usize))
}

/// Where the old leaf and the new one go when the leaf at `p` is split in direction `split`.
pub open spec fn split_positions(p: int, split: Split) -> (int, int) {
    match split {
        Split::Right | Split::Below => (left_of(p), right_of(p)),
        Split::Left | Split::Above => (right_of(p), left_of(p)),
    }
}

/// The parent node a split in direction `split` creates.
pub open spec fn split_kind<Tab>(split: Split) -> Node<Tab> {
    match split {
        Split::Left | Split::Right => Node::Horizontal,
        Split::Above | Split::Below => Node::Vertical,
    }
}

/// How a split lays out its children: left and right leave a horizontal node at the
/// parent, above and below a vertical one; the new leaf is the second child for right
/// and below and the first for left and above, and the old leaf the other one.
pub proof fn lemma_split_layout<Tab>(
    s: Seq<Node<Tab>>,
    t: Seq<Node<Tab>>,
    focus: Option<NodeIndex>,
    p: int,
    split: Split,
    new: Node<Tab>,
    r: [NodeIndex; 2],
)
    requires
        split_result(s, t, focus, p, split, new, r),
        0 <= p,
        right_of(p) <= usize::MAX,
    ensures
        split is Left || split is Right ==> t[p] is Horizontal,
        split is Above || split is Below ==> t[p] is Vertical,
        split is Right || split is Below ==> r@[0].0 == left_of(p) && r@[1].0 == right_of(p),
        split is Left || split is Above ==> r@[0].0 == right_of(p) && r@[1].0 == left_of(p),
        t[r@[0].0 as int] == s[p],
        t[r@[1].0 as int] == new,
        focus == Some(r@[1]),
{
    let (a, b) = split_positions(p, split);
    assert(r@[0] == NodeIndex(a as usize) && r@[1] == NodeIndex(b as usize));
}

/// `t`, focused on `focus`, is `s` where the leaf at `p` was split in direction `split`
/// with `new`, and `r` holds the indices of the old leaf and of `new`.
pub open spec fn split_result<Tab>(
    s: Seq<Node<Tab>>,
    t: Seq<Node<Tab>>,
    focus: Option<NodeIndex>,
    p: int,
    split: Split,
    new: Node<Tab>,
    r: [NodeIndex; 2],
) -> bool {
    let (a, b) = split_positions(p, split);
    &&& r@ == seq![NodeIndex(a as usize), NodeIndex(b as usize)]
    &&& t.len() == if s.len() > right_of(p) { s.len() as int } else { right_of(p) + 1 }
    &&& t[p] == split_kind::<Tab>(split)
    &&& t[a] == s[p]
    &&& t[b] == new
    &&& forall|j: int| 0 <= j < t.len() && j != p && j != a && j != b ==> t[j] == if j < s.len() { s[j] } else { Node::Empty }
    &&& focus == Some(NodeIndex(b as usize))
}

impl<Tab> Tree<Tab> {
    /// Splits the leaf at `parent` in two: the old leaf and `new` become its children,
    /// `new` placed in direction `split`, and `new` gets the focus. `new` is a leaf with
    /// at least one tab: a new child without content is not a split. The positions of the
    /// children stay below `MAX_NODES`, a limit of
    /// memory (that many node slots take tens of gigabytes).
    ///
    /// Returns the indices of the old leaf and of the new one.
    pub fn split(&mut self, parent: NodeIndex, split: Split, new: Node<Tab>) -> (r: [NodeIndex; 2])
        requires
            old(self).wf(),
            parent.0 < old(self).node_seq().len(),
            old(self).node_seq()[parent.0 as int] is Leaf,
            new is Leaf,
            node_tabs(new).len() > 0,
            right_of(parent.0 as int) < MAX_NODES,
        ensures
            final(self).wf(),
            split_result(old(self).node_seq(), final(self).node_seq(), final(self).focus(), parent.0 as int, split, new, r),
            split is Left || split is Right ==> final(self).node_seq()[parent.0 as int] is Horizontal,
            split is Above || split is Below ==> final(self).node_seq()[parent.0 as int] is Vertical,
            split is Right || split is Below ==> r@[0].0 == left_of(parent.0 as int) && r@[1].0 == right_of(parent.0 as int),
            split is Left || split is Above ==> r@[0].0 == right_of(parent.0 as int) && r@[1].0 == left_of(parent.0 as int),
            final(self).node_seq()[r@[0].0 as int] == old(self).node_seq()[parent.0 as int],
            final(self).node_seq()[r@[1].0 as int] == new,
            final(self).tabs() =~= old(self).tabs().add(node_tabs(new).to_multiset()),
    {
        let ghost s = self.nodes@;
        let p = parent.0;
        let leaf = take_node(&mut self.nodes, p);
        let kind = if split.is_left_right() { Node::Horizontal } else { Node::Vertical };
        put_node(&mut self.nodes, p, kind);
        let ghost s1 = self.nodes@;
        while self.nodes.len() < 2 * p + 3
            invariant
                s1.len() <= self.nodes@.len() <= if s1.len() > 2 * p + 2 { s1.len() as int } else { 2 * p + 3 },
                forall|j: int| 0 <= j < s1.len() ==> self.nodes@[j] == s1[j],
                forall|j: int| s1.len() <= j < self.nodes@.len() ==> self.nodes@[j] is Empty,
                p < s1.len(),
                2 * p + 3 <= MAX_NODES,
            decreases 2 * p + 3 - self.nodes@.len(),
        {
            self.nodes.push(Node::Empty);
        }
        let ghost s2 = self.nodes@;
        let (a, b) = match split {
            Split::Right | Split::Below => (2 * p + 1, 2 * p + 2),
            Split::Left | Split::Above => (2 * p + 2, 2 * p + 1),
        };
        put_node(&mut self.nodes, a, leaf);
        put_node(&mut self.nodes, b, new);
        self.focused_node = Some(NodeIndex(b));
        proof {
            let t = self.nodes@;
            assert(s1[p as int].is_split());
            assert(t[p as int] == s1[p as int]);
            assert(t[p as int] == split_kind::<Tab>(split));
            assert forall|j: int| 0 <= j < t.len() && j != p && j != a && j != b implies t[j] == if j < s.len() { s[j] } else { Node::Empty } by {
                assert(t[j] == s2[j]);
                if j < s1.len() {
                    assert(s2[j] == s1[j]);
                }
            }
            lemma_split_wf(s, t, p as int, a as int, b as int);
            // tabs: pad the old array, then replace below p
            let padded = Seq::new(t.len(), |j: int| if j < s.len() { s[j] } else { Node::Empty });
            lemma_pad_shape(s, padded, 0);
            lemma_pad_wf(s, padded);
            assert(padded[p as int] == s[p as int]);
            lemma_ancestors_reach(padded, p as int);
            assert forall|j: int| 0 <= j < padded.len() && !in_subtree(j, p as int) implies padded[j] == t[j] by {
                assert(in_subtree(p as int, p as int));
                if j == a || j == b {
                    assert(in_subtree(j, j));
                    lemma_subtree_child(j, p as int);
                }
            }
            lemma_replace_below(padded, t, 0, p as int);
            lemma_leaf_shape(padded, p as int);
            lemma_leaf_shape(t, a as int);
            lemma_leaf_shape(t, b as int);
            let lt = node_tabs(s[p as int]).to_multiset();
            let nt = node_tabs(new).to_multiset();
            let e = Multiset::<Tab>::empty();
            assert(node_tabs(t[p as int]).to_multiset() =~= e);
            assert(shape(t, left_of(p as int)) == (if left_of(p as int) < t.len() { shape(t, left_of(p as int)) } else { Shape::Nil }));
            assert(shape(t, right_of(p as int)) == (if right_of(p as int) < t.len() { shape(t, right_of(p as int)) } else { Shape::Nil }));
            if a == 2 * p + 1 {
                assert(shape_tabs(shape(t, p as int)) =~= e.add(lt).add(nt));
            } else {
                assert(shape_tabs(shape(t, p as int)) =~= e.add(nt).add(lt));
            }
            let ft = shape_tabs(shape(t, 0));
            let o = shape_tabs(shape(s, 0));
            assert forall|v: Tab| #[trigger] ft.count(v) == o.add(nt).count(v) by {
                assert(ft.add(shape_tabs(shape(padded, p as int))).count(v) == o.add(shape_tabs(shape(t, p as int))).count(v));
            }
        }
        let r = [NodeIndex(a), NodeIndex(b)];
        proof {
            lemma_split_layout(s, self.nodes@, self.focused_node, p as int, split, new, r);
        }
        r
    }

    /// Splits the leaf at `parent`, putting a new leaf holding `tabs` to the left of it.
    /// The positions of the children stay below `MAX_NODES`, a limit of
    /// memory (that many node slots take tens of gigabytes).
    ///
    /// Returns the indices of the old leaf and of the new one.
    pub fn split_left(&mut self, parent: NodeIndex, tabs: Vec<Tab>) -> (r: [NodeIndex; 2])
        requires
            old(self).wf(),
            parent.0 < old(self).node_seq().len(),
            old(self).node_seq()[parent.0 as int] is Leaf,
            tabs@.len() > 0,
            right_of(parent.0 as int) < MAX_NODES,
        ensures
            final(self).wf(),
            exists|new: Node<Tab>| new is Leaf && node_tabs(new) == tabs@ && new->Leaf_0.active.0 == 0
                && #[trigger] split_result(old(self).node_seq(), final(self).node_seq(), final(self).focus(), parent.0 as int, Split::Left, new, r),
            final(self).node_seq()[parent.0 as int] is Horizontal,
            r@[0].0 == right_of(parent.0 as int) && r@[1].0 == left_of(parent.0 as int),
            final(self).node_seq()[r@[0].0 as int] == old(self).node_seq()[parent.0 as int],
            final(self).node_seq()[r@[1].0 as int] is Leaf && node_tabs(final(self).node_seq()[r@[1].0 as int]) == tabs@,
            final(self).tabs() =~= old(self).tabs().add(tabs@.to_multiset()),
    {
        let new = Node::leaf_with(tabs);
        self.split(parent, Split::Left, new)
    }

    /// Splits the leaf at `parent`, putting a new leaf holding `tabs` to the right of it.
    /// The positions of the children stay below `MAX_NODES`, a limit of
    /// memory (that many node slots take tens of gigabytes).
    ///
    /// Returns the indices of the old leaf and of the new one.
    pub fn split_right(&mut self, parent: NodeIndex, tabs: Vec<Tab>) -> (r: [NodeIndex; 2])
        requires
            old(self).wf(),
            parent.0 < old(self).node_seq().len(),
            old(self).node_seq()[parent.0 as int] is Leaf,
            tabs@.len() > 0,
            right_of(parent.0 as int) < MAX_NODES,
        ensures
            final(self).wf(),
            exists|new: Node<Tab>| new is Leaf && node_tabs(new) == tabs@ && new->Leaf_0.active.0 == 0
                && #[trigger] split_result(old(self).node_seq(), final(self).node_seq(), final(self).focus(), parent.0 as int, Split::Right, new, r),
            final(self).node_seq()[parent.0 as int] is Horizontal,
            r@[0].0 == left_of(parent.0 as int) && r@[1].0 == right_of(parent.0 as int),
            final(self).node_seq()[r@[0].0 as int] == old(self).node_seq()[parent.0 as int],
            final(self).node_seq()[r@[1].0 as int] is Leaf && node_tabs(final(self).node_seq()[r@[1].0 as int]) == tabs@,
            final(self).tabs() =~= old(self).tabs().add(tabs@.to_multiset()),
    {
        let new = Node::leaf_with(tabs);
        self.split(parent, Split::Right, new)
    }

    /// Splits the leaf at `parent`, putting a new leaf holding `tabs` above it.
    /// The positions of the children stay below `MAX_NODES`, a limit of
    /// memory (that many node slots take tens of gigabytes).
    ///
    /// Returns the indices of the old leaf and of the new one.
    pub fn split_above(&mut self, parent: NodeIndex, tabs: Vec<Tab>) -> (r: [NodeIndex; 2])
        requires
            old(self).wf(),
            parent.0 < old(self).node_seq().len(),
            old(self).node_seq()[parent.0 as int] is Leaf,
            tabs@.len() > 0,
            right_of(parent.0 as int) < MAX_NODES,
        ensures
            final(self).wf(),
            exists|new: Node<Tab>| new is Leaf && node_tabs(new) == tabs@ && new->Leaf_0.active.0 == 0
                && #[trigger] split_result(old(self).node_seq(), final(self).node_seq(), final(self).focus(), parent.0 as int, Split::Above, new, r),
            final(self).node_seq()[parent.0 as int] is Vertical,
            r@[0].0 == right_of(parent.0 as int) && r@[1].0 == left_of(parent.0 as int),
            final(self).node_seq()[r@[0].0 as int] == old(self).node_seq()[parent.0 as int],
            final(self).node_seq()[r@[1].0 as int] is Leaf && node_tabs(final(self).node_seq()[r@[1].0 as int]) == tabs@,
            final(self).tabs() =~= old(self).tabs().add(tabs@.to_multiset()),
    {
        let new = Node::leaf_with(tabs);
        self.split(parent, Split::Above, new)
    }

    /// Splits the leaf at `parent`, putting a new leaf holding `tabs` below it.
    /// The positions of the children stay below `MAX_NODES`, a limit of
    /// memory (that many node slots take tens of gigabytes).
    ///
    /// Returns the indices of the old leaf and of the new one.
    pub fn split_below(&mut self, parent: NodeIndex, tabs: Vec<Tab>) -> (r: [NodeIndex; 2])
        requires
            old(self).wf(),
            parent.0 < old(self).node_seq().len(),
            old(self).node_seq()[parent.0 as int] is Leaf,
            tabs@.len() > 0,
            right_of(parent.0 as int) < MAX_NODES,
        ensures
            final(self).wf(),
            exists|new: Node<Tab>| new is Leaf && node_tabs(new) == tabs@ && new->Leaf_0.active.0 == 0
                && #[trigger] split_result(old(self).node_seq(), final(self).node_seq(), final(self).focus(), parent.0 as int, Split::Below, new, r),
            final(self).node_seq()[parent.0 as int] is Vertical,
            r@[0].0 == left_of(parent.0 as int) && r@[1].0 == right_of(parent.0 as int),
            final(self).node_seq()[r@[0].0 as int] == old(self).node_seq()[parent.0 as int],
            final(self).node_seq()[r@[1].0 as int] is Leaf && node_tabs(final(self).node_seq()[r@[1].0 as int]) == tabs@,
            final(self).tabs() =~= old(self).tabs().add(tabs@.to_multiset()),
    {
        let new = Node::leaf_with(tabs);
        self.split(parent, Split::Below, new)
    }
}

/// The array after a split is well-formed.
proof fn lemma_split_wf<Tab>(s: Seq<Node<Tab>>, t: Seq<Node<Tab>>, p: int, a: int, b: int)
    requires
        nodes_wf(s),
        0 <= p < s.len(),
        s[p] is Leaf,
        (a == left_of(p) && b == right_of(p)) || (a == right_of(p) && b == left_of(p)),
        t.len() == if s.len() > right_of(p) { s.len() as int } else { right_of(p) + 1 },
        t.len() <= MAX_NODES,
        t[p].is_split(),
        t[a] == s[p],
        t[b] is Leaf,
        forall|j: int| 0 <= j < t.len() && j != p && j != a && j != b ==> t[j] == if j < s.len() { s[j] } else { Node::Empty },
    ensures
        nodes_wf(t),
        focus_ok(t, Some(NodeIndex(b as usize))),
{
    assert(node_ok(s, p));
    assert(in_subtree(p, p));
    // the positions below the old leaf were empty
    assert forall|j: int| 0 <= j < s.len() && in_subtree(j, p) && j != p implies s[j] is Empty by {
        lemma_wf_below_non_parent(s, p, j);
    }
    assert forall|j: int| 0 <= j < t.len() implies #[trigger] node_ok(t, j) by {
        if j == p {
        } else if j == a || j == b {
            assert(parent_of(j) == p);
            assert forall|c: int| (c == left_of(j) || c == right_of(j)) && c < t.len() implies t[c] is Empty by {
                if c < s.len() {
                    assert(in_subtree(j, j));
                    assert(in_subtree(c, j));
                    lemma_subtree_child(j, p);
                    lemma_subtree_trans(c, j, p);
                    lemma_subtree_ge(c, j);
                }
            }
        } else if j < s.len() {
            assert(node_ok(s, j));
            if t[j].is_split() {
                if left_of(j) == a || left_of(j) == b || right_of(j) == a || right_of(j) == b {
                    assert(j == p);
                }
            }
            if j > 0 && !(t[j] is Empty) && (parent_of(j) == a || parent_of(j) == b) {
                assert(in_subtree(j, parent_of(j))) by {
                    assert(in_subtree(parent_of(j), parent_of(j)));
                }
                assert(in_subtree(parent_of(j), p)) by {
                    assert(in_subtree(parent_of(j), parent_of(j)));
                    lemma_subtree_child(parent_of(j), p);
                }
                lemma_subtree_trans(j, parent_of(j), p);
            }
        }
    }
}


/// `(n1, t1)` comes before `(n2, t2)` in breadth-first, then tab, order.
pub open spec fn tab_before(n1: int, t1: int, n2: int, t2: int) -> bool {
    n1 < n2 || (n1 == n2 && t1 < t2)
}

/// `tab_before` orders every two distinct positions one way, never a position before
/// itself, and in a chain: a strict total order, by node and then by tab.
pub proof fn lemma_tab_before_order(n1: int, t1: int, n2: int, t2: int, n3: int, t3: int)
    ensures
        !tab_before(n1, t1, n1, t1),
        (n1, t1) != (n2, t2) ==> tab_before(n1, t1, n2, t2) || tab_before(n2, t2, n1, t1),
        tab_before(n1, t1, n2, t2) ==> !tab_before(n2, t2, n1, t1),
        tab_before(n1, t1, n2, t2) && tab_before(n2, t2, n3, t3) ==> tab_before(n1, t1, n3, t3),
        n1 < n2 ==> tab_before(n1, t1, n2, t2),
{
}

/// The tab at `(n, t)`.
pub open spec fn tab_at<Tab>(s: Seq<Node<Tab>>, n: int, t: int) -> Tab {
    node_tabs(s[n])[t]
}

/// There is a leaf at `n` holding a tab at `t`.
pub open spec fn valid_tab<Tab>(s: Seq<Node<Tab>>, n: int, t: int) -> bool {
    0 <= n < s.len() && s[n] is Leaf && 0 <= t < node_tabs(s[n]).len()
}

/// The tabs kept by a filter whose decisions were `bs`.
pub open spec fn kept<T>(s: Seq<T>, bs: Seq<bool>) -> Seq<T>
    decreases s.len(),
{
    if s.len() == 0 || bs.len() != s.len() {
        Seq::empty()
    } else {
        let r = kept(s.drop_last(), bs.drop_last());
        if bs.last() {
            r.push(s.last())
        } else {
            r
        }
    }
}

/// The values of the `Some`s of `cs`, in order.
pub open spec fn somes<T>(cs: Seq<Option<T>>) -> Seq<T>
    decreases cs.len(),
{
    if cs.len() == 0 {
        Seq::empty()
    } else {
        let r = somes(cs.drop_last());
        match cs.last() {
            Some(x) => r.push(x),
            None => r,
        }
    }
}

/// `idx` lists, in increasing order, exactly the positions of `cs` that hold a value.
pub open spec fn some_positions<T>(idx: Seq<int>, cs: Seq<Option<T>>) -> bool {
    &&& forall|k: int| 0 <= k < idx.len() ==> 0 <= #[trigger] idx[k] < cs.len() && cs[idx[k]] is Some
    &&& forall|a: int, b: int| 0 <= a < b < idx.len() ==> #[trigger] idx[a] < #[trigger] idx[b]
    &&& forall|i: int| 0 <= i < cs.len() && (#[trigger] cs[i]) is Some ==> idx.contains(i)
}

/// The values of the `Some` outcomes, in the order of their positions: each comes from
/// a later position than the one before, and every value is taken.
pub proof fn lemma_somes_in_order<T>(cs: Seq<Option<T>>)
    ensures
        exists|idx: Seq<int>| #[trigger] some_positions(idx, cs) && idx.len() == somes(cs).len()
            && forall|k: int| 0 <= k < idx.len() ==> cs[idx[k]] == Some(#[trigger] somes(cs)[k]),
    decreases cs.len(),
{
    if cs.len() == 0 {
        let idx = Seq::<int>::empty();
        assert(some_positions(idx, cs));
    } else {
        let d = cs.drop_last();
        lemma_somes_in_order(d);
        let idx0 = choose|idx: Seq<int>| #[trigger] some_positions(idx, d) && idx.len() == somes(d).len()
            && forall|k: int| 0 <= k < idx.len() ==> d[idx[k]] == Some(#[trigger] somes(d)[k]);
        let n = cs.len() - 1;
        if cs.last() is Some {
            let idx = idx0.push(n);
            assert forall|k: int| 0 <= k < idx.len() implies 0 <= #[trigger] idx[k] < cs.len() && cs[idx[k]] is Some by {
                if k < idx0.len() {
                    assert(idx[k] == idx0[k]);
                    assert(d[idx0[k]] is Some);
                }
            }
            assert forall|a: int, b: int| 0 <= a < b < idx.len() implies #[trigger] idx[a] < #[trigger] idx[b] by {
                assert(idx[a] == idx0[a]);
                if b < idx0.len() {
                    assert(idx[b] == idx0[b]);
                }
            }
            assert forall|i: int| 0 <= i < cs.len() && (#[trigger] cs[i]) is Some implies idx.contains(i) by {
                if i < n {
                    assert(d[i] is Some);
                    let k = choose|k: int| 0 <= k < idx0.len() && idx0[k] == i;
                    assert(idx[k] == idx0[k]);
                } else {
                    assert(idx[idx.len() - 1] == i);
                }
            }
            assert forall|k: int| 0 <= k < idx.len() implies cs[idx[k]] == Some(#[trigger] somes(cs)[k]) by {
                if k < idx0.len() {
                    assert(idx[k] == idx0[k]);
                    assert(d[idx0[k]] == Some(somes(d)[k]));
                }
            }
            assert(some_positions(idx, cs));
        } else {
            let idx = idx0;
            assert forall|k: int| 0 <= k < idx.len() implies 0 <= #[trigger] idx[k] < cs.len() && cs[idx[k]] is Some by {
                assert(d[idx0[k]] is Some);
            }
            assert forall|i: int| 0 <= i < cs.len() && (#[trigger] cs[i]) is Some implies idx.contains(i) by {
                assert(d[i] is Some);
            }
            assert forall|k: int| 0 <= k < idx.len() implies cs[idx[k]] == Some(#[trigger] somes(cs)[k]) by {
                assert(d[idx0[k]] == Some(somes(d)[k]));
            }
            assert(some_positions(idx, cs));
        }
    }
}

/// `idx` lists, in increasing order, exactly the positions where `bs` holds.
pub open spec fn true_positions(idx: Seq<int>, bs: Seq<bool>) -> bool {
    &&& forall|k: int| 0 <= k < idx.len() ==> 0 <= #[trigger] idx[k] < bs.len() && bs[idx[k]]
    &&& forall|a: int, b: int| 0 <= a < b < idx.len() ==> #[trigger] idx[a] < #[trigger] idx[b]
    &&& forall|i: int| 0 <= i < bs.len() && #[trigger] bs[i] ==> idx.contains(i)
}

/// What is kept is the elements at the kept positions, in their order, each of them.
pub proof fn lemma_kept_in_order<T>(s: Seq<T>, bs: Seq<bool>)
    requires
        bs.len() == s.len(),
    ensures
        exists|idx: Seq<int>| #[trigger] true_positions(idx, bs) && idx.len() == kept(s, bs).len()
            && forall|k: int| 0 <= k < idx.len() ==> #[trigger] kept(s, bs)[k] == s[idx[k]],
    decreases s.len(),
{
    if s.len() == 0 {
        let idx = Seq::<int>::empty();
        assert(true_positions(idx, bs));
    } else {
        let d = s.drop_last();
        let e = bs.drop_last();
        lemma_kept_in_order(d, e);
        let idx0 = choose|idx: Seq<int>| #[trigger] true_positions(idx, e) && idx.len() == kept(d, e).len()
            && forall|k: int| 0 <= k < idx.len() ==> #[trigger] kept(d, e)[k] == d[idx[k]];
        let n = s.len() - 1;
        if bs.last() {
            let idx = idx0.push(n);
            assert forall|k: int| 0 <= k < idx.len() implies 0 <= #[trigger] idx[k] < bs.len() && bs[idx[k]] by {
                if k < idx0.len() {
                    assert(idx[k] == idx0[k]);
                    assert(e[idx0[k]]);
                }
            }
            assert forall|a: int, b: int| 0 <= a < b < idx.len() implies #[trigger] idx[a] < #[trigger] idx[b] by {
                assert(idx[a] == idx0[a]);
                if b < idx0.len() {
                    assert(idx[b] == idx0[b]);
                }
            }
            assert forall|i: int| 0 <= i < bs.len() && #[trigger] bs[i] implies idx.contains(i) by {
                if i < n {
                    assert(e[i]);
                    let k = choose|k: int| 0 <= k < idx0.len() && idx0[k] == i;
                    assert(idx[k] == idx0[k]);
                } else {
                    assert(idx[idx.len() - 1] == i);
                }
            }
            assert forall|k: int| 0 <= k < idx.len() implies #[trigger] kept(s, bs)[k] == s[idx[k]] by {
                if k < idx0.len() {
                    assert(idx[k] == idx0[k]);
                    assert(kept(d, e)[k] == d[idx0[k]]);
                }
            }
            assert(true_positions(idx, bs));
        } else {
            let idx = idx0;
            assert forall|k: int| 0 <= k < idx.len() implies 0 <= #[trigger] idx[k] < bs.len() && bs[idx[k]] by {
                assert(e[idx0[k]]);
            }
            assert forall|i: int| 0 <= i < bs.len() && #[trigger] bs[i] implies idx.contains(i) by {
                assert(e[i]);
            }
            assert forall|k: int| 0 <= k < idx.len() implies #[trigger] kept(s, bs)[k] == s[idx[k]] by {
                assert(kept(d, e)[k] == d[idx0[k]]);
            }
            assert(true_positions(idx, bs));
        }
    }
}

/// `new` is what `f` leaves of `old`, for some outcomes of the calls of `f`.
pub open spec fn filter_mapped<A, B, F: Fn(&A) -> Option<B>>(f: F, old: Seq<A>, new: Seq<B>) -> bool {
    exists|cs: Seq<Option<B>>|
        #![trigger somes(cs)]
        cs.len() == old.len() && (forall|k: int| 0 <= k < old.len() ==> f.ensures((&old[k],), cs[k])) && new
            == somes(cs)
}

/// `new` is what the predicate keeps of `old`, for some outcomes of its calls.
pub open spec fn retained<A, F: Fn(&A) -> bool>(f: F, old: Seq<A>, new: Seq<A>) -> bool {
    exists|bs: Seq<bool>|
        #![trigger kept(old, bs)]
        bs.len() == old.len() && (forall|k: int| 0 <= k < old.len() ==> f.ensures((&old[k],), bs[k])) && new
            == kept(old, bs)
}

/// `f` answered `yes` for every element of `m`, as many times as it occurs.
pub open spec fn all_answered<A, F: Fn(&A) -> bool>(f: F, m: Multiset<A>, yes: bool) -> bool {
    forall|t: A| #[trigger] m.count(t) > 0 ==> f.ensures((&t,), yes)
}

/// `after` is what `f` kept of `before`: `f` accepted what is left and refused what went.
pub open spec fn kept_by<A, F: Fn(&A) -> bool>(f: F, before: Multiset<A>, after: Multiset<A>) -> bool {
    exists|gone: Multiset<A>|
        #![trigger after.add(gone)]
        after.add(gone) =~= before && all_answered(f, after, true) && all_answered(f, gone, false)
}

/// The elements of `s` that `bs` drops, in order.
pub open spec fn dropped<T>(s: Seq<T>, bs: Seq<bool>) -> Seq<T>
    decreases s.len(),
{
    if s.len() == 0 || bs.len() != s.len() {
        Seq::empty()
    } else {
        let r = dropped(s.drop_last(), bs.drop_last());
        if bs.last() {
            r
        } else {
            r.push(s.last())
        }
    }
}

/// Keeping by the answers of `f` splits the elements into those it accepted and those
/// it refused.
proof fn lemma_kept_split<A, F: Fn(&A) -> bool>(f: F, s: Seq<A>, bs: Seq<bool>)
    requires
        bs.len() == s.len(),
        forall|k: int| 0 <= k < s.len() ==> f.ensures((&s[k],), bs[k]),
    ensures
        kept(s, bs).to_multiset().add(dropped(s, bs).to_multiset()) =~= s.to_multiset(),
        all_answered(f, kept(s, bs).to_multiset(), true),
        all_answered(f, dropped(s, bs).to_multiset(), false),
    decreases s.len(),
{
    broadcast use vstd::seq_lib::group_to_multiset_ensures;

    if s.len() == 0 {
        assert(kept(s, bs) =~= Seq::<A>::empty());
        assert(dropped(s, bs) =~= Seq::<A>::empty());
        assert(s =~= Seq::<A>::empty());
    } else {
        let d = s.drop_last();
        let e = bs.drop_last();
        lemma_kept_split(f, d, e);
        assert(s =~= d.push(s.last()));
        assert(f.ensures((&s[s.len() - 1],), bs[s.len() - 1]));
        let x = s.last();
        if bs.last() {
            assert forall|t: A| #[trigger] kept(s, bs).to_multiset().count(t) > 0 implies f.ensures((&t,), true) by {
                if t != x {
                    assert(kept(d, e).to_multiset().count(t) > 0);
                }
            }
        } else {
            assert forall|t: A| #[trigger] dropped(s, bs).to_multiset().count(t) > 0 implies f.ensures((&t,), false) by {
                if t != x {
                    assert(dropped(d, e).to_multiset().count(t) > 0);
                }
            }
        }
    }
}

/// What a leaf keeps of its tabs is what `f` kept of them.
pub proof fn lemma_retained_kept_by<A, F: Fn(&A) -> bool>(f: F, old: Seq<A>, new: Seq<A>)
    requires
        retained(f, old, new),
    ensures
        kept_by(f, old.to_multiset(), new.to_multiset()),
{
    let bs = choose|bs: Seq<bool>| #![trigger kept(old, bs)]
        bs.len() == old.len() && (forall|k: int| 0 <= k < old.len() ==> f.ensures((&old[k],), bs[k])) && new == kept(old, bs);
    lemma_kept_split(f, old, bs);
    let gone = dropped(old, bs).to_multiset();
    assert(new.to_multiset().add(gone) =~= old.to_multiset());
}

/// Keeping is kept under putting two parts together.
pub proof fn lemma_kept_by_add<A, F: Fn(&A) -> bool>(f: F, a: Multiset<A>, b: Multiset<A>, c: Multiset<A>, d: Multiset<A>)
    requires
        kept_by(f, a, b),
        kept_by(f, c, d),
    ensures
        kept_by(f, a.add(c), b.add(d)),
{
    let g1 = choose|gone: Multiset<A>| #![trigger b.add(gone)]
        b.add(gone) =~= a && all_answered(f, b, true) && all_answered(f, gone, false);
    let g2 = choose|gone: Multiset<A>| #![trigger d.add(gone)]
        d.add(gone) =~= c && all_answered(f, d, true) && all_answered(f, gone, false);
    let g = g1.add(g2);
    assert(b.add(d).add(g) =~= a.add(c));
    assert forall|t: A| #[trigger] b.add(d).count(t) > 0 implies f.ensures((&t,), true) by {
        if b.count(t) > 0 {
        } else {
            assert(d.count(t) > 0);
        }
    }
    assert forall|t: A| #[trigger] g.count(t) > 0 implies f.ensures((&t,), false) by {
        if g1.count(t) > 0 {
        } else {
            assert(g2.count(t) > 0);
        }
    }
}

/// Nothing is kept of nothing.
pub proof fn lemma_kept_by_empty<A, F: Fn(&A) -> bool>(f: F)
    ensures
        kept_by(f, Multiset::<A>::empty(), Multiset::<A>::empty()),
{
    let e = Multiset::<A>::empty();
    assert(e.add(e) =~= e);
}

/// The tabs of the shape at `i` after keeping by `f` are what `f` kept of the tabs before.
pub proof fn lemma_nodes_retained_kept_by<A, F: Fn(&A) -> bool>(f: F, s: Seq<Node<A>>, m: Seq<Node<A>>, i: int)
    requires
        nodes_retained(f, s, m),
        i >= 0,
    ensures
        kept_by(f, shape_tabs(shape(s, i)), shape_tabs(shape(m, i))),
    decreases s.len() - i,
{
    if i < s.len() && !(s[i] is Empty) {
        assert(same_kind(s[i], m[i]));
        let ls = if left_of(i) < s.len() { shape(s, left_of(i)) } else { Shape::Nil };
        let rs = if right_of(i) < s.len() { shape(s, right_of(i)) } else { Shape::Nil };
        let lm = if left_of(i) < m.len() { shape(m, left_of(i)) } else { Shape::Nil };
        let rm = if right_of(i) < m.len() { shape(m, right_of(i)) } else { Shape::Nil };
        assert(shape(s, i) == Shape::Branch(s[i], Box::new(ls), Box::new(rs)));
        assert(shape(m, i) == Shape::Branch(m[i], Box::new(lm), Box::new(rm)));
        lemma_kept_by_empty::<A, F>(f);
        if left_of(i) < s.len() {
            lemma_nodes_retained_kept_by(f, s, m, left_of(i));
        }
        if right_of(i) < s.len() {
            lemma_nodes_retained_kept_by(f, s, m, right_of(i));
        }
        if s[i] is Leaf {
            lemma_retained_kept_by(f, node_tabs(s[i]), node_tabs(m[i]));
        } else {
            assert(node_tabs(s[i]).to_multiset() =~= Multiset::empty()) by {
                broadcast use vstd::seq_lib::group_to_multiset_ensures;
                assert(node_tabs(s[i]) =~= Seq::<A>::empty());
            }
            assert(node_tabs(m[i]).to_multiset() =~= Multiset::empty()) by {
                broadcast use vstd::seq_lib::group_to_multiset_ensures;
                assert(node_tabs(m[i]) =~= Seq::<A>::empty());
            }
        }
        assert(shape_tabs(Shape::<A>::Nil) =~= Multiset::empty());
        lemma_kept_by_add(f, node_tabs(s[i]).to_multiset(), node_tabs(m[i]).to_multiset(), shape_tabs(ls), shape_tabs(lm));
        lemma_kept_by_add(
            f,
            node_tabs(s[i]).to_multiset().add(shape_tabs(ls)),
            node_tabs(m[i]).to_multiset().add(shape_tabs(lm)),
            shape_tabs(rs),
            shape_tabs(rm),
        );
    } else {
        assert(shape(s, i) == Shape::<A>::Nil);
        assert(shape(m, i) == Shape::<A>::Nil);
        lemma_kept_by_empty::<A, F>(f);
    }
}

/// `new` is `old` with every tab mapped by `f`.
pub open spec fn mapped<A, B, F: Fn(&A) -> B>(f: F, old: Seq<A>, new: Seq<B>) -> bool {
    new.len() == old.len() && forall|k: int| 0 <= k < old.len() ==> f.ensures((&old[k],), new[k])
}

/// Two nodes of the same kind (the tabs may differ).
pub open spec fn same_kind<A, B>(a: Node<A>, b: Node<B>) -> bool {
    &&& (a is Empty) == (b is Empty)
    &&& (a is Leaf) == (b is Leaf)
    &&& (a is Vertical) == (b is Vertical)
    &&& (a is Horizontal) == (b is Horizontal)
}

/// Well-formedness depends on the kinds of the nodes only.
pub proof fn lemma_same_kinds_wf<A, B>(a: Seq<Node<A>>, b: Seq<Node<B>>)
    requires
        nodes_wf(a),
        a.len() == b.len(),
        forall|j: int| 0 <= j < a.len() ==> same_kind(#[trigger] a[j], b[j]),
    ensures
        nodes_wf(b),
{
    assert forall|j: int| 0 <= j < b.len() implies #[trigger] node_ok(b, j) by {
        assert(node_ok(a, j));
        assert(same_kind(a[j], b[j]));
        if left_of(j) < a.len() {
            assert(same_kind(a[left_of(j)], b[left_of(j)]));
        }
        if right_of(j) < a.len() {
            assert(same_kind(a[right_of(j)], b[right_of(j)]));
        }
        if j > 0 {
            assert(same_kind(a[parent_of(j)], b[parent_of(j)]));
        }
    }
}

impl<Tab> Tree<Tab> {
    /// Finds the first tab, in breadth-first order of the nodes, for which `predicate` holds.
    pub fn find_tab_from<F: Fn(&Tab) -> bool>(&self, predicate: &F) -> (r: Option<(NodeIndex, crate::index::TabIndex)>)
        requires
            forall|t: &Tab| predicate.requires((t,)),
        ensures
            r matches Some((n, t)) ==> {
                &&& valid_tab(self.node_seq(), n.0 as int, t.0 as int)
                &&& predicate.ensures((&tab_at(self.node_seq(), n.0 as int, t.0 as int),), true)
                &&& forall|n2: int, t2: int|
                    valid_tab(self.node_seq(), n2, t2) && tab_before(n2, t2, n.0 as int, t.0 as int) ==> predicate.ensures(
                        (&tab_at(self.node_seq(), n2, t2),),
                        false,
                    )
            },
            r is None ==> forall|n2: int, t2: int|
                valid_tab(self.node_seq(), n2, t2) ==> predicate.ensures((&tab_at(self.node_seq(), n2, t2),), false),
    {
        let ghost s = self.nodes@;
        let mut i: usize = 0;
        while i < self.nodes.len()
            invariant
                s == self.nodes@,
                i <= s.len(),
                forall|t: &Tab| predicate.requires((t,)),
                forall|n2: int, t2: int|
                    valid_tab(s, n2, t2) && n2 < i ==> predicate.ensures((&tab_at(s, n2, t2),), false),
            decreases s.len() - i,
        {
            if let Some(tabs) = self.nodes[i].tabs() {
                let mut k: usize = 0;
                while k < tabs.len()
                    invariant
                        s == self.nodes@,
                        i < s.len(),
                        s[i as int] is Leaf,
                        tabs@ == node_tabs(s[i as int]),
                        k <= tabs@.len(),
                        forall|t: &Tab| predicate.requires((t,)),
                        forall|n2: int, t2: int|
                            valid_tab(s, n2, t2) && n2 < i ==> predicate.ensures((&tab_at(s, n2, t2),), false),
                        forall|t2: int| 0 <= t2 < k ==> predicate.ensures((&tab_at(s, i as int, t2),), false),
                    decreases tabs@.len() - k,
                {
                    if predicate(&tabs[k]) {
                        return Some((NodeIndex(i), crate::index::TabIndex(k)));
                    }
                    k += 1;
                }
            }
            i += 1;
        }
        None
    }

    /// Finds the first tab, in breadth-first order of the nodes, equal to `needle`.
    pub fn find_tab(&self, needle: &Tab) -> (r: Option<(NodeIndex, crate::index::TabIndex)>) where Tab: PartialEq
        ensures
            r matches Some((n, t)) ==> valid_tab(self.node_seq(), n.0 as int, t.0 as int),
            Tab::obeys_eq_spec() ==> (r matches Some((n, t)) ==> {
                &&& tab_at(self.node_seq(), n.0 as int, t.0 as int).eq_spec(needle)
                &&& forall|n2: int, t2: int|
                    valid_tab(self.node_seq(), n2, t2) && tab_before(n2, t2, n.0 as int, t.0 as int) ==> !tab_at(
                        self.node_seq(),
                        n2,
                        t2,
                    ).eq_spec(needle)
            }),
            Tab::obeys_eq_spec() ==> (r is None ==> forall|n2: int, t2: int|
                valid_tab(self.node_seq(), n2, t2) ==> !tab_at(self.node_seq(), n2, t2).eq_spec(needle)),
    {
        let ghost s = self.nodes@;
        let mut i: usize = 0;
        while i < self.nodes.len()
            invariant
                s == self.nodes@,
                i <= s.len(),
                Tab::obeys_eq_spec() ==> forall|n2: int, t2: int|
                    valid_tab(s, n2, t2) && n2 < i ==> !tab_at(s, n2, t2).eq_spec(needle),
            decreases s.len() - i,
        {
            if let Some(tabs) = self.nodes[i].tabs() {
                let mut k: usize = 0;
                while k < tabs.len()
                    invariant
                        s == self.nodes@,
                        i < s.len(),
                        s[i as int] is Leaf,
                        tabs@ == node_tabs(s[i as int]),
                        k <= tabs@.len(),
                        Tab::obeys_eq_spec() ==> forall|n2: int, t2: int|
                            valid_tab(s, n2, t2) && n2 < i ==> !tab_at(s, n2, t2).eq_spec(needle),
                        Tab::obeys_eq_spec() ==> forall|t2: int| 0 <= t2 < k ==> !tab_at(s, i as int, t2).eq_spec(needle),
                    decreases tabs@.len() - k,
                {
                    if tabs[k] == *needle {
                        return Some((NodeIndex(i), crate::index::TabIndex(k)));
                    }
                    k += 1;
                }
            }
            i += 1;
        }
        None
    }
}


/// No leaf of the array is without tabs.
pub open spec fn no_empty_leaf<Tab>(s: Seq<Node<Tab>>) -> bool {
    forall|j: int| 0 <= j < s.len() && #[trigger] s[j] is Leaf ==> node_tabs(s[j]).len() > 0
}

/// A well-formed tree without empty leaves is its own pruning.
pub proof fn lemma_prune_identity<Tab>(s: Seq<Node<Tab>>, i: int)
    requires
        nodes_wf(s),
        no_empty_leaf(s),
        0 <= i,
    ensures
        prune(shape(s, i)) == shape(s, i),
    decreases s.len() - i,
{
    if i < s.len() && !(s[i] is Empty) {
        assert(node_ok(s, i));
        let l = left_of(i);
        let r = right_of(i);
        if l < s.len() {
            lemma_prune_identity(s, l);
            assert(node_ok(s, l));
        }
        if r < s.len() {
            lemma_prune_identity(s, r);
            assert(node_ok(s, r));
        }
        let ls = if l < s.len() { shape(s, l) } else { Shape::Nil };
        let rs = if r < s.len() { shape(s, r) } else { Shape::Nil };
        assert(shape(s, i) == Shape::Branch(s[i], Box::new(ls), Box::new(rs)));
        if s[i].is_split() {
            assert(ls is Branch && rs is Branch);
        } else {
            assert(s[i] is Leaf);
            assert(node_tabs(s[i]).len() > 0);
            assert(ls is Nil && rs is Nil);
        }
    }
}

/// The active index of a leaf left with `len` tabs.
pub open spec fn clamp_active(active: int, len: int) -> int {
    if active < len {
        active
    } else if len > 0 {
        len - 1
    } else {
        0
    }
}

fn clamp_active_exec(active: usize, len: usize) -> (r: usize)
    ensures
        r == clamp_active(active as int, len as int),
{
    if active < len {
        active
    } else if len > 0 {
        len - 1
    } else {
        0
    }
}

/// Applies `f` to every tab of `leaf`, keeping the `Some` results in order.
fn filter_map_leaf<Tab, NewTab, F: Fn(&Tab) -> Option<NewTab>>(leaf: &crate::node::LeafNode<Tab>, f: &F) -> (r:
    crate::node::LeafNode<NewTab>)
    requires
        forall|t: &Tab| f.requires((t,)),
    ensures
        filter_mapped(*f, leaf.tabs@, r.tabs@),
        r.active.0 == clamp_active(leaf.active.0 as int, r.tabs@.len() as int),
{
    let mut tabs: Vec<NewTab> = Vec::new();
    let ghost mut cs: Seq<Option<NewTab>> = Seq::empty();
    let mut k: usize = 0;
    while k < leaf.tabs.len()
        invariant
            k <= leaf.tabs@.len(),
            cs.len() == k,
            forall|j: int| 0 <= j < k ==> f.ensures((&leaf.tabs@[j],), cs[j]),
            tabs@ == somes(cs),
            forall|t: &Tab| f.requires((t,)),
        decreases leaf.tabs@.len() - k,
    {
        let o = f(&leaf.tabs[k]);
        let ghost prev = cs;
        proof {
            cs = cs.push(o);
            assert(cs.drop_last() =~= prev);
            assert(cs.last() == o);
        }
        match o {
            Some(x) => {
                tabs.push(x);
            },
            None => {},
        }
        k += 1;
    }
    let active = clamp_active_exec(leaf.active.0, tabs.len());
    crate::node::LeafNode { tabs, active: crate::index::TabIndex(active) }
}

/// Applies `f` to every tab of `leaf`.
fn map_leaf<Tab, NewTab, F: Fn(&Tab) -> NewTab>(leaf: &crate::node::LeafNode<Tab>, f: &F) -> (r:
    crate::node::LeafNode<NewTab>)
    requires
        forall|t: &Tab| f.requires((t,)),
    ensures
        mapped(*f, leaf.tabs@, r.tabs@),
        r.active == leaf.active,
{
    let mut tabs: Vec<NewTab> = Vec::new();
    let mut k: usize = 0;
    while k < leaf.tabs.len()
        invariant
            k <= leaf.tabs@.len(),
            tabs@.len() == k,
            forall|j: int| 0 <= j < k ==> f.ensures((&leaf.tabs@[j],), tabs@[j]),
            forall|t: &Tab| f.requires((t,)),
        decreases leaf.tabs@.len() - k,
    {
        let x = f(&leaf.tabs[k]);
        tabs.push(x);
        k += 1;
    }
    crate::node::LeafNode { tabs, active: leaf.active }
}

impl<Tab> Tree<Tab> {
    /// The first leaf without tabs, if any.
    fn first_empty_leaf(&self) -> (r: Option<usize>)
        ensures
            r matches Some(i) ==> i < self.node_seq().len() && self.node_seq()[i as int] is Leaf && node_tabs(
                self.node_seq()[i as int],
            ).len() == 0,
            r is None ==> no_empty_leaf(self.node_seq()),
    {
        let mut i: usize = 0;
        while i < self.nodes.len()
            invariant
                i <= self.nodes@.len(),
                forall|j: int| 0 <= j < i && #[trigger] self.nodes@[j] is Leaf ==> node_tabs(self.nodes@[j]).len() > 0,
            decreases self.nodes@.len() - i,
        {
            if self.nodes[i].is_leaf() && self.nodes[i].tabs_count() == 0 {
                return Some(i);
            }
            i += 1;
        }
        None
    }

    /// Removes every leaf left without tabs, with the parents that no longer have two children.
    pub fn remove_empty_leaves(&mut self)
        requires
            old(self).wf(),
        ensures
            final(self).wf(),
            final(self).tabs() =~= old(self).tabs(),
            no_empty_leaf(final(self).node_seq()),
            final(self).root_shape() == prune(old(self).root_shape()),
    {
        loop
            invariant
                self.wf(),
                self.tabs() =~= old(self).tabs(),
                prune(self.root_shape()) == prune(old(self).root_shape()),
            ensures
                self.wf(),
                self.tabs() =~= old(self).tabs(),
                no_empty_leaf(self.node_seq()),
                self.root_shape() == prune(old(self).root_shape()),
            decreases shape_empty_leaves(self.root_shape()),
        {
            match self.first_empty_leaf() {
                None => {
                    proof {
                        lemma_prune_identity(self.node_seq(), 0);
                    }
                    break;
                },
                Some(i) => {
                    let ghost before = self.tabs();
                    let ghost nt = node_tabs(self.node_seq()[i as int]);
                    proof {
                        assert(nt.to_multiset() =~= Multiset::empty()) by {
                            assert forall|v: Tab| nt.to_multiset().count(v) == 0 by {
                                assert(!nt.contains(v));
                            }
                        }
                    }
                    self.remove_leaf(NodeIndex(i));
                },
            }
        }
    }
}


/// `m` is `s` with the tabs of each leaf passed through `f`.
pub open spec fn nodes_filter_mapped<A, B, F: Fn(&A) -> Option<B>>(f: F, s: Seq<Node<A>>, m: Seq<Node<B>>) -> bool {
    &&& m.len() == s.len()
    &&& forall|j: int|
        0 <= j < s.len() ==> same_kind(#[trigger] s[j], m[j]) && (s[j] is Leaf ==> filter_mapped(
            f,
            node_tabs(s[j]),
            node_tabs(m[j]),
        ))
}

/// `m` is `s` with the tabs of each leaf filtered by `f`.
pub open spec fn nodes_retained<A, F: Fn(&A) -> bool>(f: F, s: Seq<Node<A>>, m: Seq<Node<A>>) -> bool {
    &&& m.len() == s.len()
    &&& forall|j: int|
        0 <= j < s.len() ==> same_kind(#[trigger] s[j], m[j]) && (s[j] is Leaf ==> retained(
            f,
            node_tabs(s[j]),
            node_tabs(m[j]),
        ))
}

/// Keeps the tabs of `leaf` for which `f` holds, in order.
fn retain_leaf<Tab, F: Fn(&Tab) -> bool>(leaf: &mut crate::node::LeafNode<Tab>, f: &F)
    requires
        forall|t: &Tab| f.requires((t,)),
    ensures
        retained(*f, old(leaf).tabs@, final(leaf).tabs@),
        final(leaf).active.0 == clamp_active(old(leaf).active.0 as int, final(leaf).tabs@.len() as int),
{
    let ghost orig = leaf.tabs@;
    let mut rest: Vec<Tab> = Vec::new();
    std::mem::swap(&mut rest, &mut leaf.tabs);
    let mut kept_tabs: Vec<Tab> = Vec::new();
    let ghost mut bs: Seq<bool> = Seq::empty();
    let ghost mut k: int = 0;
    while rest.len() > 0
        invariant
            0 <= k <= orig.len(),
            rest@ == orig.subrange(k, orig.len() as int),
            bs.len() == k,
            forall|j: int| 0 <= j < k ==> f.ensures((&orig[j],), bs[j]),
            kept_tabs@ == kept(orig.subrange(0, k), bs),
            forall|t: &Tab| f.requires((t,)),
        decreases rest@.len(),
    {
        let t = rest.remove(0);
        let b = f(&t);
        proof {
            let prev = bs;
            bs = bs.push(b);
            assert(orig.subrange(0, k + 1).drop_last() =~= orig.subrange(0, k));
            assert(bs.drop_last() =~= prev);
            assert(orig[k] == t);
        }
        if b {
            kept_tabs.push(t);
        }
        proof {
            k = k + 1;
            assert(rest@ =~= orig.subrange(k, orig.len() as int));
        }
    }
    proof {
        assert(orig.subrange(0, k) =~= orig);
    }
    let n = kept_tabs.len();
    leaf.tabs = kept_tabs;
    leaf.active = crate::index::TabIndex(clamp_active_exec(leaf.active.0, n));
}

impl<Tab> Tree<Tab> {
    /// A tree of the same shape whose tabs are those of `self` mapped by `f`.
    pub fn map_tabs<NewTab, F: Fn(&Tab) -> NewTab>(&self, f: &F) -> (r: Tree<NewTab>)
        requires
            self.wf(),
            forall|t: &Tab| f.requires((t,)),
        ensures
            r.wf(),
            r.node_seq().len() == self.node_seq().len(),
            forall|j: int|
                0 <= j < self.node_seq().len() ==> same_kind(#[trigger] self.node_seq()[j], r.node_seq()[j]) && (
                self.node_seq()[j] is Leaf ==> mapped(*f, node_tabs(self.node_seq()[j]), node_tabs(r.node_seq()[j]))
                    && r.node_seq()[j]->Leaf_0.active == self.node_seq()[j]->Leaf_0.active),
            r.focus() == self.focus(),
    {
        let mut nodes: Vec<Node<NewTab>> = Vec::new();
        let mut i: usize = 0;
        while i < self.nodes.len()
            invariant
                i <= self.nodes@.len(),
                nodes@.len() == i,
                forall|t: &Tab| f.requires((t,)),
                forall|j: int|
                    0 <= j < i ==> same_kind(#[trigger] self.nodes@[j], nodes@[j]) && (self.nodes@[j] is Leaf ==> mapped(
                        *f,
                        node_tabs(self.nodes@[j]),
                        node_tabs(nodes@[j]),
                    ) && nodes@[j]->Leaf_0.active == self.nodes@[j]->Leaf_0.active),
            decreases self.nodes@.len() - i,
        {
            let n = match &self.nodes[i] {
                Node::Empty => Node::Empty,
                Node::Vertical => Node::Vertical,
                Node::Horizontal => Node::Horizontal,
                Node::Leaf(leaf) => Node::Leaf(map_leaf(leaf, f)),
            };
            nodes.push(n);
            i += 1;
        }
        proof {
            lemma_same_kinds_wf(self.nodes@, nodes@);
        }
        Tree { nodes, focused_node: self.focused_node }
    }

    /// A tree whose tabs are the `Some` results of `f` on the tabs of `self`; leaves
    /// left without tabs are removed.
    pub fn filter_map_tabs<NewTab, F: Fn(&Tab) -> Option<NewTab>>(&self, f: &F) -> (r: Tree<NewTab>)
        requires
            self.wf(),
            forall|t: &Tab| f.requires((t,)),
        ensures
            r.wf(),
            no_empty_leaf(r.node_seq()),
            exists|m: Seq<Node<NewTab>>|
                #[trigger] nodes_filter_mapped(*f, self.node_seq(), m) && r.tabs() =~= shape_tabs(shape(m, 0))
                    && r.root_shape() == prune(shape(m, 0)),
    {
        let mut nodes: Vec<Node<NewTab>> = Vec::new();
        let mut i: usize = 0;
        while i < self.nodes.len()
            invariant
                i <= self.nodes@.len(),
                nodes@.len() == i,
                forall|t: &Tab| f.requires((t,)),
                forall|j: int|
                    0 <= j < i ==> same_kind(#[trigger] self.nodes@[j], nodes@[j]) && (self.nodes@[j] is Leaf ==> filter_mapped(
                        *f,
                        node_tabs(self.nodes@[j]),
                        node_tabs(nodes@[j]),
                    )),
            decreases self.nodes@.len() - i,
        {
            let n = match &self.nodes[i] {
                Node::Empty => Node::Empty,
                Node::Vertical => Node::Vertical,
                Node::Horizontal => Node::Horizontal,
                Node::Leaf(leaf) => Node::Leaf(filter_map_leaf(leaf, f)),
            };
            nodes.push(n);
            i += 1;
        }
        let ghost m = nodes@;
        proof {
            lemma_same_kinds_wf(self.nodes@, nodes@);
            if let Some(fo) = self.focused_node {
                assert(same_kind(self.nodes@[fo.0 as int], nodes@[fo.0 as int]));
            }
            assert(nodes_filter_mapped(*f, self.nodes@, m));
        }
        let mut t = Tree { nodes, focused_node: self.focused_node };
        t.remove_empty_leaves();
        t
    }

    /// Keeps the tabs for which `f` holds; leaves left without tabs are removed.
    pub fn retain_tabs<F: Fn(&Tab) -> bool>(&mut self, f: &F)
        requires
            old(self).wf(),
            forall|t: &Tab| f.requires((t,)),
        ensures
            final(self).wf(),
            no_empty_leaf(final(self).node_seq()),
            exists|m: Seq<Node<Tab>>|
                #[trigger] nodes_retained(*f, old(self).node_seq(), m) && final(self).tabs() =~= shape_tabs(shape(m, 0))
                    && final(self).root_shape() == prune(shape(m, 0)),
    {
        let ghost s = self.nodes@;
        let mut i: usize = 0;
        while i < self.nodes.len()
            invariant
                i <= self.nodes@.len(),
                self.nodes@.len() == s.len(),
                self.focused_node == old(self).focused_node,
                forall|t: &Tab| f.requires((t,)),
                forall|j: int| i <= j < s.len() ==> self.nodes@[j] == s[j],
                forall|j: int|
                    0 <= j < i ==> same_kind(#[trigger] s[j], self.nodes@[j]) && (s[j] is Leaf ==> retained(
                        *f,
                        node_tabs(s[j]),
                        node_tabs(self.nodes@[j]),
                    )),
            decreases s.len() - i,
        {
            let mut n = take_node(&mut self.nodes, i);
            match &mut n {
                Node::Leaf(leaf) => retain_leaf(leaf, f),
                _ => {},
            }
            put_node(&mut self.nodes, i, n);
            i += 1;
        }
        let ghost m = self.nodes@;
        proof {
            lemma_same_kinds_wf(s, m);
            if let Some(fo) = self.focused_node {
                assert(same_kind(s[fo.0 as int], m[fo.0 as int]));
            }
            assert(nodes_retained(*f, s, m));
        }
        self.remove_empty_leaves();
    }
}


impl<Tab> Tree<Tab> {
    /// Removes the tab `tab` of the leaf `node` and returns it; the leaf stays, even
    /// without tabs.
    pub fn take_tab(&mut self, node: NodeIndex, tab: crate::index::TabIndex) -> (r: Tab)
        requires
            old(self).wf(),
            tab_exists(old(self).node_seq(), node, tab),
        ensures
            final(self).wf(),
            r == node_tabs(old(self).node_seq()[node.0 as int])[tab.0 as int],
            final(self).node_seq().len() == old(self).node_seq().len(),
            final(self).node_seq()[node.0 as int] is Leaf,
            node_tabs(final(self).node_seq()[node.0 as int]) == node_tabs(old(self).node_seq()[node.0 as int]).remove(tab.0 as int),
            forall|j: int| 0 <= j < old(self).node_seq().len() && j != node.0 ==> final(self).node_seq()[j] == old(self).node_seq()[j],
            final(self).focus() == old(self).focus(),
            final(self).tabs().insert(r) =~= old(self).tabs(),
    {
        let ghost old_nodes = self.nodes@;
        let ghost old_tabs = node_tabs(old_nodes[node.0 as int]);
        let mut n = take_node(&mut self.nodes, node.0);
        let removed = n.remove_tab(tab);
        put_node(&mut self.nodes, node.0, n);
        proof {
            lemma_replace_leaf(old_nodes, node.0 as int, n);
            assert(self.nodes@ == old_nodes.update(node.0 as int, n));
            assert(old_tabs.to_multiset() =~= old_tabs.remove(tab.0 as int).to_multiset().insert(
                old_tabs[tab.0 as int],
            ));
            let x = old_tabs[tab.0 as int];
            let ft = shape_tabs(shape(self.nodes@, 0));
            let ot = shape_tabs(shape(old_nodes, 0));
            assert forall|v: Tab| #[trigger] ft.insert(x).count(v) == ot.count(v) by {
                assert(ft.add(old_tabs.to_multiset()).count(v) == ot.add(old_tabs.remove(tab.0 as int).to_multiset()).count(v));
            }
        }
        removed.unwrap()
    }
}


/// `new` is `old` where each element gave an outcome allowed by `ok`, and the `Some`
/// outcomes were kept in order.
pub open spec fn filter_mapped_by<A, B>(ok: spec_fn(A, Option<B>) -> bool, old: Seq<A>, new: Seq<B>) -> bool {
    exists|cs: Seq<Option<B>>|
        #![trigger somes(cs)]
        cs.len() == old.len() && (forall|k: int| 0 <= k < old.len() ==> ok(old[k], cs[k])) && new == somes(cs)
}

/// `m` is `s` with the tabs of each leaf passed through outcomes allowed by `ok`.
pub open spec fn nodes_filter_mapped_by<A, B>(ok: spec_fn(A, Option<B>) -> bool, s: Seq<Node<A>>, m: Seq<Node<B>>) -> bool {
    &&& m.len() == s.len()
    &&& forall|j: int|
        0 <= j < s.len() ==> same_kind(#[trigger] s[j], m[j]) && (s[j] is Leaf ==> filter_mapped_by(
            ok,
            node_tabs(s[j]),
            node_tabs(m[j]),
        ))
}

/// What a closure may return is allowed by any predicate that all its outcomes satisfy.
pub proof fn lemma_filter_mapped_by<A, B, F: Fn(&A) -> Option<B>>(
    f: F,
    ok: spec_fn(A, Option<B>) -> bool,
    s: Seq<Node<A>>,
    m: Seq<Node<B>>,
)
    requires
        nodes_filter_mapped(f, s, m),
        forall|a: A, o: Option<B>| f.ensures((&a,), o) ==> #[trigger] ok(a, o),
    ensures
        nodes_filter_mapped_by(ok, s, m),
{
    assert forall|j: int| 0 <= j < s.len() implies same_kind(#[trigger] s[j], m[j]) && (s[j] is Leaf ==> filter_mapped_by(
        ok,
        node_tabs(s[j]),
        node_tabs(m[j]),
    )) by {
        if s[j] is Leaf {
            let cs = choose|cs: Seq<Option<B>>|
                #![trigger somes(cs)]
                cs.len() == node_tabs(s[j]).len() && (forall|k: int| 0 <= k < node_tabs(s[j]).len() ==> f.ensures((&node_tabs(s[j])[k],), cs[k])) && node_tabs(m[j]) == somes(cs);
            assert forall|k: int| 0 <= k < node_tabs(s[j]).len() implies ok(node_tabs(s[j])[k], cs[k]) by {
                assert(f.ensures((&node_tabs(s[j])[k],), cs[k]));
            }
        }
    }
}


/// The outcomes `f` may give.
pub open spec fn outcomes<A, B, F: Fn(&A) -> B>(f: F) -> spec_fn(A, B) -> bool {
    |a: A, b: B| f.ensures((&a,), b)
}

/// `m` is `s` with every tab mapped to a value allowed by `ok`.
pub open spec fn nodes_mapped_by<A, B>(ok: spec_fn(A, B) -> bool, s: Seq<Node<A>>, m: Seq<Node<B>>) -> bool {
    &&& m.len() == s.len()
    &&& forall|j: int|
        0 <= j < s.len() ==> same_kind(#[trigger] s[j], m[j]) && (s[j] is Leaf ==> node_tabs(m[j]).len() == node_tabs(s[j]).len()
            && forall|k: int| 0 <= k < node_tabs(s[j]).len() ==> ok(node_tabs(s[j])[k], node_tabs(m[j])[k]))
}

impl<Tab> Tree<Tab> {
    /// A tree whose tabs are those of `self` mapped by `f`, without leaves left empty.
    pub fn map_tabs_pruned<NewTab, F: Fn(&Tab) -> NewTab>(&self, f: &F) -> (r: Tree<NewTab>)
        requires
            self.wf(),
            forall|t: &Tab| f.requires((t,)),
        ensures
            r.wf(),
            no_empty_leaf(r.node_seq()),
            exists|m: Seq<Node<NewTab>>|
                #[trigger] nodes_mapped_by(outcomes(*f), self.node_seq(), m) && r.tabs() =~= shape_tabs(shape(m, 0))
                    && r.root_shape() == prune(shape(m, 0)),
    {
        let mut u = self.map_tabs(f);
        let ghost m = u.node_seq();
        proof {
            let ok = outcomes(*f);
            assert(nodes_mapped_by(ok, self.node_seq(), m)) by {
                assert forall|j: int| 0 <= j < self.node_seq().len() implies same_kind(#[trigger] self.node_seq()[j], m[j]) && (self.node_seq()[j] is Leaf ==> node_tabs(m[j]).len() == node_tabs(self.node_seq()[j]).len()
                    && forall|k: int| 0 <= k < node_tabs(self.node_seq()[j]).len() ==> ok(node_tabs(self.node_seq()[j])[k], node_tabs(m[j])[k])) by {
                    assert(same_kind(self.node_seq()[j], m[j]));
                }
            }
        }
        u.remove_empty_leaves();
        u
    }
}

} // verus!
