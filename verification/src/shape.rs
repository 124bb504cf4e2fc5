//! The tree held in a breadth-first array, seen as a recursive shape.
use vstd::multiset::Multiset;
use vstd::prelude::*;

use crate::index::{left_of, parent_of, right_of};
use crate::node::{node_tabs, Node};

verus! {

/// The largest number of nodes a tree may hold, so that child indices never overflow; a
/// limit of memory: that many node slots take tens of gigabytes.
pub const MAX_NODES: usize = 0x3fff_ffff;

/// `j` is `i` or one of its descendants.
pub open spec fn in_subtree(j: int, i: int) -> bool
    decreases j,
{
    if i < 0 || j < i {
        false
    } else if j == i {
        true
    } else {
        in_subtree(parent_of(j), i)
    }
}

/// The part of a tree below (and including) one node, as a recursive value.
#[derive(Debug)]
pub enum Shape<Tab> {
    Nil,
    Branch(Node<Tab>, Box<Shape<Tab>>, Box<Shape<Tab>>),
}

/// The shape of the subtree rooted at position `i` of `s`; it stops at empty nodes.
pub open spec fn shape<Tab>(s: Seq<Node<Tab>>, i: int) -> Shape<Tab>
    decreases s.len() - i,
{
    if 0 <= i < s.len() && !(s[i] is Empty) {
        let l = if left_of(i) < s.len() { shape(s, left_of(i)) } else { Shape::Nil };
        let r = if right_of(i) < s.len() { shape(s, right_of(i)) } else { Shape::Nil };
        Shape::Branch(s[i], Box::new(l), Box::new(r))
    } else {
        Shape::Nil
    }
}

/// All tabs of a shape.
pub open spec fn shape_tabs<Tab>(t: Shape<Tab>) -> Multiset<Tab>
    decreases t,
{
    match t {
        Shape::Nil => Multiset::empty(),
        Shape::Branch(n, l, r) => node_tabs(n).to_multiset().add(shape_tabs(*l)).add(shape_tabs(*r)),
    }
}

/// Number of nodes of a shape.
pub open spec fn shape_size<Tab>(t: Shape<Tab>) -> nat
    decreases t,
{
    match t {
        Shape::Nil => 0,
        Shape::Branch(_, l, r) => 1 + shape_size(*l) + shape_size(*r),
    }
}

/// Number of leaves of a shape that hold no tab.
pub open spec fn shape_empty_leaves<Tab>(t: Shape<Tab>) -> nat
    decreases t,
{
    match t {
        Shape::Nil => 0,
        Shape::Branch(n, l, r) => (if n is Leaf && node_tabs(n).len() == 0 { 1nat } else { 0nat })
            + shape_empty_leaves(*l) + shape_empty_leaves(*r),
    }
}

/// The shape left once every leaf without tabs is removed, a parent that lost one
/// child giving way to the other (nodes that are not parents keep no children).
pub open spec fn prune<Tab>(t: Shape<Tab>) -> Shape<Tab>
    decreases t,
{
    match t {
        Shape::Nil => Shape::Nil,
        Shape::Branch(n, l, r) => if n.is_split() {
            let a = prune(*l);
            let b = prune(*r);
            if a is Nil {
                b
            } else if b is Nil {
                a
            } else {
                Shape::Branch(n, Box::new(a), Box::new(b))
            }
        } else if n is Leaf && node_tabs(n).len() == 0 {
            Shape::Nil
        } else {
            Shape::Branch(n, Box::new(Shape::Nil), Box::new(Shape::Nil))
        },
    }
}

/// Pruning the subtree at `i` leaves nothing exactly when that subtree holds no tab.
pub proof fn lemma_prune_nil<Tab>(s: Seq<Node<Tab>>, i: int)
    requires
        i >= 0,
        nodes_wf(s),
    ensures
        (prune(shape(s, i)) is Nil) == (shape_tabs(shape(s, i)).len() == 0),
    decreases s.len() - i,
{
    broadcast use vstd::seq_lib::group_to_multiset_ensures;

    broadcast use vstd::multiset::group_multiset_axioms;

    assert(shape_tabs(Shape::<Tab>::Nil).len() == 0);
    if i < s.len() && !(s[i] is Empty) {
        let l = if left_of(i) < s.len() { shape(s, left_of(i)) } else { Shape::Nil };
        let r = if right_of(i) < s.len() { shape(s, right_of(i)) } else { Shape::Nil };
        if left_of(i) < s.len() {
            lemma_prune_nil(s, left_of(i));
        }
        if right_of(i) < s.len() {
            lemma_prune_nil(s, right_of(i));
        }
        assert(shape(s, i) == Shape::Branch(s[i], Box::new(l), Box::new(r)));
        let nt = node_tabs(s[i]).to_multiset();
        assert(shape_tabs(shape(s, i)).len() == nt.len() + shape_tabs(l).len() + shape_tabs(r).len());
        assert(nt.len() == node_tabs(s[i]).len());
        assert(prune(Shape::<Tab>::Nil) is Nil);
        if s[i].is_split() {
            assert(node_tabs(s[i]).len() == 0);
            assert((prune(shape(s, i)) is Nil) == (prune(l) is Nil && prune(r) is Nil));
        } else if s[i] is Leaf {
            assert((prune(shape(s, i)) is Nil) == (node_tabs(s[i]).len() == 0));
            assert(node_ok(s, i));
            if left_of(i) < s.len() {
                assert(node_ok(s, left_of(i)));
                assert(parent_of(left_of(i)) == i);
            }
            if right_of(i) < s.len() {
                assert(node_ok(s, right_of(i)));
                assert(parent_of(right_of(i)) == i);
            }
            assert(shape_tabs(l).len() == 0 && shape_tabs(r).len() == 0);
        }
    }
}

/// A subtree whose leaves all hold tabs has no leaf without tabs in its shape.
pub proof fn lemma_filled_leaves_shape<Tab>(s: Seq<Node<Tab>>, i: int)
    requires
        i >= 0,
        forall|j: int| 0 <= j < s.len() && in_subtree(j, i) && #[trigger] s[j] is Leaf ==> node_tabs(s[j]).len() > 0,
    ensures
        shape_empty_leaves(shape(s, i)) == 0,
    decreases s.len() - i,
{
    if i < s.len() && !(s[i] is Empty) {
        lemma_subtree_self(i);
        if left_of(i) < s.len() {
            assert forall|j: int| 0 <= j < s.len() && in_subtree(j, left_of(i)) && #[trigger] s[j] is Leaf implies node_tabs(s[j]).len() > 0 by {
                lemma_subtree_child(j, i);
            }
            lemma_filled_leaves_shape(s, left_of(i));
        }
        if right_of(i) < s.len() {
            assert forall|j: int| 0 <= j < s.len() && in_subtree(j, right_of(i)) && #[trigger] s[j] is Leaf implies node_tabs(s[j]).len() > 0 by {
                lemma_subtree_child(j, i);
            }
            lemma_filled_leaves_shape(s, right_of(i));
        }
        let l = if left_of(i) < s.len() { shape(s, left_of(i)) } else { Shape::Nil };
        let r = if right_of(i) < s.len() { shape(s, right_of(i)) } else { Shape::Nil };
        assert(shape(s, i) == Shape::Branch(s[i], Box::new(l), Box::new(r)));
        assert(shape_empty_leaves(l) == 0 && shape_empty_leaves(r) == 0);
        if s[i] is Leaf {
            assert(node_tabs(s[i]).len() > 0);
        }
    }
}

/// A node reached from `p` has no more leaves without tabs below it than `p` has.
pub proof fn lemma_reach_empty_leaves<Tab>(s: Seq<Node<Tab>>, p: int, j: int)
    requires
        reach(s, p, j),
    ensures
        shape_empty_leaves(shape(s, j)) <= shape_empty_leaves(shape(s, p)),
    decreases j,
{
    if j != p {
        let g = parent_of(j);
        lemma_reach_empty_leaves(s, p, g);
        assert(0 <= p);
        crate::index::lemma_parent_children(j);
        assert(g < s.len() && !(s[g] is Empty));
        let l = if left_of(g) < s.len() { shape(s, left_of(g)) } else { Shape::Nil };
        let r = if right_of(g) < s.len() { shape(s, right_of(g)) } else { Shape::Nil };
        assert(shape(s, g) == Shape::Branch(s[g], Box::new(l), Box::new(r)));
    }
}

/// The tabs of the nodes at the first `m` positions that lie in the subtree at `i`.
pub open spec fn subtree_tabs<Tab>(s: Seq<Node<Tab>>, i: int, m: int) -> Multiset<Tab>
    decreases m,
{
    if m <= 0 {
        Multiset::empty()
    } else {
        subtree_tabs(s, i, m - 1).add(
            if in_subtree(m - 1, i) {
                node_tabs(s[m - 1]).to_multiset()
            } else {
                Multiset::empty()
            },
        )
    }
}

/// Every position is below the root.
pub proof fn lemma_subtree_root(j: int)
    requires
        j >= 0,
    ensures
        in_subtree(j, 0),
    decreases j,
{
    if j > 0 {
        crate::index::lemma_parent_children(j);
        lemma_subtree_root(parent_of(j));
    }
}

/// Positions of the subtree that hold no tabs add none.
proof fn lemma_subtree_tabs_none<Tab>(s: Seq<Node<Tab>>, i: int, m: int)
    requires
        forall|j: int| 0 <= j < m && in_subtree(j, i) ==> #[trigger] node_tabs(s[j]).len() == 0,
    ensures
        subtree_tabs(s, i, m) =~= Multiset::empty(),
    decreases m,
{
    if m > 0 {
        lemma_subtree_tabs_none(s, i, m - 1);
        if in_subtree(m - 1, i) {
            assert(node_tabs(s[m - 1]).len() == 0);
            assert(node_tabs(s[m - 1]) =~= Seq::<Tab>::empty());
            assert(Seq::<Tab>::empty().to_multiset() =~= Multiset::empty()) by {
                broadcast use vstd::seq_lib::group_to_multiset_ensures;
            }
        }
    }
}

/// The subtree at `i` is `i` itself and the subtrees of its two children.
proof fn lemma_subtree_tabs_split<Tab>(s: Seq<Node<Tab>>, i: int, m: int)
    requires
        i >= 0,
    ensures
        subtree_tabs(s, i, m) =~= (if 0 <= i < m { node_tabs(s[i]).to_multiset() } else { Multiset::empty() }).add(
            subtree_tabs(s, left_of(i), m),
        ).add(subtree_tabs(s, right_of(i), m)),
    decreases m,
{
    if m > 0 {
        lemma_subtree_tabs_split(s, i, m - 1);
        let j = m - 1;
        if in_subtree(j, left_of(i)) || in_subtree(j, right_of(i)) {
            lemma_subtree_child(j, i);
            lemma_subtree_disjoint(j, i);
        } else if in_subtree(j, i) && j != i {
            lemma_subtree_split(j, i);
        }
        if j == i {
            lemma_subtree_self(i);
        }
    }
}

/// In a well-formed array, the tabs at the positions of a subtree are the tabs of its
/// shape.
pub proof fn lemma_subtree_tabs_shape<Tab>(s: Seq<Node<Tab>>, i: int)
    requires
        nodes_wf(s),
        0 <= i < s.len(),
    ensures
        subtree_tabs(s, i, s.len() as int) =~= shape_tabs(shape(s, i)),
    decreases s.len() - i,
{
    let n = s.len() as int;
    if s[i] is Empty {
        assert forall|j: int| 0 <= j < n && in_subtree(j, i) implies #[trigger] node_tabs(s[j]).len() == 0 by {
            if j != i {
                crate::subtree::lemma_wf_below_non_parent(s, i, j);
            }
        }
        lemma_subtree_tabs_none(s, i, n);
        assert(shape(s, i) == Shape::<Tab>::Nil);
        assert(shape_tabs(Shape::<Tab>::Nil) =~= Multiset::empty());
    } else {
        lemma_subtree_tabs_split(s, i, n);
        if left_of(i) < n {
            lemma_subtree_tabs_shape(s, left_of(i));
        } else {
            assert forall|j: int| 0 <= j < n && in_subtree(j, left_of(i)) implies #[trigger] node_tabs(s[j]).len() == 0 by {
                lemma_subtree_ge(j, left_of(i));
            }
            lemma_subtree_tabs_none(s, left_of(i), n);
        }
        if right_of(i) < n {
            lemma_subtree_tabs_shape(s, right_of(i));
        } else {
            assert forall|j: int| 0 <= j < n && in_subtree(j, right_of(i)) implies #[trigger] node_tabs(s[j]).len() == 0 by {
                lemma_subtree_ge(j, right_of(i));
            }
            lemma_subtree_tabs_none(s, right_of(i), n);
        }
        let l = if left_of(i) < n { shape(s, left_of(i)) } else { Shape::Nil };
        let r = if right_of(i) < n { shape(s, right_of(i)) } else { Shape::Nil };
        assert(shape(s, i) == Shape::Branch(s[i], Box::new(l), Box::new(r)));
        assert(shape_tabs(Shape::<Tab>::Nil) =~= Multiset::empty());
        assert(subtree_tabs(s, left_of(i), n) =~= shape_tabs(l));
        assert(subtree_tabs(s, right_of(i), n) =~= shape_tabs(r));
        assert(shape_tabs(shape(s, i)) =~= node_tabs(s[i]).to_multiset().add(shape_tabs(l)).add(shape_tabs(r)));
    }
}

/// Every parent of a shape has two children and every leaf has none.
pub open spec fn shape_wf<Tab>(t: Shape<Tab>) -> bool
    decreases t,
{
    match t {
        Shape::Nil => true,
        Shape::Branch(n, l, r) => {
            &&& !(n is Empty)
            &&& n.is_split() ==> (*l is Branch && *r is Branch)
            &&& !n.is_split() ==> (*l is Nil && *r is Nil)
            &&& shape_wf(*l)
            &&& shape_wf(*r)
        },
    }
}

/// The shape fits below position `i` of an array of length `len`.
pub open spec fn fits<Tab>(t: Shape<Tab>, i: int, len: int) -> bool
    decreases t,
{
    match t {
        Shape::Nil => true,
        Shape::Branch(_, l, r) => 0 <= i < len && fits(*l, left_of(i), len) && fits(*r, right_of(i), len),
    }
}

/// Position `j` is reached from `i` through non-empty nodes only.
pub open spec fn reach<Tab>(s: Seq<Node<Tab>>, i: int, j: int) -> bool
    decreases j,
{
    if i < 0 || j < i || j >= s.len() || s[j] is Empty {
        false
    } else if j == i {
        true
    } else {
        reach(s, i, parent_of(j))
    }
}

/// The conditions on one position of a well-formed tree array.
pub open spec fn node_ok<Tab>(s: Seq<Node<Tab>>, i: int) -> bool {
    &&& s[i].is_split() ==> right_of(i) < s.len() && !(s[left_of(i)] is Empty) && !(s[right_of(i)] is Empty)
    &&& (i > 0 && !(s[i] is Empty)) ==> s[parent_of(i)].is_split()
}

/// A well-formed tree array: every parent has two children, every non-empty node
/// below the root hangs from a parent.
pub open spec fn nodes_wf<Tab>(s: Seq<Node<Tab>>) -> bool {
    &&& s.len() <= MAX_NODES
    &&& forall|i: int| 0 <= i < s.len() ==> #[trigger] node_ok(s, i)
}

// ---------------------------------------------------------------------------
// Lemmas about positions.

pub proof fn lemma_subtree_ge(j: int, i: int)
    requires
        in_subtree(j, i),
    ensures
        j >= i,
        i >= 0,
    decreases j,
{
    if j != i {
        lemma_subtree_ge(parent_of(j), i);
    }
}

pub proof fn lemma_subtree_self(i: int)
    requires
        i >= 0,
    ensures
        in_subtree(i, i),
{
}

/// The children of `i` are in its subtree, and their subtrees are inside it.
pub proof fn lemma_subtree_child(j: int, i: int)
    requires
        i >= 0,
        in_subtree(j, left_of(i)) || in_subtree(j, right_of(i)),
    ensures
        in_subtree(j, i),
        j != i,
    decreases j,
{
    assert(in_subtree(i, i));
    if in_subtree(j, left_of(i)) {
        lemma_subtree_ge(j, left_of(i));
        if j != left_of(i) {
            assert(in_subtree(parent_of(j), left_of(i)));
            lemma_subtree_child(parent_of(j), i);
        } else {
            assert(parent_of(j) == i);
        }
    } else {
        lemma_subtree_ge(j, right_of(i));
        if j != right_of(i) {
            assert(in_subtree(parent_of(j), right_of(i)));
            lemma_subtree_child(parent_of(j), i);
        } else {
            assert(parent_of(j) == i);
        }
    }
}

/// Every proper descendant of `i` is below exactly one of its children.
pub proof fn lemma_subtree_split(j: int, i: int)
    requires
        in_subtree(j, i),
        j != i,
    ensures
        in_subtree(j, left_of(i)) || in_subtree(j, right_of(i)),
        !(in_subtree(j, left_of(i)) && in_subtree(j, right_of(i))),
    decreases j,
{
    lemma_subtree_ge(j, i);
    lemma_subtree_disjoint(j, i);
    if parent_of(j) == i {
        assert(j == left_of(i) || j == right_of(i));
    } else {
        lemma_subtree_split(parent_of(j), i);
        lemma_subtree_ge(parent_of(j), i);
        if in_subtree(parent_of(j), left_of(i)) {
            lemma_subtree_ge(parent_of(j), left_of(i));
        } else {
            lemma_subtree_ge(parent_of(j), right_of(i));
        }
    }
}

pub proof fn lemma_subtree_disjoint(j: int, i: int)
    requires
        i >= 0,
    ensures
        !(in_subtree(j, left_of(i)) && in_subtree(j, right_of(i))),
    decreases j,
{
    if in_subtree(j, left_of(i)) && in_subtree(j, right_of(i)) {
        lemma_subtree_ge(j, right_of(i));
        if j == right_of(i) {
            assert(in_subtree(parent_of(j), left_of(i)));
            lemma_subtree_ge(parent_of(j), left_of(i));
        } else if j == left_of(i) {
        } else {
            lemma_subtree_disjoint(parent_of(j), i);
        }
    }
}

/// Subtrees nest: a descendant of a descendant is a descendant.
pub proof fn lemma_subtree_trans(k: int, j: int, i: int)
    requires
        in_subtree(k, j),
        in_subtree(j, i),
    ensures
        in_subtree(k, i),
    decreases k,
{
    lemma_subtree_ge(k, j);
    lemma_subtree_ge(j, i);
    if k != j {
        lemma_subtree_trans(parent_of(k), j, i);
    }
}

/// A node whose parent is outside the subtree of `i` is `i` itself or outside.
pub proof fn lemma_subtree_parent(j: int, i: int)
    requires
        in_subtree(j, i),
        j != i,
    ensures
        in_subtree(parent_of(j), i),
{
}

/// Two positions whose subtrees meet are one below the other.
pub proof fn lemma_subtree_nested(k: int, a: int, b: int)
    requires
        in_subtree(k, a),
        in_subtree(k, b),
        a <= b,
    ensures
        in_subtree(b, a),
    decreases k,
{
    lemma_subtree_ge(k, b);
    if k == b {
    } else {
        lemma_subtree_ge(k, a);
        if k == a {
            lemma_subtree_ge(k, b);
        } else {
            lemma_subtree_nested(parent_of(k), a, b);
        }
    }
}

// ---------------------------------------------------------------------------
// Lemmas about shapes and reachability.

/// The shape below `i` depends only on the positions in the subtree of `i`.
pub proof fn lemma_shape_frame<Tab>(s1: Seq<Node<Tab>>, s2: Seq<Node<Tab>>, i: int)
    requires
        i >= 0,
        s1.len() == s2.len(),
        forall|j: int| 0 <= j < s1.len() && in_subtree(j, i) ==> s1[j] == s2[j],
    ensures
        shape(s1, i) == shape(s2, i),
    decreases s1.len() - i,
{
    if i < s1.len() {
        assert(in_subtree(i, i));
        if !(s1[i] is Empty) {
            if left_of(i) < s1.len() {
                assert forall|j: int| 0 <= j < s1.len() && in_subtree(j, left_of(i)) implies s1[j] == s2[j] by {
                    lemma_subtree_child(j, i);
                }
                lemma_shape_frame(s1, s2, left_of(i));
            }
            if right_of(i) < s1.len() {
                assert forall|j: int| 0 <= j < s1.len() && in_subtree(j, right_of(i)) implies s1[j] == s2[j] by {
                    lemma_subtree_child(j, i);
                }
                lemma_shape_frame(s1, s2, right_of(i));
            }
        }
    }
}

/// Reachability from `i` depends only on the positions in the subtree of `i`.
pub proof fn lemma_reach_frame<Tab>(s1: Seq<Node<Tab>>, s2: Seq<Node<Tab>>, i: int, j: int)
    requires
        s1.len() == s2.len(),
        forall|k: int| 0 <= k < s1.len() && in_subtree(k, i) ==> s1[k] == s2[k],
    ensures
        reach(s1, i, j) == reach(s2, i, j),
    decreases j,
{
    if reach(s1, i, j) {
        lemma_reach_subtree(s1, i, j);
        if j != i {
            lemma_reach_frame(s1, s2, i, parent_of(j));
        }
    } else if reach(s2, i, j) {
        lemma_reach_subtree(s2, i, j);
        if j != i {
            lemma_reach_frame(s1, s2, i, parent_of(j));
        }
    }
}

pub proof fn lemma_reach_subtree<Tab>(s: Seq<Node<Tab>>, i: int, j: int)
    requires
        reach(s, i, j),
    ensures
        in_subtree(j, i),
        0 <= j < s.len(),
        !(s[j] is Empty),
    decreases j,
{
    if j != i {
        lemma_reach_subtree(s, i, parent_of(j));
    }
}

/// Reaching a node below a child of `i` means reaching it from that child, with `i` non-empty.
pub proof fn lemma_reach_child<Tab>(s: Seq<Node<Tab>>, i: int, c: int, j: int)
    requires
        i >= 0,
        c == left_of(i) || c == right_of(i),
        in_subtree(j, c),
    ensures
        reach(s, i, j) == (reach(s, c, j) && 0 <= i < s.len() && !(s[i] is Empty)),
    decreases j,
{
    lemma_subtree_ge(j, c);
    assert(reach(s, i, i) == (0 <= i < s.len() && !(s[i] is Empty)));
    if j == c {
        assert(parent_of(j) == i);
        assert(reach(s, c, c) == (0 <= c < s.len() && !(s[c] is Empty)));
    } else {
        assert(in_subtree(parent_of(j), c));
        lemma_reach_child(s, i, c, parent_of(j));
        lemma_subtree_ge(parent_of(j), c);
    }
}

/// In a well-formed array, the nodes on the way from any node up to the root are non-empty.
pub proof fn lemma_wf_ancestors<Tab>(s: Seq<Node<Tab>>, a: int, j: int)
    requires
        nodes_wf(s),
        0 <= j < s.len(),
        !(s[j] is Empty),
        in_subtree(j, a),
    ensures
        reach(s, a, j),
        0 <= a < s.len(),
        !(s[a] is Empty),
    decreases j,
{
    lemma_subtree_ge(j, a);
    if j != a {
        assert(node_ok(s, j));
        lemma_wf_ancestors(s, a, parent_of(j));
    }
}

/// The shape of a well-formed array is well-formed.
pub proof fn lemma_wf_shape<Tab>(s: Seq<Node<Tab>>, i: int)
    requires
        nodes_wf(s),
        i >= 0,
    ensures
        shape_wf(shape(s, i)),
        fits(shape(s, i), i, s.len() as int),
    decreases s.len() - i,
{
    if 0 <= i < s.len() && !(s[i] is Empty) {
        assert(node_ok(s, i));
        let l = if left_of(i) < s.len() { shape(s, left_of(i)) } else { Shape::Nil };
        let r = if right_of(i) < s.len() { shape(s, right_of(i)) } else { Shape::Nil };
        assert(shape(s, i) == Shape::Branch(s[i], Box::new(l), Box::new(r)));
        if left_of(i) < s.len() {
            lemma_wf_shape(s, left_of(i));
            assert(node_ok(s, left_of(i)));
            assert(parent_of(left_of(i)) == i);
            if s[left_of(i)] is Empty {
                assert(l is Nil);
            } else {
                assert(l is Branch);
            }
        }
        if right_of(i) < s.len() {
            lemma_wf_shape(s, right_of(i));
            assert(node_ok(s, right_of(i)));
            assert(parent_of(right_of(i)) == i);
            if s[right_of(i)] is Empty {
                assert(r is Nil);
            } else {
                assert(r is Branch);
            }
        }
        assert(shape_wf(l));
        assert(shape_wf(r));
        assert(fits(l, left_of(i), s.len() as int));
        assert(fits(r, right_of(i), s.len() as int));
        if !s[i].is_split() {
            assert(l is Nil);
            assert(r is Nil);
        }
        assert(shape_wf(Shape::Branch(s[i], Box::new(l), Box::new(r))));
    }
}

/// A shape fits at any position to the left of one where it fits.
pub proof fn lemma_fits_lower<Tab>(t: Shape<Tab>, i: int, k: int, len: int)
    requires
        fits(t, k, len),
        0 <= i <= k,
    ensures
        fits(t, i, len),
    decreases t,
{
    match t {
        Shape::Nil => {},
        Shape::Branch(_, l, r) => {
            lemma_fits_lower(*l, left_of(i), left_of(k), len);
            lemma_fits_lower(*r, right_of(i), right_of(k), len);
        },
    }
}

/// Replacing the subtree below `x` changes the tabs and the size above it by as much.
pub proof fn lemma_replace_below<Tab>(old: Seq<Node<Tab>>, new: Seq<Node<Tab>>, a: int, x: int)
    requires
        old.len() == new.len(),
        in_subtree(x, a),
        forall|j: int| 0 <= j < old.len() && !in_subtree(j, x) ==> old[j] == new[j],
        forall|j: int| in_subtree(x, j) && j != x ==> reach(old, j, parent_of(x)),
    ensures
        shape_tabs(shape(new, a)).add(shape_tabs(shape(old, x))) =~= shape_tabs(shape(old, a)).add(
            shape_tabs(shape(new, x)),
        ),
        shape_size(shape(new, a)) + shape_size(shape(old, x)) == shape_size(shape(old, a))
            + shape_size(shape(new, x)),
        shape_empty_leaves(shape(new, a)) + shape_empty_leaves(shape(old, x)) == shape_empty_leaves(
            shape(old, a),
        ) + shape_empty_leaves(shape(new, x)),
    decreases x - a,
{
    lemma_subtree_ge(x, a);
    if x != a {
        let q = parent_of(x);
        lemma_subtree_parent(x, a);
        assert(in_subtree(x, q)) by {
            assert(in_subtree(q, q));
        }
        assert(reach(old, q, q));
        lemma_reach_subtree(old, q, q);
        // the sibling of `x` is unchanged
        let y = if x == left_of(q) { right_of(q) } else { left_of(q) };
        lemma_subtree_ge(q, a);
        assert(q >= 0);
        assert forall|j: int| 0 <= j < old.len() && in_subtree(j, y) implies old[j] == new[j] by {
            lemma_subtree_disjoint(j, q);
            if in_subtree(j, x) {
                lemma_subtree_self(x);
            }
        }
        if y < old.len() {
            lemma_shape_frame(old, new, y);
        }
        assert(!in_subtree(q, x)) by {
            if in_subtree(q, x) {
                lemma_subtree_ge(q, x);
            }
        }
        assert(new[q] == old[q]);
        assert forall|j: int| 0 <= j < old.len() && !in_subtree(j, q) implies old[j] == new[j] by {
            if in_subtree(j, x) {
                lemma_subtree_trans(j, x, q);
            }
        }
        assert forall|j: int| in_subtree(q, j) && j != q implies reach(old, j, parent_of(q)) by {
            lemma_subtree_trans(x, q, j);
            assert(reach(old, j, q));
        }
        lemma_replace_below(old, new, a, q);
        // one level: the shape at q
        assert(shape(old, left_of(q)) == (if left_of(q) < old.len() { shape(old, left_of(q)) } else { Shape::Nil }));
        assert(shape(old, right_of(q)) == (if right_of(q) < old.len() { shape(old, right_of(q)) } else { Shape::Nil }));
        assert(shape(new, left_of(q)) == (if left_of(q) < new.len() { shape(new, left_of(q)) } else { Shape::Nil }));
        assert(shape(new, right_of(q)) == (if right_of(q) < new.len() { shape(new, right_of(q)) } else { Shape::Nil }));
        assert(shape(old, y) == shape(new, y));
        let nt = node_tabs(old[q]).to_multiset();
        let ta = shape_tabs(shape(new, a));
        let tb = shape_tabs(shape(old, a));
        let ox = shape_tabs(shape(old, x));
        let nx = shape_tabs(shape(new, x));
        let ty = shape_tabs(shape(old, y));
        let oq = shape_tabs(shape(old, q));
        let nq = shape_tabs(shape(new, q));
        if x == left_of(q) {
            assert(oq == nt.add(ox).add(ty));
            assert(nq == nt.add(nx).add(ty));
        } else {
            assert(oq == nt.add(ty).add(ox));
            assert(nq == nt.add(ty).add(nx));
        }
        assert forall|v: Tab| #[trigger] ta.add(ox).count(v) == tb.add(nx).count(v) by {
            assert(ta.add(oq).count(v) == tb.add(nq).count(v));
        }
        assert(ta.add(ox) =~= tb.add(nx));
        assert(shape(old, q) == Shape::Branch(old[q], Box::new(if left_of(q) < old.len() { shape(old, left_of(q)) } else { Shape::Nil }), Box::new(if right_of(q) < old.len() { shape(old, right_of(q)) } else { Shape::Nil })));
        if x >= old.len() {
            assert(shape(old, x) == Shape::<Tab>::Nil);
            assert(shape(new, x) == Shape::<Tab>::Nil);
        }
    }
}

/// Replacing the subtree at `x` by one that prunes to the same shape leaves the pruned
/// shape at any ancestor `a` unchanged.
pub proof fn lemma_prune_replace_below<Tab>(old: Seq<Node<Tab>>, new: Seq<Node<Tab>>, a: int, x: int)
    requires
        old.len() == new.len(),
        in_subtree(x, a),
        forall|j: int| 0 <= j < old.len() && !in_subtree(j, x) ==> old[j] == new[j],
        forall|j: int| in_subtree(x, j) && j != x ==> reach(old, j, parent_of(x)),
        prune(shape(new, x)) == prune(shape(old, x)),
    ensures
        prune(shape(new, a)) == prune(shape(old, a)),
    decreases x - a,
{
    lemma_subtree_ge(x, a);
    if x != a {
        let q = parent_of(x);
        lemma_subtree_parent(x, a);
        assert(in_subtree(x, q)) by {
            assert(in_subtree(q, q));
        }
        assert(reach(old, q, q));
        lemma_reach_subtree(old, q, q);
        let y = if x == left_of(q) { right_of(q) } else { left_of(q) };
        lemma_subtree_ge(q, a);
        assert forall|j: int| 0 <= j < old.len() && in_subtree(j, y) implies old[j] == new[j] by {
            lemma_subtree_disjoint(j, q);
            if in_subtree(j, x) {
                lemma_subtree_self(x);
            }
        }
        if y < old.len() {
            lemma_shape_frame(old, new, y);
        }
        assert(!in_subtree(q, x)) by {
            if in_subtree(q, x) {
                lemma_subtree_ge(q, x);
            }
        }
        assert(new[q] == old[q]);
        assert forall|j: int| 0 <= j < old.len() && !in_subtree(j, q) implies old[j] == new[j] by {
            if in_subtree(j, x) {
                lemma_subtree_trans(j, x, q);
            }
        }
        assert forall|j: int| in_subtree(q, j) && j != q implies reach(old, j, parent_of(q)) by {
            lemma_subtree_trans(x, q, j);
            assert(reach(old, j, q));
        }
        assert(shape(old, y) == shape(new, y));
        if x >= old.len() {
            assert(shape(old, x) == Shape::<Tab>::Nil);
            assert(shape(new, x) == Shape::<Tab>::Nil);
        }
        assert(!(old[q] is Empty) && q < old.len());
        let lo = if left_of(q) < old.len() { shape(old, left_of(q)) } else { Shape::Nil };
        let ro = if right_of(q) < old.len() { shape(old, right_of(q)) } else { Shape::Nil };
        let ln = if left_of(q) < new.len() { shape(new, left_of(q)) } else { Shape::Nil };
        let rn = if right_of(q) < new.len() { shape(new, right_of(q)) } else { Shape::Nil };
        assert(shape(old, q) == Shape::Branch(old[q], Box::new(lo), Box::new(ro)));
        assert(shape(new, q) == Shape::Branch(new[q], Box::new(ln), Box::new(rn)));
        assert(lo == shape(old, left_of(q)) && ln == shape(new, left_of(q)));
        assert(ro == shape(old, right_of(q)) && rn == shape(new, right_of(q)));
        assert(prune(lo) == prune(ln) && prune(ro) == prune(rn));
        assert(prune(shape(new, q)) == prune(shape(old, q)));
        lemma_prune_replace_below(old, new, a, q);
    }
}

} // verus!
