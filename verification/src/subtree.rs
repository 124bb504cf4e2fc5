//! Moving whole subtrees inside a breadth-first tree array.
use vstd::prelude::*;

use crate::index::{left_of, parent_of, right_of};
use crate::node::Node;
use crate::shape::{
    fits, in_subtree, lemma_reach_child, lemma_reach_frame, lemma_reach_subtree, lemma_shape_frame,
    lemma_subtree_child, lemma_subtree_disjoint, lemma_subtree_ge, lemma_subtree_split, node_ok,
    nodes_wf, reach, shape, shape_wf, Shape, MAX_NODES,
};

verus! {

/// `f`, a position below `from`, as seen when the subtree at `from` is moved to `to`.
pub open spec fn relocate(f: int, from: int, to: int) -> int
    decreases f,
{
    if f <= from || from < 0 {
        to
    } else {
        let m = relocate(parent_of(f), from, to);
        if f % 2 == 1 {
            left_of(m)
        } else {
            right_of(m)
        }
    }
}

/// Two equal shapes hold the same nodes at corresponding positions.
pub proof fn lemma_relocate<Tab>(s1: Seq<Node<Tab>>, t: int, s2: Seq<Node<Tab>>, u: int, f: int)
    requires
        t >= 0,
        shape(s1, t) == shape(s2, u),
        reach(s2, u, f),
    ensures
        reach(s1, t, relocate(f, u, t)),
        shape(s1, relocate(f, u, t)) == shape(s2, f),
        s1[relocate(f, u, t)] == s2[f],
    decreases f,
{
    lemma_reach_subtree(s2, u, f);
    lemma_subtree_ge(f, u);
    if f == u {
        assert(reach(s1, t, t));
    } else {
        let g = parent_of(f);
        assert(reach(s2, u, g));
        lemma_relocate(s1, t, s2, u, g);
        let rg = relocate(g, u, t);
        lemma_reach_subtree(s1, t, rg);
        lemma_reach_subtree(s2, u, g);
        let rf = relocate(f, u, t);
        if f % 2 == 1 {
            assert(f == left_of(g));
            assert(rf == left_of(rg));
            assert(shape(s1, rf) == (if left_of(rg) < s1.len() { shape(s1, left_of(rg)) } else { Shape::Nil }));
        } else {
            assert(f == right_of(g));
            assert(rf == right_of(rg));
            assert(shape(s1, rf) == (if right_of(rg) < s1.len() { shape(s1, right_of(rg)) } else { Shape::Nil }));
        }
        assert(shape(s2, f) is Branch);
        assert(parent_of(rf) == rg);
    }
}

/// Below a position that is not a parent, a well-formed array holds only empty nodes.
pub proof fn lemma_wf_below_non_parent<Tab>(s: Seq<Node<Tab>>, a: int, j: int)
    requires
        nodes_wf(s),
        0 <= a < s.len(),
        !s[a].is_split(),
        in_subtree(j, a),
        j != a,
        j < s.len(),
    ensures
        s[j] is Empty,
    decreases j,
{
    lemma_subtree_ge(j, a);
    assert(node_ok(s, j));
    let g = parent_of(j);
    if g != a {
        lemma_subtree_ge(g, a);
        lemma_wf_below_non_parent(s, a, g);
    }
}

/// A node reached from a well-formed shape has a well-formed shape.
pub proof fn lemma_reach_shape_wf<Tab>(s: Seq<Node<Tab>>, p: int, j: int)
    requires
        reach(s, p, j),
        shape_wf(shape(s, p)),
    ensures
        shape_wf(shape(s, j)),
    decreases j,
{
    lemma_reach_subtree(s, p, j);
    lemma_subtree_ge(j, p);
    if j != p {
        let g = parent_of(j);
        lemma_reach_shape_wf(s, p, g);
        lemma_reach_subtree(s, p, g);
        assert(shape(s, left_of(g)) == (if left_of(g) < s.len() { shape(s, left_of(g)) } else { Shape::Nil }));
        assert(shape(s, right_of(g)) == (if right_of(g) < s.len() { shape(s, right_of(g)) } else { Shape::Nil }));
    }
}

/// The nodes of a well-formed shape at a reached position: parents have two non-empty children.
pub proof fn lemma_reach_node_ok<Tab>(s: Seq<Node<Tab>>, p: int, j: int)
    requires
        reach(s, p, j),
        shape_wf(shape(s, p)),
    ensures
        s[j].is_split() ==> right_of(j) < s.len() && !(s[left_of(j)] is Empty) && !(s[right_of(j)] is Empty),
        j != p ==> s[parent_of(j)].is_split(),
{
    lemma_reach_shape_wf(s, p, j);
    lemma_reach_subtree(s, p, j);
    lemma_subtree_ge(j, p);
    assert(shape(s, left_of(j)) == (if left_of(j) < s.len() { shape(s, left_of(j)) } else { Shape::Nil }));
    assert(shape(s, right_of(j)) == (if right_of(j) < s.len() { shape(s, right_of(j)) } else { Shape::Nil }));
    if j != p {
        let g = parent_of(j);
        assert(reach(s, p, g));
        lemma_reach_shape_wf(s, p, g);
        lemma_reach_subtree(s, p, g);
        assert(shape(s, left_of(g)) == (if left_of(g) < s.len() { shape(s, left_of(g)) } else { Shape::Nil }));
        assert(shape(s, right_of(g)) == (if right_of(g) < s.len() { shape(s, right_of(g)) } else { Shape::Nil }));
    }
}

/// Takes the node at `i` out of the array, leaving an empty node.
pub fn take_node<Tab>(nodes: &mut Vec<Node<Tab>>, i: usize) -> (r: Node<Tab>)
    requires
        i < old(nodes)@.len(),
    ensures
        r == old(nodes)@[i as int],
        final(nodes)@ == old(nodes)@.update(i as int, Node::Empty),
{
    let mut n = Node::Empty;
    std::mem::swap(&mut n, &mut nodes[i]);
    n
}

/// Puts `n` at position `i`, dropping what was there.
pub fn put_node<Tab>(nodes: &mut Vec<Node<Tab>>, i: usize, n: Node<Tab>)
    requires
        i < old(nodes)@.len(),
    ensures
        final(nodes)@ == old(nodes)@.update(i as int, n),
{
    let mut n = n;
    std::mem::swap(&mut n, &mut nodes[i]);
}

/// Moves the nodes reached from `i` out of the array and returns them as a shape.
pub fn extract<Tab>(nodes: &mut Vec<Node<Tab>>, i: usize) -> (r: Shape<Tab>)
    requires
        old(nodes)@.len() <= MAX_NODES,
    ensures
        r == shape(old(nodes)@, i as int),
        final(nodes)@.len() == old(nodes)@.len(),
        forall|j: int|
            0 <= j < old(nodes)@.len() ==> #[trigger] final(nodes)@[j] == if reach(old(nodes)@, i as int, j) {
                Node::Empty
            } else {
                old(nodes)@[j]
            },
    decreases old(nodes)@.len() - i,
{
    if i >= nodes.len() || nodes[i].is_empty() {
        assert forall|j: int| 0 <= j < old(nodes)@.len() implies !reach(old(nodes)@, i as int, j) by {
            if reach(old(nodes)@, i as int, j) {
                lemma_reach_subtree(old(nodes)@, i as int, j);
                lemma_wf_reach_root(old(nodes)@, i as int, j);
            }
        }
        return Shape::Nil;
    }
    let ghost s0 = nodes@;
    let n = take_node(nodes, i);
    let ghost s1 = nodes@;
    let l = if 2 * i + 1 < nodes.len() {
        extract(nodes, 2 * i + 1)
    } else {
        Shape::Nil
    };
    let ghost s2 = nodes@;
    let r = if 2 * i + 2 < nodes.len() {
        extract(nodes, 2 * i + 2)
    } else {
        Shape::Nil
    };
    let ghost s3 = nodes@;
    proof {
        let ii = i as int;
        // the left subtree did not see position i
        assert forall|j: int| 0 <= j < s0.len() && in_subtree(j, left_of(ii)) implies s0[j] == s1[j] by {
            lemma_subtree_child(j, ii);
        }
        lemma_shape_frame(s0, s1, left_of(ii));
        // the right subtree did not see position i, nor the left extraction
        assert forall|j: int| 0 <= j < s0.len() && in_subtree(j, right_of(ii)) implies s0[j] == s2[j] by {
            lemma_subtree_child(j, ii);
            lemma_subtree_disjoint(j, ii);
            if left_of(ii) < s0.len() {
                if reach(s1, left_of(ii), j) {
                    lemma_reach_subtree(s1, left_of(ii), j);
                }
            }
        }
        lemma_shape_frame(s0, s2, right_of(ii));
        assert(shape(s0, left_of(ii)) == (if left_of(ii) < s0.len() { shape(s0, left_of(ii)) } else { Shape::Nil }));
        assert(shape(s0, right_of(ii)) == (if right_of(ii) < s0.len() { shape(s0, right_of(ii)) } else { Shape::Nil }));
        assert forall|j: int| 0 <= j < s0.len() implies #[trigger] s3[j] == if reach(s0, ii, j) {
            Node::Empty
        } else {
            s0[j]
        } by {
            assert(reach(s0, ii, ii));
            if in_subtree(j, left_of(ii)) {
                lemma_subtree_child(j, ii);
                lemma_subtree_disjoint(j, ii);
                lemma_reach_child(s0, ii, left_of(ii), j);
                assert forall|k: int| 0 <= k < s0.len() && in_subtree(k, left_of(ii)) implies s0[k] == s1[k] by {
                    lemma_subtree_child(k, ii);
                }
                lemma_reach_frame(s0, s1, left_of(ii), j);
                if reach(s2, right_of(ii), j) {
                    lemma_reach_subtree(s2, right_of(ii), j);
                }
                if !(left_of(ii) < s0.len()) {
                    lemma_subtree_ge(j, left_of(ii));
                }
            } else if in_subtree(j, right_of(ii)) {
                lemma_subtree_child(j, ii);
                lemma_reach_child(s0, ii, right_of(ii), j);
                assert forall|k: int| 0 <= k < s0.len() && in_subtree(k, right_of(ii)) implies s0[k] == s2[k] by {
                    lemma_subtree_child(k, ii);
                    lemma_subtree_disjoint(k, ii);
                    if left_of(ii) < s0.len() && reach(s1, left_of(ii), k) {
                        lemma_reach_subtree(s1, left_of(ii), k);
                    }
                }
                lemma_reach_frame(s0, s2, right_of(ii), j);
                if left_of(ii) < s0.len() && reach(s1, left_of(ii), j) {
                    lemma_reach_subtree(s1, left_of(ii), j);
                    lemma_subtree_disjoint(j, ii);
                }
                if !(right_of(ii) < s0.len()) {
                    lemma_subtree_ge(j, right_of(ii));
                }
            } else {
                if j != ii && reach(s0, ii, j) {
                    lemma_reach_subtree(s0, ii, j);
                    lemma_subtree_split(j, ii);
                }
                if left_of(ii) < s0.len() && reach(s1, left_of(ii), j) {
                    lemma_reach_subtree(s1, left_of(ii), j);
                }
                if right_of(ii) < s0.len() && reach(s2, right_of(ii), j) {
                    lemma_reach_subtree(s2, right_of(ii), j);
                }
            }
        }
    }
    Shape::Branch(n, Box::new(l), Box::new(r))
}

proof fn lemma_wf_reach_root<Tab>(s: Seq<Node<Tab>>, i: int, j: int)
    requires
        reach(s, i, j),
    ensures
        0 <= i < s.len(),
        !(s[i] is Empty),
    decreases j,
{
    lemma_reach_subtree(s, i, j);
    if j != i {
        lemma_wf_reach_root(s, i, parent_of(j));
    }
}

/// Writes the shape `t` into the array with its root at `i`.
///
/// The positions below `i` must all be empty beforehand.
pub fn write_shape<Tab>(nodes: &mut Vec<Node<Tab>>, t: Shape<Tab>, i: usize)
    requires
        old(nodes)@.len() <= MAX_NODES,
        shape_wf(t),
        fits(t, i as int, old(nodes)@.len() as int),
        forall|j: int| 0 <= j < old(nodes)@.len() && in_subtree(j, i as int) ==> old(nodes)@[j] is Empty,
    ensures
        final(nodes)@.len() == old(nodes)@.len(),
        forall|j: int| 0 <= j < old(nodes)@.len() && !in_subtree(j, i as int) ==> final(nodes)@[j] == old(nodes)@[j],
        shape(final(nodes)@, i as int) == t,
        forall|j: int|
            0 <= j < old(nodes)@.len() && in_subtree(j, i as int) && !(final(nodes)@[j] is Empty) ==> reach(
                final(nodes)@,
                i as int,
                j,
            ),
    decreases t,
{
    match t {
        Shape::Nil => {
            let ghost s = nodes@;
            assert(shape(s, i as int) == Shape::<Tab>::Nil) by {
                if 0 <= i < s.len() {
                    assert(in_subtree(i as int, i as int));
                }
            }
        },
        Shape::Branch(n, l, r) => {
            let ghost s0 = nodes@;
            let ghost lv = *l;
            let ghost rv = *r;
            let ghost ii = i as int;
            put_node(nodes, i, n);
            let ghost s1 = nodes@;
            proof {
                assert forall|j: int| 0 <= j < s1.len() && in_subtree(j, left_of(ii)) implies s1[j] is Empty by {
                    lemma_subtree_child(j, ii);
                }
            }
            if 2 * i + 1 < nodes.len() {
                write_shape(nodes, *l, 2 * i + 1);
            } else {
                proof {
                    assert(fits(lv, left_of(ii), s0.len() as int));
                    if lv is Branch {
                        assert(0 <= left_of(ii) < s0.len());
                    }
                }
            }
            let ghost s2 = nodes@;
            proof {
                assert forall|j: int| 0 <= j < s2.len() && in_subtree(j, right_of(ii)) implies s2[j] is Empty by {
                    lemma_subtree_child(j, ii);
                    lemma_subtree_disjoint(j, ii);
                }
            }
            if 2 * i + 2 < nodes.len() {
                write_shape(nodes, *r, 2 * i + 2);
            } else {
                proof {
                    assert(fits(rv, right_of(ii), s0.len() as int));
                    if rv is Branch {
                        assert(0 <= right_of(ii) < s0.len());
                    }
                }
            }
            let ghost s3 = nodes@;
            proof {
                assert forall|j: int| 0 <= j < s0.len() && !in_subtree(j, ii) implies s3[j] == s0[j] by {
                    if in_subtree(j, left_of(ii)) || in_subtree(j, right_of(ii)) {
                        lemma_subtree_child(j, ii);
                    }
                    assert(in_subtree(ii, ii));
                }
                // the left part survives the right write
                assert forall|j: int| 0 <= j < s0.len() && in_subtree(j, left_of(ii)) implies s3[j] == s2[j] by {
                    lemma_subtree_disjoint(j, ii);
                }
                lemma_shape_frame(s2, s3, left_of(ii));
                if !(2 * ii + 1 < s0.len()) {
                    assert(shape(s3, left_of(ii)) == Shape::<Tab>::Nil);
                }
                if !(2 * ii + 2 < s0.len()) {
                    assert(shape(s3, right_of(ii)) == Shape::<Tab>::Nil);
                }
                assert(in_subtree(ii, ii));
                assert(!in_subtree(ii, left_of(ii)));
                assert(!in_subtree(ii, right_of(ii)));
                assert(s2[ii] == s1[ii]);
                assert(s3[ii] == n);
                assert(shape(s3, left_of(ii)) == (if left_of(ii) < s3.len() { shape(s3, left_of(ii)) } else { Shape::Nil }));
                assert(shape(s3, right_of(ii)) == (if right_of(ii) < s3.len() { shape(s3, right_of(ii)) } else { Shape::Nil }));
                assert(shape(s3, ii) == Shape::Branch(n, Box::new(lv), Box::new(rv)));
                assert forall|j: int|
                    0 <= j < s0.len() && in_subtree(j, ii) && !(s3[j] is Empty) implies reach(s3, ii, j) by {
                    if j == ii {
                    } else {
                        lemma_subtree_split(j, ii);
                        if in_subtree(j, left_of(ii)) {
                            lemma_subtree_disjoint(j, ii);
                            if 2 * ii + 1 < s0.len() {
                                assert(reach(s2, left_of(ii), j));
                                assert forall|k: int| 0 <= k < s0.len() && in_subtree(k, left_of(ii)) implies s2[k] == s3[k] by {
                                    lemma_subtree_disjoint(k, ii);
                                }
                                lemma_reach_frame(s2, s3, left_of(ii), j);
                            } else {
                                lemma_subtree_ge(j, left_of(ii));
                            }
                            lemma_reach_child(s3, ii, left_of(ii), j);
                        } else {
                            if 2 * ii + 2 < s0.len() {
                                assert(reach(s3, right_of(ii), j));
                            } else {
                                lemma_subtree_ge(j, right_of(ii));
                            }
                            lemma_reach_child(s3, ii, right_of(ii), j);
                        }
                    }
                }
            }
        },
    }
}

} // verus!
