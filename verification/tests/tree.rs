use egui_dock::destination::Split;
use egui_dock::index::{NodeIndex, SurfaceIndex, TabIndex};
use egui_dock::node::{LeafNode, Node};
use egui_dock::tree::Tree;
use egui_dock::window_state::WindowState;

#[test]
fn node_indices_and_their_children() {
    let n = NodeIndex(4);
    assert_eq!(n.left(), NodeIndex(9));
    assert_eq!(n.right(), NodeIndex(10));
    assert_eq!(n.left().parent(), Some(n));
    assert_eq!(n.right().parent(), Some(n));
    assert!(n.left().is_left());
    assert!(n.right().is_right());
    assert_eq!(NodeIndex::root().parent(), None);
    assert!(SurfaceIndex::main().is_main());
}

#[test]
fn split_places_the_new_leaf_by_direction() {
    let mut t = Tree::new(vec![1]);
    assert_eq!(t.split(NodeIndex(0), Split::Left, Node::leaf(2)), [NodeIndex(2), NodeIndex(1)]);
    assert!(t.get(NodeIndex(0)).unwrap().is_horizontal());
    assert_eq!(t.focused_leaf(), Some(NodeIndex(1)));
    assert_eq!(t.split_above(NodeIndex(2), vec![3]), [NodeIndex(6), NodeIndex(5)]);
    assert!(t.get(NodeIndex(2)).unwrap().is_vertical());
    assert_eq!(t.find_tab(&3), Some((NodeIndex(5), TabIndex(0))));
    assert_eq!(t.len(), 7);
}

#[test]
fn tree_tabs_insert_remove_and_retain() {
    let mut t = Tree::new(vec![1, 2]);
    t.append_tab(NodeIndex(0), 3);
    t.insert_tab(NodeIndex(0), TabIndex(0), 0);
    assert_eq!(t.get(NodeIndex(0)).unwrap().tabs().unwrap(), &vec![0, 1, 2, 3]);
    assert_eq!(t.remove_tab((NodeIndex(0), TabIndex(2))), Some(2));
    assert_eq!(t.remove_tab((NodeIndex(0), TabIndex(9))), None);
    t.retain_tabs(&|x: &i32| *x != 1);
    assert_eq!(t.get(NodeIndex(0)).unwrap().tabs().unwrap(), &vec![0, 3]);
    assert_eq!(t.find_tab_from(&|x: &i32| *x > 0), Some((NodeIndex(0), TabIndex(1))));
}

#[test]
fn leaf_active_tab_follows_removals() {
    let mut l = LeafNode::new(vec![1, 2, 3]);
    assert_eq!(l.set_active_tab(TabIndex(2)), Ok(()));
    assert_eq!(l.remove_tab(TabIndex(0)), Some(1));
    assert_eq!(l.active, TabIndex(1));
    assert!(l.set_active_tab(TabIndex(5)).is_err());
    l.append_tab(4);
    assert_eq!(l.active, TabIndex(2));
    assert_eq!(l.len(), 3);
}

#[test]
fn window_state_starts_native_and_on_the_bottom() {
    let mut ws = WindowState::default();
    assert!(ws.uses_native_viewport());
    assert!(!ws.is_floating_in_viewport());
    assert!(!ws.is_minimized());
    assert_eq!(ws.floating_z_rank(), 0);
    ws.set_native_viewport(false);
    ws.set_floating_z_rank(3);
    assert!(!ws.uses_native_viewport());
    assert_eq!(ws.floating_z_rank(), 3);
    assert_eq!(ws, {
        let mut w = WindowState::new();
        w.set_native_viewport(false);
        w.set_floating_z_rank(3);
        w
    });
}

#[test]
fn from_nodes_accepts_only_well_formed_trees() {
    let ok = Tree::from_nodes(vec![Node::Horizontal, Node::leaf(1), Node::leaf(2)], Some(NodeIndex(2)));
    assert!(ok.is_some());
    let t = ok.unwrap();
    assert!(t.is_well_formed());
    assert_eq!(t.focused_leaf(), Some(NodeIndex(2)));
    // A parent missing a child.
    assert!(Tree::from_nodes(vec![Node::Vertical, Node::leaf(1)], None).is_none());
    assert!(Tree::from_nodes(vec![Node::Vertical, Node::leaf(1), Node::Empty], None).is_none());
    // A node hanging from a leaf.
    assert!(Tree::from_nodes(vec![Node::leaf(0), Node::leaf(1), Node::Empty], None).is_none());
    // A focus on something that is not a leaf.
    assert!(Tree::from_nodes(vec![Node::Horizontal, Node::leaf(1), Node::leaf(2)], Some(NodeIndex(0))).is_none());
    assert!(Tree::from_nodes(vec![Node::leaf(1)], Some(NodeIndex(3))).is_none());
    assert!(Tree::<i32>::from_nodes(vec![], None).is_some());
}

#[test]
fn into_parts_gives_back_the_nodes() {
    let mut t = Tree::new(vec![1]);
    t.split_below(NodeIndex(0), vec![2]);
    let (nodes, focus) = t.into_parts();
    assert_eq!(nodes.len(), 3);
    assert!(nodes[0].is_vertical());
    assert_eq!(focus, Some(NodeIndex(2)));
    let back = Tree::from_nodes(nodes, focus).unwrap();
    assert_eq!(back.find_tab(&2), Some((NodeIndex(2), TabIndex(0))));
}
