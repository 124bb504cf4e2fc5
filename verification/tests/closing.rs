use egui_dock::closing::{closes_all, CloseResponse};
use egui_dock::dock_state::DockState;
use egui_dock::index::{NodeIndex, NodePath, SurfaceIndex, TabIndex, TabPath};
use egui_dock::destination::Split;
use egui_dock::node::Node;

fn all_tabs<T: Clone>(d: &DockState<T>) -> Vec<T> {
    d.iter_all_tabs().into_iter().map(|(_, t)| t.clone()).collect()
}

#[test]
fn every_tab_must_agree_to_close() {
    assert!(closes_all(&vec![]));
    assert!(closes_all(&vec![(true, CloseResponse::Close), (true, CloseResponse::Close)]));
    assert!(!closes_all(&vec![(true, CloseResponse::Close), (false, CloseResponse::Close)]));
    assert!(!closes_all(&vec![(true, CloseResponse::Focus)]));
    assert!(!closes_all(&vec![(true, CloseResponse::Ignore), (true, CloseResponse::Close)]));
}

#[test]
fn closing_a_tab_follows_the_answer() {
    let mut d = DockState::new(vec![1, 2, 3]);
    let p = TabPath::new(SurfaceIndex(0), NodeIndex(0), TabIndex(1));
    assert_eq!(d.close_tab(p, false, CloseResponse::Ignore), None);
    assert_eq!(all_tabs(&d), vec![1, 2, 3]);
    assert_eq!(d.close_tab(p, false, CloseResponse::Focus), Some(NodePath::new(SurfaceIndex(0), NodeIndex(0))));
    assert_eq!(d.leaf(NodePath::new(SurfaceIndex(0), NodeIndex(0))).unwrap().active, TabIndex(1));
    assert_eq!(all_tabs(&d), vec![1, 2, 3]);
    assert_eq!(d.close_tab(p, false, CloseResponse::Close), None);
    assert_eq!(all_tabs(&d), vec![1, 3]);
    assert_eq!(d.close_tab(p, true, CloseResponse::Ignore), None);
    assert_eq!(all_tabs(&d), vec![1]);
}

#[test]
fn closing_the_last_tab_of_a_window_removes_it() {
    let mut d = DockState::new(vec![1]);
    let w = d.add_window(vec![2]);
    d.close_tab(TabPath::new(w, NodeIndex(0), TabIndex(0)), false, CloseResponse::Close);
    assert!(!d.is_surface_valid(w));
    assert_eq!(d.focused_surface(), Some(SurfaceIndex::main()));
}

#[test]
fn a_leaf_closes_only_when_all_agree() {
    let mut d = DockState::new(vec![1]);
    d.split(NodePath::new(SurfaceIndex(0), NodeIndex(0)), Split::Below, Node::leaf(2));
    let leaf = NodePath::new(SurfaceIndex(0), NodeIndex(2));
    assert!(!d.close_leaf(leaf, false));
    assert_eq!(all_tabs(&d), vec![1, 2]);
    assert!(d.close_leaf(leaf, true));
    assert_eq!(all_tabs(&d), vec![1]);
    assert_eq!(d.leaf(NodePath::new(SurfaceIndex(0), NodeIndex(0))).unwrap().tabs, vec![1]);
}

#[test]
fn a_window_closes_only_when_all_agree() {
    let mut d = DockState::new(vec![1]);
    let w = d.add_window(vec![2]);
    let x = d.add_window(vec![3]);
    assert!(!d.close_window(w, false));
    assert!(d.is_surface_valid(w));
    assert!(d.close_window(w, true));
    assert!(!d.is_surface_valid(w));
    assert_eq!(d.surfaces_count(), 3);
    assert!(d.close_window(x, true));
    assert_eq!(d.surfaces_count(), 2);
    assert_eq!(all_tabs(&d), vec![1]);
}
