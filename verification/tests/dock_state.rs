use egui_dock::destination::{Split, TabDestination, TabInsert};
use egui_dock::dock_state::DockState;
use egui_dock::error::Error;
use egui_dock::index::{NodeIndex, NodePath, SurfaceIndex, TabIndex, TabPath};
use egui_dock::node::Node;
use egui_dock::surface::Surface;

fn all_tabs<T: Clone>(d: &DockState<T>) -> Vec<T> {
    d.iter_all_tabs().into_iter().map(|(_, t)| t.clone()).collect()
}

#[test]
fn retain_none_then_push() {
    let mut t = DockState::new(vec![]);
    t.push_to_focused_leaf(0);
    let i = t.find_tab(&0).unwrap();
    t.remove_tab(i);
    t.retain_tabs(|_| false);
    t.push_to_focused_leaf(0);
}

#[test]
fn retain_none_then_push_keeps_the_new_tab() {
    let mut t = DockState::new(vec![]);
    t.push_to_focused_leaf(0);
    let i = t.find_tab(&0).unwrap();
    assert_eq!(t.remove_tab(i), Some(0));
    t.retain_tabs(|_| false);
    assert!(all_tabs(&t).is_empty());
    t.push_to_focused_leaf(7);
    assert_eq!(all_tabs(&t), vec![7]);
}

#[test]
fn filter_map_tabs_keeps_odd_tabs_as_strings() {
    let dock_state = DockState::new(vec![1, 2, 3]);
    let mapped = dock_state.filter_map_tabs(|tab: &i32| if tab % 2 == 1 { Some(tab.to_string()) } else { None });
    let tabs: Vec<String> = mapped.iter_all_tabs().into_iter().map(|(_, tab)| tab.to_owned()).collect();
    assert_eq!(tabs, vec!["1".to_string(), "3".to_string()]);
}

#[test]
fn filter_map_tabs_removes_emptied_window() {
    let mut d = DockState::new(vec![1]);
    let w = d.add_window(vec![2, 4]);
    assert_eq!(w, SurfaceIndex(1));
    let mapped = d.filter_map_tabs(|tab: &i32| if tab % 2 == 1 { Some(*tab) } else { None });
    assert_eq!(all_tabs(&mapped), vec![1]);
    assert!(!mapped.is_surface_valid(SurfaceIndex(1)));
}

#[test]
fn map_tabs_maps_every_tab_in_order() {
    let mut d = DockState::new(vec![1, 2]);
    d.add_window(vec![3]);
    let m = d.map_tabs(|t: &i32| t * 10);
    assert_eq!(all_tabs(&m), vec![10, 20, 30]);
}

#[test]
fn filter_tabs_and_retain_tabs_agree() {
    let mut d = DockState::new(vec![1, 2, 3, 4]);
    d.add_window(vec![5, 6]);
    let f = d.filter_tabs(|t: &i32| *t > 2);
    d.retain_tabs(|t: &i32| *t > 2);
    assert_eq!(all_tabs(&f), vec![3, 4, 5, 6]);
    assert_eq!(all_tabs(&d), vec![3, 4, 5, 6]);
}

#[test]
fn find_tab_and_find_tab_from() {
    let mut d = DockState::new(vec!["a", "b"]);
    d.add_window(vec!["c"]);
    assert_eq!(d.find_tab(&"b"), Some(TabPath::new(SurfaceIndex(0), NodeIndex(0), TabIndex(1))));
    assert_eq!(d.find_tab(&"c"), Some(TabPath::new(SurfaceIndex(1), NodeIndex(0), TabIndex(0))));
    assert_eq!(d.find_tab(&"z"), None);
    assert_eq!(d.find_tab_from(|t: &&str| *t != "a"), Some(TabPath::new(SurfaceIndex(0), NodeIndex(0), TabIndex(1))));
    assert_eq!(d.find_main_surface_tab(&"b"), Some((NodeIndex(0), TabIndex(1))));
    assert_eq!(d.find_main_surface_tab(&"c"), None);
}

#[test]
fn node_and_leaf_errors() {
    let mut d = DockState::new(vec![1]);
    assert_eq!(d.node(NodePath::new(SurfaceIndex(3), NodeIndex(0))).err(), Some(Error::InvalidSurface));
    assert_eq!(d.node(NodePath::new(SurfaceIndex(0), NodeIndex(5))).err(), Some(Error::InvalidNode));
    let w = d.add_window(vec![2]);
    d.remove_surface(w);
    d.add_window(vec![3]);
    let w2 = d.add_window(vec![4]);
    d.remove_surface(SurfaceIndex(1));
    assert_eq!(w2, SurfaceIndex(2));
    assert_eq!(d.node(NodePath::new(SurfaceIndex(1), NodeIndex(0))).err(), Some(Error::EmptySurface));
    d.main_surface_mut().split_right(NodeIndex(0), vec![9]);
    assert_eq!(d.leaf(NodePath::new(SurfaceIndex(0), NodeIndex(0))).err(), Some(Error::NonLeafNode));
    assert_eq!(
        d.set_active_tab(TabPath::new(SurfaceIndex(0), NodeIndex(1), TabIndex(4))),
        Err(Error::InvalidTab)
    );
    assert_eq!(d.set_active_tab(TabPath::new(SurfaceIndex(0), NodeIndex(2), TabIndex(0))), Ok(()));
    assert_eq!(d.leaf(NodePath::new(SurfaceIndex(0), NodeIndex(1))).unwrap().tabs, vec![1]);
}

#[test]
fn add_window_reuses_the_first_unused_slot() {
    let mut d = DockState::new(vec![0]);
    let a = d.add_window(vec![1]);
    let b = d.add_window(vec![2]);
    let c = d.add_window(vec![3]);
    assert_eq!((a, b, c), (SurfaceIndex(1), SurfaceIndex(2), SurfaceIndex(3)));
    assert!(d.remove_surface(b).is_some());
    assert_eq!(d.surfaces_count(), 4);
    assert_eq!(d.valid_surface_indices(), vec![SurfaceIndex(0), SurfaceIndex(1), SurfaceIndex(3)]);
    assert_eq!(d.add_window(vec![4]), SurfaceIndex(2));
    assert!(d.remove_surface(SurfaceIndex(3)).is_some());
    assert_eq!(d.surfaces_count(), 3);
    assert!(d.remove_surface(SurfaceIndex(9)).is_none());
    assert_eq!(d.focused_surface(), Some(SurfaceIndex(0)));
}

#[test]
fn move_tab_between_nodes_keeps_every_tab() {
    let mut d = DockState::new(vec![1, 2, 3]);
    let [_, new] = d.split(NodePath::new(SurfaceIndex(0), NodeIndex(0)), Split::Right, Node::leaf(4));
    assert_eq!(new, NodeIndex(2));
    d.move_tab::<()>(
        TabPath::new(SurfaceIndex(0), NodeIndex(1), TabIndex(0)),
        TabDestination::Node(NodePath::new(SurfaceIndex(0), NodeIndex(2)), TabInsert::Insert(TabIndex(0))),
    );
    assert_eq!(d.leaf(NodePath::new(SurfaceIndex(0), NodeIndex(2))).unwrap().tabs, vec![1, 4]);
    assert_eq!(d.leaf(NodePath::new(SurfaceIndex(0), NodeIndex(1))).unwrap().tabs, vec![2, 3]);
    let mut tabs = all_tabs(&d);
    tabs.sort();
    assert_eq!(tabs, vec![1, 2, 3, 4]);
}

#[test]
fn move_tab_into_window_and_back() {
    let mut d = DockState::new(vec!["a", "b"]);
    d.move_tab(TabPath::new(SurfaceIndex(0), NodeIndex(0), TabIndex(1)), TabDestination::Window((10, 20)));
    assert!(d.is_surface_valid(SurfaceIndex(1)));
    assert_eq!(d.index(SurfaceIndex(1)).get(NodeIndex(0)).unwrap().tabs().unwrap(), &vec!["b"]);
    d.move_tab::<()>(
        TabPath::new(SurfaceIndex(1), NodeIndex(0), TabIndex(0)),
        TabDestination::Node(NodePath::new(SurfaceIndex(0), NodeIndex(0)), TabInsert::Append),
    );
    assert!(!d.is_surface_valid(SurfaceIndex(1)));
    assert_eq!(all_tabs(&d), vec!["a", "b"]);
}

#[test]
fn moving_the_only_tab_onto_its_own_leaf_changes_nothing() {
    let mut d = DockState::new(vec![1]);
    d.main_surface_mut().split_below(NodeIndex(0), vec![2]);
    d.move_tab::<()>(
        TabPath::new(SurfaceIndex(0), NodeIndex(2), TabIndex(0)),
        TabDestination::Node(NodePath::new(SurfaceIndex(0), NodeIndex(2)), TabInsert::Append),
    );
    assert_eq!(d.leaf(NodePath::new(SurfaceIndex(0), NodeIndex(2))).unwrap().tabs, vec![2]);
    assert!(d.node(NodePath::new(SurfaceIndex(0), NodeIndex(0))).unwrap().is_vertical());
}

#[test]
fn detach_tab_makes_a_fresh_native_window() {
    let mut d = DockState::new(vec![1, 2]);
    let w = d.detach_tab(TabPath::new(SurfaceIndex(0), NodeIndex(0), TabIndex(0)));
    assert_eq!(w, SurfaceIndex(1));
    let ws = d.get_window_state(w).unwrap();
    assert!(ws.uses_native_viewport());
    assert!(!ws.is_floating_in_viewport());
    assert_eq!(ws.floating_z_rank(), 0);
    assert_eq!(all_tabs(&d), vec![2, 1]);
    assert!(d.get_window_state(SurfaceIndex(0)).is_none());
}

#[test]
fn removing_the_last_tab_of_a_window_removes_the_window() {
    let mut d = DockState::new(vec![1]);
    let w = d.add_window(vec![2]);
    assert_eq!(d.remove_tab(TabPath::new(w, NodeIndex(0), TabIndex(0))), Some(2));
    assert_eq!(d.remove_tab(TabPath::new(w, NodeIndex(0), TabIndex(0))), None);
}

#[test]
fn push_to_focused_leaf_follows_the_focus() {
    let mut d = DockState::new(vec![1]);
    d.main_surface_mut().split_right(NodeIndex(0), vec![2]);
    d.set_focused_node_and_surface(NodePath::new(SurfaceIndex(0), NodeIndex(1)));
    assert_eq!(d.focused_leaf(), Some(NodePath::new(SurfaceIndex(0), NodeIndex(1))));
    d.push_to_focused_leaf(3);
    assert_eq!(d.leaf(NodePath::new(SurfaceIndex(0), NodeIndex(1))).unwrap().tabs, vec![1, 3]);
    d.push_to_first_leaf(4);
    assert_eq!(d.leaf(NodePath::new(SurfaceIndex(0), NodeIndex(1))).unwrap().tabs, vec![1, 3, 4]);
}

#[test]
fn remove_leaf_lifts_the_sibling() {
    let mut d = DockState::new(vec![1]);
    d.main_surface_mut().split_right(NodeIndex(0), vec![2]);
    d.main_surface_mut().split_below(NodeIndex(2), vec![3]);
    d.remove_leaf(NodePath::new(SurfaceIndex(0), NodeIndex(1)));
    assert!(d.node(NodePath::new(SurfaceIndex(0), NodeIndex(0))).unwrap().is_vertical());
    assert_eq!(d.leaf(NodePath::new(SurfaceIndex(0), NodeIndex(1))).unwrap().tabs, vec![2]);
    assert_eq!(d.leaf(NodePath::new(SurfaceIndex(0), NodeIndex(2))).unwrap().tabs, vec![3]);
    assert_eq!(all_tabs(&d), vec![2, 3]);
}

#[test]
fn iterators_walk_surfaces_nodes_and_tabs_in_order() {
    let mut d = DockState::new(vec![1, 2]);
    d.main_surface_mut().split_right(NodeIndex(0), vec![3]);
    d.add_window(vec![4]);
    assert_eq!(d.iter_surfaces().len(), 2);
    let idx: Vec<SurfaceIndex> = d.iter_surfaces_indexed().into_iter().map(|(i, _)| i).collect();
    assert_eq!(idx, vec![SurfaceIndex(0), SurfaceIndex(1)]);
    let paths: Vec<NodePath> = d.iter_all_nodes().into_iter().map(|(p, _)| p).collect();
    assert_eq!(
        paths,
        vec![
            NodePath::new(SurfaceIndex(0), NodeIndex(0)),
            NodePath::new(SurfaceIndex(0), NodeIndex(1)),
            NodePath::new(SurfaceIndex(0), NodeIndex(2)),
            NodePath::new(SurfaceIndex(1), NodeIndex(0)),
        ]
    );
    assert_eq!(d.iter_nodes().len(), 4);
    assert_eq!(d.iter_main_surface_nodes().len(), 3);
    let leaves: Vec<NodePath> = d.iter_leaves().into_iter().map(|(p, _)| p).collect();
    assert_eq!(
        leaves,
        vec![
            NodePath::new(SurfaceIndex(0), NodeIndex(1)),
            NodePath::new(SurfaceIndex(0), NodeIndex(2)),
            NodePath::new(SurfaceIndex(1), NodeIndex(0)),
        ]
    );
    let tabs: Vec<(TabPath, i32)> = d.iter_all_tabs().into_iter().map(|(p, t)| (p, *t)).collect();
    assert_eq!(
        tabs,
        vec![
            (TabPath::new(SurfaceIndex(0), NodeIndex(1), TabIndex(0)), 1),
            (TabPath::new(SurfaceIndex(0), NodeIndex(1), TabIndex(1)), 2),
            (TabPath::new(SurfaceIndex(0), NodeIndex(2), TabIndex(0)), 3),
            (TabPath::new(SurfaceIndex(1), NodeIndex(0), TabIndex(0)), 4),
        ]
    );
}

#[test]
fn surfaces_and_window_states() {
    let mut d = DockState::new(vec![1]);
    let w = d.add_window(vec![2]);
    d.get_window_state_mut(w).unwrap().set_minimized(true);
    assert!(d.get_window_state(w).unwrap().is_minimized());
    assert!(matches!(d.get_surface(SurfaceIndex(0)), Some(Surface::Main(_))));
    assert!(matches!(d.get_surface(w), Some(Surface::Window(_, _))));
    assert!(d.get_surface(SurfaceIndex(5)).is_none());
    assert!(d.get_window_state_mut(SurfaceIndex(0)).is_none());
    assert_eq!(d.index_node(NodePath::new(w, NodeIndex(0))).tabs_count(), 1);
    d.index_node_mut(NodePath::new(w, NodeIndex(0))).append_tab(3);
    assert_eq!(d.leaf(NodePath::new(w, NodeIndex(0))).unwrap().tabs, vec![2, 3]);
}

#[test]
fn ensure_tree_fills_an_unused_slot() {
    let mut d = DockState::new(vec![1]);
    d.add_window(vec![2]);
    d.add_window(vec![3]);
    d.remove_surface(SurfaceIndex(1));
    assert!(!d.is_surface_valid(SurfaceIndex(1)));
    d.ensure_tree(SurfaceIndex(1));
    assert!(d.is_surface_valid(SurfaceIndex(1)));
    assert_eq!(d.index(SurfaceIndex(1)).len(), 1);
    assert_eq!(d.add_window(vec![4]), SurfaceIndex(3));
}

#[test]
fn translations_default_to_english() {
    let d = DockState::new(vec![1]);
    assert_eq!(d.translations.tab_context_menu.close_button, "Close");
    assert_eq!(d.translations.leaf.minimize_button, "Minimize window");
}

#[test]
fn mutable_iterators_write_through() {
    let mut d = DockState::new(vec![1, 2]);
    d.main_surface_mut().split_right(NodeIndex(0), vec![3]);
    d.add_window(vec![4]);
    for (_, tab) in d.iter_all_tabs_mut() {
        *tab *= 10;
    }
    assert_eq!(all_tabs(&d), vec![10, 20, 30, 40]);
    for (path, leaf) in d.iter_leaves_mut() {
        if path == NodePath::new(SurfaceIndex(0), NodeIndex(2)) {
            leaf.tabs.push(31);
        }
    }
    assert_eq!(all_tabs(&d), vec![10, 20, 30, 31, 40]);
    let paths: Vec<NodePath> = d.iter_all_nodes_mut().into_iter().map(|(p, _)| p).collect();
    assert_eq!(paths.len(), 4);
    assert_eq!(d.iter_main_surface_nodes_mut().len(), 3);
    let kinds: Vec<bool> = d.iter_surfaces_mut().into_iter().map(|s| s.is_empty()).collect();
    assert_eq!(kinds, vec![false, false]);
    let idx: Vec<SurfaceIndex> = d.iter_surfaces_mut_indexed().into_iter().map(|(i, _)| i).collect();
    assert_eq!(idx, vec![SurfaceIndex(0), SurfaceIndex(1)]);
}

#[test]
fn from_parts_checks_the_surfaces() {
    let mut d = DockState::new(vec![1]);
    d.add_window(vec![2]);
    assert!(d.is_well_formed());
    let (surfaces, focus, translations) = d.into_parts();
    assert_eq!(surfaces.len(), 2);
    let back = DockState::from_parts(surfaces, focus, translations.clone());
    assert!(back.is_some());
    assert_eq!(all_tabs(&back.unwrap()), vec![1, 2]);
    assert!(DockState::<i32>::from_parts(vec![], None, translations.clone()).is_none());
    assert!(DockState::<i32>::from_parts(vec![Surface::Empty], None, translations.clone()).is_none());
    let mut broken = DockState::new(vec![1]);
    *broken.main_surface_mut().get_mut(NodeIndex(0)).unwrap() = Node::Vertical;
    assert!(!broken.is_well_formed());
    let (surfaces, focus, translations) = broken.into_parts();
    assert!(DockState::from_parts(surfaces, focus, translations).is_none());
}

#[test]
fn reordering_within_a_leaf_clamps_the_index() {
    let mut d = DockState::new(vec![1, 2, 3]);
    d.move_tab::<()>(
        TabPath::new(SurfaceIndex(0), NodeIndex(0), TabIndex(0)),
        TabDestination::Node(NodePath::new(SurfaceIndex(0), NodeIndex(0)), TabInsert::Insert(TabIndex(9))),
    );
    assert_eq!(d.leaf(NodePath::new(SurfaceIndex(0), NodeIndex(0))).unwrap().tabs, vec![2, 3, 1]);
    d.move_tab::<()>(
        TabPath::new(SurfaceIndex(0), NodeIndex(0), TabIndex(2)),
        TabDestination::Node(NodePath::new(SurfaceIndex(0), NodeIndex(0)), TabInsert::Split(Split::Above)),
    );
    assert!(d.node(NodePath::new(SurfaceIndex(0), NodeIndex(0))).unwrap().is_vertical());
    assert_eq!(d.leaf(NodePath::new(SurfaceIndex(0), NodeIndex(1))).unwrap().tabs, vec![1]);
    assert_eq!(d.leaf(NodePath::new(SurfaceIndex(0), NodeIndex(2))).unwrap().tabs, vec![2, 3]);
}

#[test]
fn map_tabs_doc_example() {
    let dock_state = DockState::new(vec![1, 2, 3]);
    let mapped_dock_state = dock_state.map_tabs(|tab: &i32| tab.to_string());
    let tabs: Vec<String> = mapped_dock_state.iter_all_tabs().into_iter().map(|(_, tab)| tab.to_owned()).collect();
    assert_eq!(tabs, vec!["1".to_string(), "2".to_string(), "3".to_string()]);
}

#[test]
fn filter_tabs_doc_example() {
    let dock_state = DockState::new(["tab1", "tab2", "outlier"].map(str::to_string).to_vec());
    let filtered_dock_state = dock_state.filter_tabs(|tab: &String| tab.starts_with("tab"));
    let tabs: Vec<String> = filtered_dock_state.iter_all_tabs().into_iter().map(|(_, tab)| tab.to_owned()).collect();
    assert_eq!(tabs, vec!["tab1".to_string(), "tab2".to_string()]);
}

#[test]
fn retain_tabs_doc_example() {
    let mut dock_state = DockState::new(["tab1", "tab2", "outlier"].map(str::to_string).to_vec());
    dock_state.retain_tabs(|tab: &String| tab.starts_with("tab"));
    let tabs: Vec<String> = dock_state.iter_all_tabs().into_iter().map(|(_, tab)| tab.to_owned()).collect();
    assert_eq!(tabs, vec!["tab1".to_string(), "tab2".to_string()]);
}

#[test]
fn filtering_drops_unused_slots_but_retaining_keeps_the_main_surface() {
    let mut d = DockState::new(vec![1]);
    d.add_window(vec![2]);
    d.add_window(vec![3]);
    d.remove_surface(SurfaceIndex(1));
    assert_eq!(d.surfaces_count(), 3);
    let f = d.filter_map_tabs(|t: &i32| Some(*t));
    assert_eq!(f.surfaces_count(), 2);
    assert_eq!(all_tabs(&f), vec![1, 3]);
    d.retain_tabs(|t: &i32| *t != 1);
    assert_eq!(d.surfaces_count(), 3);
    assert!(d.main_surface().is_empty());
    assert!(!d.is_surface_valid(SurfaceIndex(1)));
    assert!(d.is_surface_valid(SurfaceIndex(2)));
    assert_eq!(all_tabs(&d), vec![3]);
}

#[test]
fn retain_tabs_keeps_the_index_of_a_live_window() {
    let mut s = DockState::new(vec![1]);
    let a = s.add_window(vec![2]);
    let b = s.add_window(vec![3]);
    assert_eq!(a, SurfaceIndex(1));
    assert_eq!(b, SurfaceIndex(2));
    s.retain_tabs(|t: &i32| *t != 2);
    assert!(!s.is_surface_valid(a));
    assert_eq!(s.find_tab(&3), Some(TabPath::new(b, NodeIndex::root(), TabIndex(0))));
    assert_eq!(all_tabs(&s), vec![1, 3]);
}

#[test]
fn moving_the_only_tab_of_a_root_leaf_onto_itself_keeps_the_dock() {
    let mut s = DockState::new(vec![1]);
    s.set_focused_node_and_surface(NodePath::new(SurfaceIndex(0), NodeIndex(0)));
    let focus = s.focused_surface();
    s.move_tab::<()>(
        TabPath::new(SurfaceIndex::main(), NodeIndex::root(), TabIndex(0)),
        TabDestination::Node(NodePath::new(SurfaceIndex::main(), NodeIndex::root()), TabInsert::Split(Split::Right)),
    );
    assert_eq!(s.surfaces_count(), 1);
    assert_eq!(s.main_surface().len(), 1);
    assert_eq!(s.leaf(NodePath::new(SurfaceIndex(0), NodeIndex(0))).unwrap().tabs, vec![1]);
    assert_eq!(s.focused_surface(), focus);
}

#[test]
fn moving_the_last_tab_of_a_leaf_removes_that_leaf() {
    let mut d = DockState::new(vec![1, 2]);
    d.split(NodePath::new(SurfaceIndex(0), NodeIndex(0)), Split::Right, Node::leaf(3));
    d.move_tab::<()>(
        TabPath::new(SurfaceIndex(0), NodeIndex(2), TabIndex(0)),
        TabDestination::Node(NodePath::new(SurfaceIndex(0), NodeIndex(1)), TabInsert::Append),
    );
    assert_eq!(d.leaf(NodePath::new(SurfaceIndex(0), NodeIndex(0))).unwrap().tabs, vec![1, 2, 3]);
    assert_eq!(d.surfaces_count(), 1);
}

#[test]
fn moving_the_last_tab_of_a_window_frees_its_slot() {
    let mut d = DockState::new(vec![1]);
    let w = d.add_window(vec![2]);
    let x = d.add_window(vec![3]);
    d.move_tab::<()>(
        TabPath::new(w, NodeIndex(0), TabIndex(0)),
        TabDestination::Node(NodePath::new(x, NodeIndex(0)), TabInsert::Append),
    );
    assert!(!d.is_surface_valid(w));
    assert_eq!(d.surfaces_count(), 3);
    assert_eq!(d.focused_surface(), Some(SurfaceIndex::main()));
    assert_eq!(d.leaf(NodePath::new(x, NodeIndex(0))).unwrap().tabs, vec![3, 2]);
}

#[test]
fn detaching_the_last_tab_of_a_window_frees_its_slot() {
    let mut d = DockState::new(vec![1]);
    let w = d.add_window(vec![2]);
    let n = d.detach_tab(TabPath::new(w, NodeIndex(0), TabIndex(0)));
    assert_eq!(n, SurfaceIndex(2));
    assert!(!d.is_surface_valid(w));
    assert_eq!(d.surfaces_count(), 3);
    assert_eq!(d.focused_surface(), Some(SurfaceIndex::main()));
    assert_eq!(d.find_tab(&2), Some(TabPath::new(n, NodeIndex(0), TabIndex(0))));
}

#[test]
fn pushing_rebuilds_an_unused_main_surface() {
    let mut d = DockState::new(vec![1]);
    *d.get_surface_mut(SurfaceIndex::main()).unwrap() = Surface::Empty;
    assert!(!d.is_surface_valid(SurfaceIndex::main()));
    d.push_to_first_leaf(5);
    assert!(d.is_surface_valid(SurfaceIndex::main()));
    assert!(d.find_main_surface_tab(&5).is_some());
    assert_eq!(all_tabs(&d), vec![5]);
}

#[test]
fn moving_into_the_emptied_main_tree_keeps_it_main() {
    let mut d = DockState::new(vec![1]);
    let w = d.add_window(vec![2]);
    d.retain_tabs(|t: &i32| *t != 1);
    assert!(d.main_surface().is_empty());
    d.move_tab::<()>(TabPath::new(w, NodeIndex(0), TabIndex(0)), TabDestination::EmptySurface(SurfaceIndex::main()));
    assert!(matches!(d.get_surface(SurfaceIndex::main()), Some(Surface::Main(_))));
    assert_eq!(d.main_surface().len(), 1);
    assert_eq!(d.surfaces_count(), 1);
    assert_eq!(all_tabs(&d), vec![2]);
}

#[test]
fn the_active_tab_of_the_focused_leaf() {
    let mut d = DockState::new(vec![1, 2]);
    assert_eq!(d.find_active_focused(), None);
    d.set_focused_node_and_surface(NodePath::new(SurfaceIndex(0), NodeIndex(0)));
    assert_eq!(d.find_active_focused(), Some(TabPath::new(SurfaceIndex(0), NodeIndex(0), TabIndex(0))));
    d.set_active_tab(TabPath::new(SurfaceIndex(0), NodeIndex(0), TabIndex(1))).unwrap();
    assert_eq!(d.find_active_focused(), Some(TabPath::new(SurfaceIndex(0), NodeIndex(0), TabIndex(1))));
    let w = d.add_window(vec![3]);
    d.set_focused_node_and_surface(NodePath::new(w, NodeIndex(0)));
    assert_eq!(d.find_active_focused(), Some(TabPath::new(w, NodeIndex(0), TabIndex(0))));
}

#[test]
fn moving_tabs_leaves_no_leaf_without_tabs() {
    let mut d = DockState::new(vec![1, 2]);
    d.split(NodePath::new(SurfaceIndex(0), NodeIndex(0)), Split::Right, Node::leaf(3));
    let w = d.add_window(vec![4]);
    let mut before = all_tabs(&d);
    before.sort();
    d.move_tab::<()>(
        TabPath::new(SurfaceIndex(0), NodeIndex(2), TabIndex(0)),
        TabDestination::Node(NodePath::new(w, NodeIndex(0)), TabInsert::Split(Split::Below)),
    );
    d.move_tab::<()>(
        TabPath::new(SurfaceIndex(0), NodeIndex(0), TabIndex(1)),
        TabDestination::Node(NodePath::new(w, NodeIndex(2)), TabInsert::Append),
    );
    d.move_tab(TabPath::new(w, NodeIndex(1), TabIndex(0)), TabDestination::Window(()));
    for (_, leaf) in d.iter_leaves() {
        assert!(!leaf.tabs.is_empty());
    }
    let mut after = all_tabs(&d);
    after.sort();
    assert_eq!(before, after);
}
