use egui_dock::destination::TabDestination;
use egui_dock::dock_state::DockState;
use egui_dock::drag_and_drop::WindowDropKind;
use egui_dock::floating::{
    cross_viewport_drop_action, pending_drop_action, release_destination, CrossDropAction, GhostDragMode, PendingAction,
    PendingDrop,
};
use egui_dock::index::{NodeIndex, NodePath, SurfaceIndex, TabIndex, TabPath};

fn dock_with_ranks(ranks: &[u32]) -> DockState<u32> {
    let mut d = DockState::new(vec![0]);
    for (k, r) in ranks.iter().enumerate() {
        let w = d.add_window(vec![k as u32 + 1]);
        let ws = d.get_window_state_mut(w).unwrap();
        ws.set_floating_in_viewport(true);
        ws.set_floating_z_rank(*r);
    }
    d
}

#[test]
fn sort_orders_by_rank_and_keeps_ties_in_place() {
    let d = dock_with_ranks(&[5, 1, 5, 0]);
    let mut s = vec![SurfaceIndex(3), SurfaceIndex(1), SurfaceIndex(0), SurfaceIndex(2), SurfaceIndex(4)];
    d.sort_contained_floating_surfaces(&mut s);
    assert_eq!(s, vec![SurfaceIndex(0), SurfaceIndex(4), SurfaceIndex(2), SurfaceIndex(3), SurfaceIndex(1)]);
}

#[test]
fn sort_of_nothing_is_nothing() {
    let d = dock_with_ranks(&[]);
    let mut s: Vec<SurfaceIndex> = vec![];
    d.sort_contained_floating_surfaces(&mut s);
    assert!(s.is_empty());
}

#[test]
fn bring_to_front_goes_one_above_the_highest_panel_of_its_viewport() {
    let mut d = dock_with_ranks(&[3, 8, 1]);
    // Surface 2 (rank 8) is shown in another viewport.
    let same_host = vec![true, true, false, true];
    d.bring_contained_floating_to_front(SurfaceIndex(3), &same_host);
    assert_eq!(d.get_window_state(SurfaceIndex(3)).unwrap().floating_z_rank(), 4);
    let all = vec![true; 4];
    d.bring_contained_floating_to_front(SurfaceIndex(1), &all);
    assert_eq!(d.get_window_state(SurfaceIndex(1)).unwrap().floating_z_rank(), 9);
}

#[test]
fn bring_to_front_saturates_at_the_highest_rank() {
    let mut d = dock_with_ranks(&[u32::MAX, 0]);
    d.bring_contained_floating_to_front(SurfaceIndex(2), &vec![true; 3]);
    assert_eq!(d.get_window_state(SurfaceIndex(2)).unwrap().floating_z_rank(), u32::MAX);
}

#[test]
fn bring_to_front_ignores_non_floating_windows_and_the_main_surface() {
    let mut d = dock_with_ranks(&[2]);
    let w = d.add_window(vec![9]);
    d.get_window_state_mut(w).unwrap().set_floating_z_rank(50);
    d.bring_contained_floating_to_front(SurfaceIndex(1), &vec![true; 3]);
    assert_eq!(d.get_window_state(SurfaceIndex(1)).unwrap().floating_z_rank(), 3);
    // The main surface has no window state: nothing changes.
    d.bring_contained_floating_to_front(SurfaceIndex(0), &vec![true; 3]);
    assert_eq!(d.get_window_state(SurfaceIndex(1)).unwrap().floating_z_rank(), 3);
}

#[test]
fn window_surface_tab_count_sums_all_leaves() {
    let mut d = DockState::new(vec![1]);
    let w = d.add_window(vec![2, 3]);
    d.index_mut(w).split_below(NodeIndex(0), vec![4, 5, 6]);
    assert_eq!(d.window_surface_tab_count(w), 5);
    assert_eq!(d.window_surface_tab_count(SurfaceIndex(0)), 1);
}

#[test]
fn window_title_leaf_prefers_the_focus() {
    let mut d = DockState::new(vec![1]);
    let w = d.add_window(vec![2]);
    assert_eq!(d.window_title_leaf(w), NodeIndex(0));
    d.index_mut(w).split_right(NodeIndex(0), vec![3]);
    assert_eq!(d.window_title_leaf(w), NodeIndex(2));
    d.set_focused_node_and_surface(NodePath::new(w, NodeIndex(1)));
    assert_eq!(d.window_title_leaf(w), NodeIndex(1));
}

#[test]
fn apply_window_drop_sets_the_kind_of_window() {
    let mut d = DockState::new(vec![1, 2, 3]);
    let a = d.apply_window_drop(TabPath::new(SurfaceIndex(0), NodeIndex(0), TabIndex(0)), WindowDropKind::FloatingPanel);
    let b = d.apply_window_drop(TabPath::new(SurfaceIndex(0), NodeIndex(0), TabIndex(0)), WindowDropKind::ContainedWindow);
    let c = d.apply_window_drop(TabPath::new(SurfaceIndex(0), NodeIndex(0), TabIndex(0)), WindowDropKind::NativeWindow);
    assert_eq!((a, b, c), (SurfaceIndex(1), SurfaceIndex(2), SurfaceIndex(3)));
    let wa = *d.get_window_state(a).unwrap();
    assert!(wa.is_floating_in_viewport() && wa.uses_native_viewport());
    let wb = *d.get_window_state(b).unwrap();
    assert!(!wb.is_floating_in_viewport() && !wb.uses_native_viewport());
    let wc = *d.get_window_state(c).unwrap();
    assert!(!wc.is_floating_in_viewport() && wc.uses_native_viewport());
    assert_eq!(d.leaf(NodePath::new(c, NodeIndex(0))).unwrap().tabs, vec![3]);
    assert!(d.main_surface().is_empty());
}

#[test]
fn pending_drops_and_ghost_modes_are_plain_values() {
    let p: PendingDrop<u8> = PendingDrop::Tab { destination: Some(TabDestination::Window(4)) };
    assert_eq!(p, PendingDrop::Tab { destination: Some(TabDestination::Window(4)) });
    let q: PendingDrop<u8> = PendingDrop::CrossViewport { fallback_destination: None };
    assert_ne!(p, q);
    assert_ne!(GhostDragMode::Native, GhostDragMode::ContainedFloating);
}

#[test]
fn contained_floating_surfaces_filters_then_stacks() {
    let mut d = dock_with_ranks(&[4, 2, 9]);
    // Surface 4 is a window that does not float.
    d.add_window(vec![7]);
    let same_host = vec![true, true, true, false, true];
    assert_eq!(d.contained_floating_surfaces(&same_host), vec![SurfaceIndex(2), SurfaceIndex(1)]);
    assert_eq!(d.contained_floating_surfaces(&vec![true; 5]), vec![SurfaceIndex(2), SurfaceIndex(1), SurfaceIndex(3)]);
}

#[test]
fn cross_viewport_and_pending_actions() {
    assert_eq!(cross_viewport_drop_action(false, true, true, true, None, true, true, true), CrossDropAction::Nothing);
    assert_eq!(cross_viewport_drop_action(true, false, true, true, None, true, true, true), CrossDropAction::ReturnPayload);
    assert_eq!(cross_viewport_drop_action(true, true, false, true, None, true, true, true), CrossDropAction::Nothing);
    assert_eq!(cross_viewport_drop_action(true, true, true, false, None, true, true, true), CrossDropAction::Move);
    assert_eq!(
        cross_viewport_drop_action(true, true, true, true, Some(GhostDragMode::ContainedFloating), true, true, true),
        CrossDropAction::FinalizeContainedGhost
    );
    assert_eq!(
        cross_viewport_drop_action(true, true, true, true, Some(GhostDragMode::Native), false, false, false),
        CrossDropAction::PlaceNativeGhost
    );
    assert_eq!(
        cross_viewport_drop_action(true, true, true, true, None, false, true, true),
        CrossDropAction::NewWindow(WindowDropKind::ContainedWindow)
    );
    let dest = Some(TabDestination::Window(1u8));
    assert_eq!(pending_drop_action(PendingDrop::Tab { destination: dest }, false, false), PendingAction::Nothing);
    assert_eq!(pending_drop_action(PendingDrop::Tab { destination: None::<TabDestination<u8>> }, true, true), PendingAction::FinalizeContainedGhost);
    assert_eq!(pending_drop_action(PendingDrop::Tab { destination: dest }, true, true), PendingAction::ApplyTabDrop(dest));
    assert_eq!(
        pending_drop_action(PendingDrop::CrossViewport { fallback_destination: dest }, false, false),
        PendingAction::ResolveCrossViewport(dest)
    );
    assert_eq!(release_destination(None, true, true, true, 5u8), Some(TabDestination::Window(5)));
    assert_eq!(release_destination(None, true, false, true, 5u8), None);
    assert_eq!(release_destination(dest, false, true, true, 5u8), dest);
}
