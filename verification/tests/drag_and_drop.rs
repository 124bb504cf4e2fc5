use egui_dock::destination::{Split, TabDestination, TabInsert};
use egui_dock::dock_state::DockState;
use egui_dock::drag_and_drop::{
    icon_destination, lock_step, traditional_destination, window_drop_kind, AllowedSplits, LockState, LockStep,
    PointerRegion, Sign, SplitButtons, TraditionalDrop, TreeComponent, WindowDropKind,
};
use egui_dock::index::{NodeIndex, NodePath, SurfaceIndex, TabIndex, TabPath};

fn node(s: usize, n: usize) -> NodePath {
    NodePath::new(SurfaceIndex(s), NodeIndex(n))
}

fn edge(x: Sign, y: Sign, d1: bool, d2: bool) -> PointerRegion {
    PointerRegion::Edge { x, y, x_minus_y_positive: d1, minus_x_minus_y_positive: d2 }
}

const NO_BUTTONS: SplitButtons = SplitButtons { below: false, right: false, above: false, left: false };

#[test]
fn tree_component_addresses() {
    let t = TreeComponent::Tab(TabPath::new(SurfaceIndex(2), NodeIndex(3), TabIndex(4)));
    assert_eq!(t.as_tab_destination::<()>(), TabDestination::Node(node(2, 3), TabInsert::Insert(TabIndex(4))));
    assert_eq!(t.node_address(), (SurfaceIndex(2), Some(NodeIndex(3))));
    assert_eq!(t.surface_address(), SurfaceIndex(2));
    assert!(!t.is_surface());
    let n = TreeComponent::Node(node(1, 5));
    assert_eq!(n.as_tab_destination::<()>(), TabDestination::Node(node(1, 5), TabInsert::Append));
    let s = TreeComponent::Surface(SurfaceIndex(7));
    assert_eq!(s.as_tab_destination::<()>(), TabDestination::EmptySurface(SurfaceIndex(7)));
    assert_eq!(s.node_address(), (SurfaceIndex(7), None));
    assert!(s.is_surface());
}

#[test]
fn allowed_splits_intersect_and_offer() {
    assert_eq!(AllowedSplits::All.intersect(AllowedSplits::LeftRightOnly), AllowedSplits::LeftRightOnly);
    assert_eq!(AllowedSplits::TopBottomOnly.intersect(AllowedSplits::All), AllowedSplits::TopBottomOnly);
    assert_eq!(AllowedSplits::LeftRightOnly.intersect(AllowedSplits::TopBottomOnly), AllowedSplits::NoSplit);
    assert_eq!(AllowedSplits::NoSplit.intersect(AllowedSplits::All), AllowedSplits::NoSplit);
    assert_eq!(AllowedSplits::All.offered_splits(), vec![Split::Below, Split::Right, Split::Above, Split::Left]);
    assert_eq!(AllowedSplits::LeftRightOnly.offered_splits(), vec![Split::Right, Split::Left]);
    assert_eq!(AllowedSplits::TopBottomOnly.offered_splits(), vec![Split::Below, Split::Above]);
    assert!(AllowedSplits::NoSplit.offered_splits().is_empty());
    assert!(AllowedSplits::TopBottomOnly.allows(Split::Above));
    assert!(!AllowedSplits::TopBottomOnly.allows(Split::Left));
}

#[test]
fn traditional_center_appends_and_edges_split() {
    let hover = TreeComponent::Node(node(0, 1));
    let center = traditional_destination(hover, false, false, PointerRegion::Center, AllowedSplits::All, true, true, 9);
    assert_eq!(
        center,
        TraditionalDrop {
            destination: Some(TabDestination::Node(node(0, 1), TabInsert::Append)),
            insert: Some(TabInsert::Append),
            lock_target: Some(LockState::SoftLock),
        }
    );
    // Pointer up and to the left of the diagonal: x - y > 0 and -x - y > 0.
    let above = traditional_destination(
        hover,
        false,
        false,
        edge(Sign::Positive, Sign::Negative, true, true),
        AllowedSplits::All,
        true,
        true,
        9,
    );
    assert_eq!(above.destination, Some(TabDestination::Node(node(0, 1), TabInsert::Split(Split::Above))));
    let left = traditional_destination(hover, false, false, edge(Sign::Negative, Sign::Zero, false, true), AllowedSplits::All, true, true, 9);
    assert_eq!(left.destination, Some(TabDestination::Node(node(0, 1), TabInsert::Split(Split::Left))));
    let right = traditional_destination(hover, false, false, edge(Sign::Positive, Sign::Zero, true, false), AllowedSplits::All, true, true, 9);
    assert_eq!(right.destination, Some(TabDestination::Node(node(0, 1), TabInsert::Split(Split::Right))));
    let below = traditional_destination(hover, false, false, edge(Sign::Zero, Sign::Positive, false, false), AllowedSplits::All, true, true, 9);
    assert_eq!(below.destination, Some(TabDestination::Node(node(0, 1), TabInsert::Split(Split::Below))));
}

#[test]
fn traditional_restricted_splits_project_the_pointer() {
    let hover = TreeComponent::Node(node(0, 1));
    // Up and to the right, but only left/right splits: the vertical part is dropped.
    let r = traditional_destination(hover, false, false, edge(Sign::Positive, Sign::Negative, true, true), AllowedSplits::LeftRightOnly, true, true, 9);
    assert_eq!(r.destination, Some(TabDestination::Node(node(0, 1), TabInsert::Split(Split::Right))));
    let r = traditional_destination(hover, false, false, edge(Sign::Positive, Sign::Negative, true, true), AllowedSplits::TopBottomOnly, true, true, 9);
    assert_eq!(r.destination, Some(TabDestination::Node(node(0, 1), TabInsert::Split(Split::Above))));
    // Nothing left of the offset: a window when windows are allowed, else an append.
    let r = traditional_destination(hover, false, false, edge(Sign::Positive, Sign::Negative, true, true), AllowedSplits::NoSplit, true, true, 9);
    assert_eq!(r.destination, Some(TabDestination::Window(9)));
    assert_eq!(r.insert, None);
    let r = traditional_destination(hover, false, false, edge(Sign::Zero, Sign::Negative, true, true), AllowedSplits::LeftRightOnly, false, true, 9);
    assert_eq!(r.destination, Some(TabDestination::Node(node(0, 1), TabInsert::Append)));
}

#[test]
fn traditional_window_zone_tab_bar_and_refusals() {
    let hover = TreeComponent::Node(node(0, 1));
    let r = traditional_destination(hover, false, false, PointerRegion::WindowZone, AllowedSplits::All, true, true, 5);
    assert_eq!(r.destination, Some(TabDestination::Window(5)));
    let r = traditional_destination(hover, false, false, PointerRegion::WindowZone, AllowedSplits::All, false, true, 5);
    assert_eq!(r.destination, Some(TabDestination::Node(node(0, 1), TabInsert::Append)));
    let tab = TreeComponent::Tab(TabPath::new(SurfaceIndex(0), NodeIndex(1), TabIndex(2)));
    let r = traditional_destination(tab, true, true, PointerRegion::Center, AllowedSplits::All, true, true, 5);
    assert_eq!(r.destination, Some(TabDestination::Node(node(0, 1), TabInsert::Insert(TabIndex(2)))));
    assert_eq!(r.lock_target, Some(LockState::SoftLock));
    let r = traditional_destination(tab, true, false, PointerRegion::Center, AllowedSplits::All, true, true, 5);
    assert_eq!(r.lock_target, Some(LockState::Unlocked));
    let in_window = TreeComponent::Node(node(1, 0));
    let r = traditional_destination(in_window, false, false, PointerRegion::Center, AllowedSplits::All, false, true, 5);
    assert_eq!(r, TraditionalDrop { destination: None, insert: None, lock_target: None });
    let r = traditional_destination(hover, false, false, PointerRegion::Center, AllowedSplits::All, true, false, 5);
    assert_eq!(r, TraditionalDrop { destination: Some(TabDestination::Window(5)), insert: None, lock_target: None });
    let empty = TreeComponent::Surface(SurfaceIndex(0));
    let r = traditional_destination(empty, false, false, edge(Sign::Negative, Sign::Zero, false, true), AllowedSplits::All, true, true, 5);
    assert_eq!(r.destination, Some(TabDestination::EmptySurface(SurfaceIndex(0))));
    assert_eq!(r.insert, Some(TabInsert::Split(Split::Left)));
}

#[test]
fn icon_overlay_last_hovered_button_wins() {
    let hover = TreeComponent::Node(node(0, 1));
    let (d, lock) = icon_destination(hover, false, NO_BUTTONS, AllowedSplits::All, true, true, true, 3);
    assert_eq!(d, Some(TabDestination::Window(3)));
    assert_eq!(lock, LockState::SoftLock);
    let (d, lock) = icon_destination(hover, true, NO_BUTTONS, AllowedSplits::All, true, true, true, 3);
    assert_eq!(d, Some(TabDestination::Node(node(0, 1), TabInsert::Append)));
    assert_eq!(lock, LockState::HardLock);
    let both = SplitButtons { below: true, right: false, above: false, left: true };
    let (d, _) = icon_destination(hover, true, both, AllowedSplits::All, true, true, true, 3);
    assert_eq!(d, Some(TabDestination::Node(node(0, 1), TabInsert::Split(Split::Left))));
    let (d, _) = icon_destination(hover, false, both, AllowedSplits::TopBottomOnly, true, true, false, 3);
    assert_eq!(d, Some(TabDestination::Node(node(0, 1), TabInsert::Split(Split::Below))));
    let (d, lock) = icon_destination(hover, true, both, AllowedSplits::All, false, false, false, 3);
    assert_eq!(d, None);
    assert_eq!(lock, LockState::Unlocked);
    let (d, _) = icon_destination(TreeComponent::Surface(SurfaceIndex(1)), true, both, AllowedSplits::All, true, true, true, 3);
    assert_eq!(d, Some(TabDestination::EmptySurface(SurfaceIndex(1))));
}

#[test]
fn lock_steps() {
    assert_eq!(lock_step(false, LockState::Unlocked, false, false), LockStep::Keep);
    assert_eq!(lock_step(false, LockState::SoftLock, false, false), LockStep::Restart);
    assert_eq!(lock_step(true, LockState::HardLock, false, false), LockStep::Restart);
    assert_eq!(lock_step(true, LockState::SoftLock, true, false), LockStep::Keep);
    assert_eq!(lock_step(true, LockState::Unlocked, true, true), LockStep::Keep);
    assert_eq!(lock_step(true, LockState::Unlocked, true, false), LockStep::Release);
    assert_eq!(lock_step(true, LockState::Unlocked, false, true), LockStep::Release);
}

#[test]
fn window_drop_kinds() {
    assert_eq!(window_drop_kind(true, true, true), WindowDropKind::FloatingPanel);
    assert_eq!(window_drop_kind(false, true, true), WindowDropKind::ContainedWindow);
    assert_eq!(window_drop_kind(true, true, false), WindowDropKind::NativeWindow);
}

#[test]
fn drop_splits_refuse_the_deserted_node_and_surfaces() {
    let mut d = DockState::new(vec![1]);
    d.main_surface_mut().split_right(NodeIndex(0), vec![2, 3]);
    let lone = TreeComponent::Tab(TabPath::new(SurfaceIndex(0), NodeIndex(1), TabIndex(0)));
    let lone_node = TreeComponent::Node(node(0, 1));
    assert_eq!(d.drop_splits(lone, lone_node, AllowedSplits::All), AllowedSplits::NoSplit);
    let pair = TreeComponent::Tab(TabPath::new(SurfaceIndex(0), NodeIndex(2), TabIndex(1)));
    let pair_node = TreeComponent::Node(node(0, 2));
    assert_eq!(d.drop_splits(pair, pair_node, AllowedSplits::LeftRightOnly), AllowedSplits::LeftRightOnly);
    assert_eq!(d.drop_splits(pair, lone_node, AllowedSplits::All), AllowedSplits::All);
    assert_eq!(d.drop_splits(pair, TreeComponent::Surface(SurfaceIndex(1)), AllowedSplits::All), AllowedSplits::NoSplit);
}
