use egui_dock::dock_state::DockState;
use egui_dock::index::{NodeIndex, NodePath, SurfaceIndex};
use egui_dock::persistence::{DockLayoutError, DockLayoutFile, DOCK_LAYOUT_VERSION};

#[test]
fn a_new_layout_reads_back_as_the_same_dock() {
    let mut d = DockState::new(vec!["a".to_string(), "b".to_string()]);
    d.add_window(vec!["c".to_string()]);
    let file = DockLayoutFile::new(d);
    assert_eq!(file.version, DOCK_LAYOUT_VERSION);
    assert_eq!(DOCK_LAYOUT_VERSION, 1);
    let back = file.into_dock_state().unwrap();
    assert_eq!(back.surfaces_count(), 2);
    assert_eq!(back.leaf(NodePath::new(SurfaceIndex(1), NodeIndex(0))).unwrap().tabs, vec!["c".to_string()]);
}

#[test]
fn another_version_is_refused() {
    let mut file = DockLayoutFile::new(DockState::new(vec![1]));
    file.version = 2;
    match file.into_dock_state() {
        Err(DockLayoutError::UnsupportedVersion { found, expected }) => {
            assert_eq!(found, 2);
            assert_eq!(expected, 1);
        },
        _ => panic!("a layout of another version must be refused"),
    }
}
