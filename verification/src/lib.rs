pub mod closing;
pub mod destination;
pub mod dock_iter;
pub mod dock_state;
pub mod drag_and_drop;
pub mod error;
pub mod floating;
pub mod index;
pub mod node;
pub mod persistence;
pub mod shape;
pub mod subtree;
pub mod surface;
pub mod translations;
pub mod tree;
pub mod window_state;
