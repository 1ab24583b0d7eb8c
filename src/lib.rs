//! A navigable tree view: an identity-keyed tree, the selection / expansion
//! state machine that walks it, and the viewport arithmetic used to draw it.
pub mod flat;
pub mod stateful_tree;
pub mod tree;
pub mod tree_state;
pub mod view;
pub mod viewport;

pub use stateful_tree::StatefulTree;
pub use tree::{Node, Tree};
pub use tree_state::{StateView, TreeState};
pub use view::{TreeCommand, TreeCommandResult, TreeView};
pub use viewport::{row_indent, row_marker, rows_to_skip, visible_nodes, visible_window, RowMarker, VisibleRow};
