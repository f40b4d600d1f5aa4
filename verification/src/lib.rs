//! A console kanban board: lists of cards shown side by side in panes, a selection
//! that moves between panes and cards, and the edits made with single keys.

pub mod kanban;
pub mod pane_manager;
pub mod input;
pub mod laws;
pub mod browser;
pub mod layout;
pub mod key_laws;
pub mod layout_laws;
