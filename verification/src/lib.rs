//! The core of a dashboard that shows a tree of tasks kept as directories:
//! the snapshot of the task store, the layout of the tree, the viewport
//! that scrolls over it, and the styled lines that are drawn.

pub mod listing;
pub mod path;
pub mod render;
pub mod repository;
pub mod shell;
pub mod state;
pub mod task;
pub mod text;
pub mod tree;
pub mod viewport;
