//! An in-memory mirror of a directory tree: an arena of named nodes with
//! owning child lists and non-owning parent links, path-like navigation over
//! it, an indented text rendering, and the counter that caps how many extra
//! workers may build subtrees at once.

pub mod folder;
pub mod text;
pub mod navigate;
pub mod render;
pub mod budget;

pub use budget::Budget;
pub use folder::Folder;
pub use text::{same_text, split_path};
pub use navigate::{NavError, NavFailure};
