//! A tree of folders, each holding a payload, addressed by absolute path.
//!
//! The tree is kept as a flat table from path to payload and child names.
//! `FolderPath` is the path algebra, `FolderTree` the table with its
//! operations, and `NestedFolder` the nested form that a tree is written to
//! and read from.

pub mod error;
pub mod laws;
pub mod model;
pub mod nested;
pub mod path;
pub mod tree;

pub use error::{FolderTreeError, FolderTreeErrorView};
pub use nested::NestedFolder;
pub use path::FolderPath;
pub use tree::FolderTree;
