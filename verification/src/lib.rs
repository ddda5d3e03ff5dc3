//! Layout engine for a tiling window manager.
//!
//! The crate keeps a tree of containers (root, workspaces, splits, windows)
//! consistent while containers are detached and redundant splits are
//! flattened away, and it redistributes the proportional tiling space that
//! a removed container frees up.

pub mod commands;
pub mod direction;
pub mod tree;
