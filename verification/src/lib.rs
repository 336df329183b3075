//! Content-addressed directory manifests and tree diffing.
//!
//! A [`Manifest`](manifest::Manifest) describes a directory tree: every file
//! is recorded with its size and a content hash, every directory with its
//! named children. [`diff`](diff::diff) compares two manifests and returns
//! the ordered list of change operations that turns the first tree into the
//! second.

pub mod apply;
pub mod diff;
pub mod hash;
pub mod manifest;

pub use crate::diff::diff;
pub use crate::diff::Change;
pub use crate::manifest::Manifest;
