//! An indexing and lookup engine for a directory tree filtered to one file
//! extension.
//!
//! A one-time traversal converts a filesystem subtree, handed over as a plain
//! in-memory tree, into an arena of numbered handles: an addressable,
//! cycle-free structure in which every child id is strictly smaller than its
//! parent's id.  Read accessors then rebuild hierarchical views or resolve
//! file paths from that arena by handle id, with bounds and kind checks.

pub mod collection;
pub mod storage;
pub mod views;
