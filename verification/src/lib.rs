//! Mirrors a flat, hash-addressed document store onto a directory tree and
//! computes the differences between two such trees.
//!
//! - `nodes`: hashes, metadata, files and directories, with their views.
//! - `remarkable_trees`: rebuilding the document tree and the trash tree
//!   from a flat listing.
//! - `tree_counts`: the proof that the rebuilt trees hold no hash twice.
//! - `local_fs`: the tree of a local directory, the pruning difference of
//!   two trees, and the report of what each lacks.
//! - `ssh_utils`: the plan of a one-way copy from the device.

pub mod nodes;
pub mod local_fs;
pub mod remarkable_trees;
pub mod ssh_utils;
pub mod tree_counts;
