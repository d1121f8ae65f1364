//! An in-memory, hierarchical key-value store addressed by dot-delimited
//! paths, with bounded per-leaf version histories, wildcard and prefix
//! queries, and deadline-based expiration of individual versions.

pub mod expiration;
pub mod item;
pub mod laws;
pub mod nestedmap;
pub mod options;
pub mod paths;
pub mod store;
