//! Tag propagation over a scanned directory tree.
//!
//! A scan walks a directory down to a depth and yields entries. The entries
//! are built into a tree whose children stand in a fixed order; the tags
//! assigned to paths are kept in a relation of rows; a range query reads
//! the tags of the scanned range and of the paths above its root; and every
//! entry is given the tags it owns and the tags it inherits from the paths
//! above it.
//!
//! Paths are known by their segments (`path`). The walk hands in what it
//! met and takes back what to do (`walk`, `platform`). The tree is built in
//! `scan`, its children sorted in `order`; tags are resolved in `resolve`;
//! the relation lives in `tagging` and is queried in `query`; `store` and
//! `pattern` hold what is said to a durable store; `index` finds paths by
//! name. `laws` states what holds across these parts.

pub mod index;
pub mod laws;
pub mod order;
pub mod path;
pub mod pattern;
pub mod platform;
pub mod query;
pub mod resolve;
pub mod scan;
pub mod store;
pub mod tagging;
pub mod text;
pub mod walk;
