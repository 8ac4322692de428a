//! A thread-confined resource actor and a virtual directory tree projected
//! from flat, path-tagged file records.
//!
//! - `shrine`: handles that queue closures for the one worker that owns a
//!   resource, and the worker's handling of each message.
//! - `records`: the catalog store's rows.
//! - `paths`: components, joining and glob matching of virtual paths.
//! - `tree`: the directory tree, with lookup by path, search, flattening and
//!   glob.
//! - `listing`: child directories, files and whole trees computed from a
//!   snapshot of the store.

pub mod listing;
pub mod paths;
pub mod records;
pub mod shrine;
pub mod tree;
