//! A versioned document store. Documents live in content-addressed blobs;
//! a snapshot is a tree of (path, mode, id) entries kept in byte order of
//! their paths; every write appends one commit to a single linear history,
//! and a one-slot cache serves the listing of the current snapshot.
pub mod bytes;
pub mod front_matter;
pub mod handlers;
pub mod index;
pub mod laws;
pub mod models;
pub mod object;
pub mod store;
