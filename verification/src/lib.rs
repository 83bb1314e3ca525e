//! A content-addressed blob repository engine.
//!
//! The library layers typed indices (heads, bookmarks, filenodes, changesets)
//! over an untyped content-addressed blobstore, and builds new commits while
//! preserving the invariants those indices depend on.

pub mod blobstore;
pub mod bookmarks;
pub mod changed;
pub mod changeset;
pub mod changesets;
pub mod codec;
pub mod errors;
pub mod filenodes;
pub mod hash;
pub mod heads;
pub mod import;
pub mod kvlist;
pub mod manifest;
pub mod repo;
pub mod stream;
pub mod uploader;
pub mod wire;
