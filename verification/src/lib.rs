//! A layered, archive-aware, read-only virtual file system.
//!
//! A logical tree of assets is assembled from an ordered stack of content
//! sources (directories, zip archives, stubs).  Consumers see one unified
//! tree with deterministic precedence: file lookups are first-match over the
//! stack, directory listings are the sorted union of every layer's listing.
//! All paths are canonicalized before they touch any store.

pub mod error;
pub mod laws;
pub mod loader;
pub mod noop_fs;
pub mod order;
pub mod overlay_fs;
pub mod path;
pub mod pathmap;
pub mod store;
pub mod zip_fs;
