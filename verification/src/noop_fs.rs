//! A stub store that always fails.
//!
//! Used where a store is required syntactically but unused: it holds
//! nothing, so every lookup fails with `NotFound` and nothing exists.

use vstd::prelude::*;

use crate::error::{FileMetadata, FsError};
use crate::store::{SimpleFs, StoreModel};

verus! {

/// The empty store: no entries, no files, no directories.
pub struct NoOpFs {}

impl NoOpFs {
    /// Creates the empty store.
    pub fn new() -> (r: NoOpFs)
        ensures
            r.model() == Some(
                StoreModel {
                    entries: Map::<Seq<char>, FileMetadata>::empty(),
                    files: Map::<Seq<char>, Option<Seq<u8>>>::empty(),
                    dirs: Map::<Seq<char>, Set<Seq<char>>>::empty(),
                },
            ),
    {
        NoOpFs {  }
    }
}

impl SimpleFs for NoOpFs {
    open spec fn model(&self) -> Option<StoreModel> {
        Some(
            StoreModel {
                entries: Map::empty(),
                files: Map::empty(),
                dirs: Map::empty(),
            },
        )
    }

    fn read_dir(&self, path: &str) -> (r: Result<Vec<String>, FsError>) {
        Err(FsError::NotFound)
    }

    fn open_file(&self, path: &str) -> (r: Result<Vec<u8>, FsError>) {
        Err(FsError::NotFound)
    }

    fn metadata(&self, path: &str) -> (r: Result<FileMetadata, FsError>) {
        Err(FsError::NotFound)
    }

    fn exists_path(&self, path: &str) -> (r: bool) {
        false
    }
}

} // verus!
