//! Errors and file metadata of the capability contract.

use vstd::prelude::*;

verus! {

/// Failure of a store operation.  `NotFound` means the path is absent in the
/// queried store, `Io` wraps a lower-level archive or operating-system
/// failure, `ReadError` means the content is present but not interpretable
/// as requested (e.g. not UTF-8).
#[derive(Debug, Clone)]
pub enum FsError {
    NotFound,
    ReadError(String),
    Io(String),
}

impl FsError {
    /// A human-readable description of the error.
    pub fn message(&self) -> String {
        match self {
            FsError::NotFound => "SimpleFs: Resource not found".to_owned(),
            FsError::ReadError(s) => {
                let mut out = "SimpleFs: Error reading file: ".to_owned();
                out.append(s.as_str());
                out
            },
            FsError::Io(s) => {
                let mut out = "SimpleFs: I/O error: ".to_owned();
                out.append(s.as_str());
                out
            },
        }
    }
}

/// Immutable snapshot of one entry: byte length and whether it is a
/// directory.
#[derive(Debug, Clone, Copy, PartialEq, Eq, Structural)]
pub struct FileMetadata {
    pub len: u64,
    pub is_dir: bool,
}

} // verus!
