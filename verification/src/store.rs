//! The capability contract: a read-only store of canonical paths.
//!
//! A store is specified against an abstract model: which paths exist and
//! with what metadata, which files can be opened and with what bytes, and
//! which directories exist and with what full listing.  A store whose
//! contents cannot be modeled (e.g. one backed by a live disk) reports
//! `None` and its results are unconstrained; every in-memory store reports
//! `Some` model and its results are pinned exactly.

use vstd::prelude::*;

use crate::error::{FileMetadata, FsError};
use crate::order::{string_views, strictly_sorted};
use crate::path::norm_spec;
use vstd::utf8::{decode_utf8, valid_utf8};

verus! {

/// The abstract contents of a read-only store, keyed by canonical path.
#[verifier::ext_equal]
pub struct StoreModel {
    /// Metadata of every existing path (files and directories).
    pub entries: Map<Seq<char>, FileMetadata>,
    /// For every openable path: `Some(bytes)` if opening yields these bytes,
    /// `None` if the entry is a file whose extraction fails.
    pub files: Map<Seq<char>, Option<Seq<u8>>>,
    /// For every listable directory: the set of full canonical child paths.
    pub dirs: Map<Seq<char>, Set<Seq<char>>>,
}

/// What `exists` must return on a modeled store.
pub open spec fn exists_matches(m: StoreModel, path: Seq<char>, r: bool) -> bool {
    r == m.entries.dom().contains(norm_spec(path))
}

/// What `metadata` must return on a modeled store.
pub open spec fn metadata_matches(
    m: StoreModel,
    path: Seq<char>,
    r: Result<FileMetadata, FsError>,
) -> bool {
    let n = norm_spec(path);
    if m.entries.dom().contains(n) {
        r matches Ok(md) && md == m.entries[n]
    } else {
        r matches Err(e) && e is NotFound
    }
}

/// What `open_file` must return on a modeled store.
pub open spec fn open_matches(m: StoreModel, path: Seq<char>, r: Result<Vec<u8>, FsError>) -> bool {
    let n = norm_spec(path);
    if m.files.dom().contains(n) {
        match m.files[n] {
            Some(bytes) => r matches Ok(b) && b@ == bytes,
            None => r matches Err(e) && e is Io,
        }
    } else {
        r matches Err(e) && e is NotFound
    }
}

/// What `read_dir` must return on a modeled store: the directory's full
/// listing, strictly sorted.
pub open spec fn read_dir_matches(
    m: StoreModel,
    path: Seq<char>,
    r: Result<Vec<String>, FsError>,
) -> bool {
    let n = norm_spec(path);
    if m.dirs.dom().contains(n) {
        r matches Ok(v) && strictly_sorted(string_views(v@)) && string_views(v@).to_set()
            == m.dirs[n]
    } else {
        r matches Err(e) && e is NotFound
    }
}

/// What `read_text_file` must return on a modeled store: the opened bytes
/// decoded as UTF-8, or `ReadError` when they are not UTF-8.
pub open spec fn text_matches(m: StoreModel, path: Seq<char>, r: Result<String, FsError>) -> bool {
    let n = norm_spec(path);
    if m.files.dom().contains(n) {
        match m.files[n] {
            Some(bytes) => if valid_utf8(bytes) {
                r matches Ok(s) && s@ == decode_utf8(bytes)
            } else {
                r matches Err(e) && e is ReadError
            },
            None => r matches Err(e) && e is Io,
        }
    } else {
        r matches Err(e) && e is NotFound
    }
}

/// Relies on `String::from_utf8`: it succeeds exactly on UTF-8 input and
/// decodes it; the bytes of the result are the input bytes.
#[verifier::external_body]
fn utf8_to_string(bytes: Vec<u8>) -> (r: Option<String>)
    ensures
        r matches Some(s) ==> valid_utf8(bytes@) && s@ == decode_utf8(bytes@),
        r is None ==> !valid_utf8(bytes@),
{
    String::from_utf8(bytes).ok()
}

/// A read-only store of canonical paths.  Every operation normalizes its
/// input path before consulting the store's contents, so callers may pass
/// arbitrary slash-separated paths.
pub trait SimpleFs: Sized + Send + Sync {
    /// The abstract contents this store serves, if they can be modeled.
    spec fn model(&self) -> Option<StoreModel>;

    /// Lists the immediate children of a directory as full canonical paths,
    /// sorted; fails with `NotFound` if the path is not a listable directory
    /// of this store.
    fn read_dir(&self, path: &str) -> (r: Result<Vec<String>, FsError>)
        ensures
            self.model() matches Some(m) ==> read_dir_matches(m, path@, r),
    ;

    /// Returns the full contents of a file; fails if the path is a
    /// directory or absent.
    fn open_file(&self, path: &str) -> (r: Result<Vec<u8>, FsError>)
        ensures
            self.model() matches Some(m) ==> open_matches(m, path@, r),
    ;

    /// Returns length and directory flag without reading file contents.
    fn metadata(&self, path: &str) -> (r: Result<FileMetadata, FsError>)
        ensures
            self.model() matches Some(m) ==> metadata_matches(m, path@, r),
    ;

    /// Whether the path exists in this store; never fails.
    fn exists_path(&self, path: &str) -> (r: bool)
        ensures
            self.model() matches Some(m) ==> exists_matches(m, path@, r),
    ;

    /// Opens a file and decodes it as UTF-8, failing with `ReadError` on
    /// invalid encoding.
    fn read_text_file(&self, path: &str) -> (r: Result<String, FsError>)
        ensures
            self.model() matches Some(m) ==> text_matches(m, path@, r),
    {
        match self.open_file(path) {
            Ok(bytes) => match utf8_to_string(bytes) {
                Some(s) => Ok(s),
                None => {
                    let mut msg = "Error converting ".to_owned();
                    msg.append(path);
                    msg.append(" as UTF-8");
                    Err(FsError::ReadError(msg))
                },
            },
            Err(e) => Err(e),
        }
    }
}

} // verus!
