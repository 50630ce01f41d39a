//! Support for the scripting host that consumes this virtual file system.
//!
//! The script loader resolves a module import by probing the unified tree:
//! for a logical item path it checks `<path>/mod.rn` first and `<path>.rn`
//! second, and reads whichever exists.  That convention is the caller's
//! policy, but it rests entirely on the exactness of `exists_path` and
//! `read_text_file`, so the decision logic lives here, verified.

use vstd::prelude::*;

use crate::error::FsError;
use crate::path::{join_spec, lemma_normalize_idempotent, norm_spec, normalize_path};
use crate::store::{text_matches, SimpleFs, StoreModel};

verus! {

/// What resolving a module against a modeled store must yield: the
/// directory form (`<path>/mod.rn`) wins if it exists, else the file form
/// (`<path>.rn`), else the lookup fails with `NotFound`.
pub open spec fn resolve_matches(
    m: StoreModel,
    path: Seq<char>,
    r: Result<(String, String), FsError>,
) -> bool {
    let c1 = join_spec(norm_spec(path), seq!['m', 'o', 'd', '.', 'r', 'n']);
    let c2 = norm_spec(path) + seq!['.', 'r', 'n'];
    if m.entries.dom().contains(norm_spec(c1)) {
        match r {
            Ok(p) => p.0@ == c1 && text_matches(m, c1, Ok(p.1)),
            Err(e) => text_matches(m, c1, Err::<String, FsError>(e)),
        }
    } else if m.entries.dom().contains(norm_spec(c2)) {
        match r {
            Ok(p) => p.0@ == c2 && text_matches(m, c2, Ok(p.1)),
            Err(e) => text_matches(m, c2, Err::<String, FsError>(e)),
        }
    } else {
        r matches Err(e) && e is NotFound
    }
}

/// The two candidate source paths of a logical item path: the module file
/// inside the directory of that name, and the file of that name.
pub fn module_candidates(path: &str) -> (r: (String, String))
    ensures
        r.0@ == join_spec(norm_spec(path@), seq!['m', 'o', 'd', '.', 'r', 'n']),
        r.1@ == norm_spec(path@) + seq!['.', 'r', 'n'],
{
    let base = normalize_path(path);
    proof {
        reveal_strlit("mod.rn");
        reveal_strlit(".rn");
        assert("mod.rn"@ =~= seq!['m', 'o', 'd', '.', 'r', 'n']);
        assert(".rn"@ =~= seq!['.', 'r', 'n']);
    }
    let c1 = crate::path::join_path(base.as_str(), "mod.rn");
    let mut c2 = base;
    c2.append(".rn");
    (c1, c2)
}

/// Loads script sources off a store of the unified tree.
pub struct SimpleFsSourceLoader<F: SimpleFs> {
    fs: F,
}

impl<F: SimpleFs> SimpleFsSourceLoader<F> {
    /// Wraps a store for use as a module source.
    pub fn new(fs: F) -> (r: SimpleFsSourceLoader<F>)
        ensures
            r.store_model() == fs.model(),
    {
        SimpleFsSourceLoader { fs }
    }

    /// The model of the wrapped store.
    pub closed spec fn store_model(&self) -> Option<StoreModel> {
        self.fs.model()
    }

    /// Resolves a logical item path to a source file and its contents:
    /// `<path>/mod.rn` if it exists, else `<path>.rn`, else `NotFound`.
    pub fn load(&self, path: &str) -> (r: Result<(String, String), FsError>)
        ensures
            self.store_model() matches Some(m) ==> resolve_matches(m, path@, r),
    {
        let (c1, c2) = module_candidates(path);
        proof {
            lemma_normalize_idempotent(path@);
        }
        if self.fs.exists_path(c1.as_str()) {
            match self.fs.read_text_file(c1.as_str()) {
                Ok(src) => Ok((c1, src)),
                Err(e) => Err(e),
            }
        } else if self.fs.exists_path(c2.as_str()) {
            match self.fs.read_text_file(c2.as_str()) {
                Ok(src) => Ok((c2, src)),
                Err(e) => Err(e),
            }
        } else {
            Err(FsError::NotFound)
        }
    }
}

/// Options for a native function registered with the scripting host: a
/// function marked global needs no namespacing to be called, a volatile one
/// may return different results for the same arguments, and an impure one
/// may modify its arguments.
#[derive(Debug, Clone, Copy, PartialEq, Eq, Structural)]
pub struct FnOpts {
    pub pure_fn: bool,
    pub volatile: bool,
    pub global: bool,
}

impl FnOpts {
    /// The default options: pure, not volatile, namespaced.
    pub fn new() -> (r: FnOpts)
        ensures
            r == (FnOpts { pure_fn: true, volatile: false, global: false }),
    {
        FnOpts { pure_fn: true, volatile: false, global: false }
    }

    /// Marks the function callable without namespacing.
    pub fn global(&mut self)
        ensures
            *final(self) == (FnOpts { global: true, ..*old(self) }),
    {
        self.global = true;
    }

    /// Marks the function as possibly returning different results for the
    /// same arguments.
    pub fn volatile(&mut self)
        ensures
            *final(self) == (FnOpts { volatile: true, ..*old(self) }),
    {
        self.volatile = true;
    }

    /// Marks the function as modifying its arguments.
    pub fn impure(&mut self)
        ensures
            *final(self) == (FnOpts { pure_fn: false, ..*old(self) }),
    {
        self.pure_fn = false;
    }
}

} // verus!
