//! The overlay combinator.
//!
//! Wraps an ordered stack of stores and answers every query by consulting
//! them in a fixed precedence order: the last layer supplied is the first
//! one queried.  File lookups and metadata take the first success; existence
//! is true when any layer reports it; directory listings are the sorted
//! union of every layer's listing, and fail only when that union is empty.

use vstd::prelude::*;

use crate::error::{FileMetadata, FsError};
use crate::order::{sorted_insert, string_views, strictly_sorted};
use crate::path::{lemma_normalize_idempotent, norm_spec, normalize_path};
use crate::store::{SimpleFs, StoreModel};

verus! {

/// The models of a sequence of layers, in sequence order.
pub open spec fn layer_models<F: SimpleFs>(layers: Seq<F>) -> Seq<Option<StoreModel>> {
    layers.map_values(|f: F| f.model())
}

/// Every layer is modeled.
pub open spec fn all_modeled(oms: Seq<Option<StoreModel>>) -> bool {
    forall|i: int| 0 <= i < oms.len() ==> (#[trigger] oms[i]) is Some
}

/// The models themselves, once all are known to be present.
pub open spec fn unwrap_models(oms: Seq<Option<StoreModel>>) -> Seq<StoreModel> {
    oms.map_values(|m: Option<StoreModel>| m.unwrap())
}

/// Some layer of the stack has the path.
pub open spec fn some_entry(ms: Seq<StoreModel>, n: Seq<char>) -> bool {
    exists|i: int| 0 <= i < ms.len() && (#[trigger] ms[i]).entries.dom().contains(n)
}

/// The first (highest-precedence) layer that has the path.
pub open spec fn first_entry_layer(ms: Seq<StoreModel>, n: Seq<char>) -> int
    decreases ms.len(),
{
    if ms.len() == 0 {
        0
    } else if ms[0].entries.dom().contains(n) {
        0
    } else {
        1 + first_entry_layer(ms.skip(1), n)
    }
}

/// Opening the path in this store would succeed.
pub open spec fn openable(m: StoreModel, n: Seq<char>) -> bool {
    m.files.dom().contains(n) && m.files[n] is Some
}

/// Some layer of the stack can open the path.
pub open spec fn some_openable(ms: Seq<StoreModel>, n: Seq<char>) -> bool {
    exists|i: int| 0 <= i < ms.len() && openable(#[trigger] ms[i], n)
}

/// The first (highest-precedence) layer that can open the path.
pub open spec fn first_open_layer(ms: Seq<StoreModel>, n: Seq<char>) -> int
    decreases ms.len(),
{
    if ms.len() == 0 {
        0
    } else if openable(ms[0], n) {
        0
    } else {
        1 + first_open_layer(ms.skip(1), n)
    }
}

/// The union of every layer's listing of a directory.
pub open spec fn dirs_union(ms: Seq<StoreModel>, n: Seq<char>) -> Set<Seq<char>> {
    Set::new(
        |x: Seq<char>|
            exists|i: int|
                0 <= i < ms.len() && (#[trigger] ms[i]).dirs.dom().contains(n)
                    && ms[i].dirs[n].contains(x),
    )
}

/// The abstract contents of an overlay over a stack of modeled layers
/// (highest precedence first): existence and metadata are first-match,
/// openable files are first-match among layers that can open, and
/// directory listings are unions, present exactly when non-empty.
pub open spec fn overlay_model(ms: Seq<StoreModel>) -> StoreModel {
    StoreModel {
        entries: Map::new(
            |n: Seq<char>| some_entry(ms, n),
            |n: Seq<char>| ms[first_entry_layer(ms, n)].entries[n],
        ),
        files: Map::new(
            |n: Seq<char>| some_openable(ms, n),
            |n: Seq<char>| ms[first_open_layer(ms, n)].files[n],
        ),
        dirs: Map::new(
            |n: Seq<char>| dirs_union(ms, n) != Set::<Seq<char>>::empty(),
            |n: Seq<char>| dirs_union(ms, n),
        ),
    }
}

/// The model of an overlay over layers with the given (optional) models:
/// known exactly when every layer is modeled.
pub open spec fn overlay_model_opt(oms: Seq<Option<StoreModel>>) -> Option<StoreModel> {
    if all_modeled(oms) {
        Some(overlay_model(unwrap_models(oms)))
    } else {
        None
    }
}

/// If no layer before `i` has the path and layer `i` has it, `i` is the
/// first layer with it.
pub proof fn lemma_first_entry_layer(ms: Seq<StoreModel>, n: Seq<char>, i: int)
    requires
        0 <= i < ms.len(),
        ms[i].entries.dom().contains(n),
        forall|j: int| 0 <= j < i ==> !(#[trigger] ms[j]).entries.dom().contains(n),
    ensures
        first_entry_layer(ms, n) == i,
    decreases i,
{
    if i > 0 {
        assert(!ms[0].entries.dom().contains(n));
        assert(ms.skip(1)[i - 1] == ms[i]);
        assert forall|j: int| 0 <= j < i - 1 implies !(#[trigger] ms.skip(1)[j]).entries.dom().contains(
            n,
        ) by {
            assert(ms.skip(1)[j] == ms[j + 1]);
        }
        lemma_first_entry_layer(ms.skip(1), n, i - 1);
    }
}

/// The same, for the first layer that can open the path.
pub proof fn lemma_first_open_layer(ms: Seq<StoreModel>, n: Seq<char>, i: int)
    requires
        0 <= i < ms.len(),
        openable(ms[i], n),
        forall|j: int| 0 <= j < i ==> !openable(#[trigger] ms[j], n),
    ensures
        first_open_layer(ms, n) == i,
    decreases i,
{
    if i > 0 {
        assert(!openable(ms[0], n));
        assert(ms.skip(1)[i - 1] == ms[i]);
        assert forall|j: int| 0 <= j < i - 1 implies !openable(#[trigger] ms.skip(1)[j], n) by {
            assert(ms.skip(1)[j] == ms[j + 1]);
        }
        lemma_first_open_layer(ms.skip(1), n, i - 1);
    }
}

/// The union of the listings of the first `i` layers.
pub open spec fn dirs_union_upto(ms: Seq<StoreModel>, n: Seq<char>, i: int) -> Set<Seq<char>> {
    Set::new(
        |x: Seq<char>|
            exists|j: int|
                0 <= j < i && j < ms.len() && (#[trigger] ms[j]).dirs.dom().contains(n)
                    && ms[j].dirs[n].contains(x),
    )
}

/// An ordered stack of stores, the last layer supplied first.
pub struct OverlayFs<F: SimpleFs> {
    layers: Vec<F>,
}

impl<F: SimpleFs> OverlayFs<F> {
    /// Builds the overlay from caller-supplied layers: the last one given
    /// gets the highest precedence.
    #[verifier::loop_isolation(false)]
    pub fn from_layers(layers: Vec<F>) -> (r: OverlayFs<F>)
        ensures
            r.model() == overlay_model_opt(layer_models(layers@).reverse()),
    {
        let ghost orig = layers@;
        let mut rest = layers;
        let mut rev: Vec<F> = Vec::new();
        while rest.len() > 0
            invariant
                rest@.len() <= orig.len(),
                rest@ == orig.take(rest@.len() as int),
                rev@ =~= orig.skip(rest@.len() as int).reverse(),
            decreases rest@.len(),
        {
            let ghost m = rest@.len() as int;
            proof {
                assert(orig.take(m).drop_last() =~= orig.take(m - 1));
                assert(orig.take(m).last() == orig[m - 1]);
            }
            match rest.pop() {
                Some(f) => {
                    rev.push(f);
                    proof {
                        assert(rev@ =~= orig.skip(m - 1).reverse());
                    }
                },
                None => {
                    proof {
                        assert(false);
                    }
                },
            }
        }
        proof {
            assert(orig.skip(0) =~= orig);
        }
        let r = OverlayFs { layers: rev };
        proof {
            assert(layer_models(r.layers@) =~= layer_models(orig).reverse());
        }
        r
    }

    /// How many layers the overlay holds.
    pub fn layer_count(&self) -> (r: usize)
        ensures
            r == self.layer_seq().len(),
    {
        self.layers.len()
    }

    /// The layer stack, highest precedence first.
    pub closed spec fn layer_seq(&self) -> Seq<F> {
        self.layers@
    }
}

impl<F: SimpleFs> SimpleFs for OverlayFs<F> {
    closed spec fn model(&self) -> Option<StoreModel> {
        overlay_model_opt(layer_models(self.layers@))
    }

    #[verifier::loop_isolation(false)]
    fn read_dir(&self, path: &str) -> (r: Result<Vec<String>, FsError>) {
        let normalized = normalize_path(path);
        let ghost n = norm_spec(path@);
        proof {
            lemma_normalize_idempotent(path@);
        }
        let ghost oms = layer_models(self.layers@);
        let ghost ms = unwrap_models(oms);
        let mut out: Vec<String> = Vec::new();
        let mut i: usize = 0;
        while i < self.layers.len()
            invariant
                i <= self.layers@.len(),
                oms == layer_models(self.layers@),
                ms == unwrap_models(oms),
                normalized@ == n,
                norm_spec(normalized@) == n,
                strictly_sorted(string_views(out@)),
                all_modeled(oms) ==> string_views(out@).to_set() == dirs_union_upto(
                    ms,
                    n,
                    i as int,
                ),
            decreases self.layers@.len() - i,
        {
            let ghost outset0 = string_views(out@).to_set();
            match self.layers[i].read_dir(normalized.as_str()) {
                Ok(children) => {
                    let ghost cs = string_views(children@);
                    let mut j: usize = 0;
                    while j < children.len()
                        invariant
                            j <= children@.len(),
                            cs == string_views(children@),
                            strictly_sorted(string_views(out@)),
                            string_views(out@).to_set() == outset0.union(
                                cs.take(j as int).to_set(),
                            ),
                        decreases children@.len() - j,
                    {
                        proof {
                            let t1 = cs.take(j as int + 1);
                            let t0 = cs.take(j as int);
                            assert(t1.to_set() =~= t0.to_set().insert(cs[j as int])) by {
                                assert forall|x: Seq<char>| t1.to_set().contains(x) implies t0.to_set().insert(cs[j as int]).contains(x) by {
                                    let idx = choose|idx: int| 0 <= idx < t1.len() && t1[idx] == x;
                                    if idx < j {
                                        assert(t0[idx] == x);
                                        assert(t0.to_set().contains(t0[idx]));
                                    } else {
                                        assert(x == cs[j as int]);
                                    }
                                }
                                assert forall|x: Seq<char>| t0.to_set().insert(cs[j as int]).contains(x) implies t1.to_set().contains(x) by {
                                    if x == cs[j as int] {
                                        assert(t1[j as int] == x);
                                        assert(t1.to_set().contains(t1[j as int]));
                                    } else {
                                        let idx = choose|idx: int| 0 <= idx < t0.len() && t0[idx] == x;
                                        assert(t1[idx] == x);
                                        assert(t1.to_set().contains(t1[idx]));
                                    }
                                }
                            }
                        }
                        sorted_insert(&mut out, children[j].clone());
                        proof {
                            assert(string_views(out@).to_set() =~= outset0.union(
                                cs.take(j as int + 1).to_set(),
                            ));
                        }
                        j = j + 1;
                    }
                    proof {
                        assert(cs.take(cs.len() as int) =~= cs);
                        if all_modeled(oms) {
                            assert(oms[i as int] == self.layers@[i as int].model());
                            assert(ms[i as int] == oms[i as int].unwrap());
                            assert(ms[i as int].dirs.dom().contains(n));
                            assert(cs.to_set() == ms[i as int].dirs[n]);
                            assert(string_views(out@).to_set() =~= dirs_union_upto(
                                ms,
                                n,
                                i as int + 1,
                            ));
                        }
                    }
                },
                Err(_) => {
                    proof {
                        if all_modeled(oms) {
                            assert(oms[i as int] == self.layers@[i as int].model());
                            assert(ms[i as int] == oms[i as int].unwrap());
                            assert(!ms[i as int].dirs.dom().contains(n));
                            assert(string_views(out@).to_set() =~= dirs_union_upto(
                                ms,
                                n,
                                i as int + 1,
                            ));
                        }
                    }
                },
            }
            i = i + 1;
        }
        proof {
            if all_modeled(oms) {
                assert(dirs_union_upto(ms, n, self.layers@.len() as int) =~= dirs_union(ms, n));
            }
        }
        if out.len() == 0 {
            proof {
                if all_modeled(oms) {
                    assert(string_views(out@) =~= Seq::<Seq<char>>::empty());
                    assert(string_views(out@).to_set() =~= Set::<Seq<char>>::empty());
                    assert(dirs_union(ms, n) == Set::<Seq<char>>::empty());
                }
            }
            Err(FsError::NotFound)
        } else {
            proof {
                if all_modeled(oms) {
                    let sv = string_views(out@);
                    assert(sv.to_set().contains(sv[0]));
                    assert(dirs_union(ms, n) != Set::<Seq<char>>::empty());
                }
            }
            Ok(out)
        }
    }

    #[verifier::loop_isolation(false)]
    fn open_file(&self, path: &str) -> (r: Result<Vec<u8>, FsError>) {
        let normalized = normalize_path(path);
        let ghost n = norm_spec(path@);
        proof {
            lemma_normalize_idempotent(path@);
        }
        let ghost oms = layer_models(self.layers@);
        let ghost ms = unwrap_models(oms);
        let mut i: usize = 0;
        while i < self.layers.len()
            invariant
                i <= self.layers@.len(),
                oms == layer_models(self.layers@),
                ms == unwrap_models(oms),
                normalized@ == n,
                norm_spec(normalized@) == n,
                all_modeled(oms) ==> forall|j: int|
                    0 <= j < i ==> !openable(#[trigger] ms[j], n),
            decreases self.layers@.len() - i,
        {
            match self.layers[i].open_file(normalized.as_str()) {
                Ok(bytes) => {
                    proof {
                        if all_modeled(oms) {
                            assert(oms[i as int] == self.layers@[i as int].model());
                            assert(ms[i as int] == oms[i as int].unwrap());
                            assert(openable(ms[i as int], n));
                            lemma_first_open_layer(ms, n, i as int);
                        }
                    }
                    return Ok(bytes);
                },
                Err(_) => {
                    proof {
                        if all_modeled(oms) {
                            assert(oms[i as int] == self.layers@[i as int].model());
                            assert(ms[i as int] == oms[i as int].unwrap());
                            assert(!openable(ms[i as int], n));
                        }
                    }
                },
            }
            i = i + 1;
        }
        Err(FsError::NotFound)
    }

    #[verifier::loop_isolation(false)]
    fn metadata(&self, path: &str) -> (r: Result<FileMetadata, FsError>) {
        let normalized = normalize_path(path);
        let ghost n = norm_spec(path@);
        proof {
            lemma_normalize_idempotent(path@);
        }
        let ghost oms = layer_models(self.layers@);
        let ghost ms = unwrap_models(oms);
        let mut i: usize = 0;
        while i < self.layers.len()
            invariant
                i <= self.layers@.len(),
                oms == layer_models(self.layers@),
                ms == unwrap_models(oms),
                normalized@ == n,
                norm_spec(normalized@) == n,
                all_modeled(oms) ==> forall|j: int|
                    0 <= j < i ==> !(#[trigger] ms[j]).entries.dom().contains(n),
            decreases self.layers@.len() - i,
        {
            match self.layers[i].metadata(normalized.as_str()) {
                Ok(md) => {
                    proof {
                        if all_modeled(oms) {
                            assert(oms[i as int] == self.layers@[i as int].model());
                            assert(ms[i as int] == oms[i as int].unwrap());
                            assert(ms[i as int].entries.dom().contains(n));
                            lemma_first_entry_layer(ms, n, i as int);
                        }
                    }
                    return Ok(md);
                },
                Err(_) => {
                    proof {
                        if all_modeled(oms) {
                            assert(oms[i as int] == self.layers@[i as int].model());
                            assert(ms[i as int] == oms[i as int].unwrap());
                            assert(!ms[i as int].entries.dom().contains(n));
                        }
                    }
                },
            }
            i = i + 1;
        }
        Err(FsError::NotFound)
    }

    #[verifier::loop_isolation(false)]
    fn exists_path(&self, path: &str) -> (r: bool) {
        let normalized = normalize_path(path);
        let ghost n = norm_spec(path@);
        proof {
            lemma_normalize_idempotent(path@);
        }
        let ghost oms = layer_models(self.layers@);
        let ghost ms = unwrap_models(oms);
        let mut i: usize = 0;
        while i < self.layers.len()
            invariant
                i <= self.layers@.len(),
                oms == layer_models(self.layers@),
                ms == unwrap_models(oms),
                normalized@ == n,
                norm_spec(normalized@) == n,
                all_modeled(oms) ==> forall|j: int|
                    0 <= j < i ==> !(#[trigger] ms[j]).entries.dom().contains(n),
            decreases self.layers@.len() - i,
        {
            if self.layers[i].exists_path(normalized.as_str()) {
                proof {
                    if all_modeled(oms) {
                        assert(oms[i as int] == self.layers@[i as int].model());
                        assert(ms[i as int] == oms[i as int].unwrap());
                        assert(ms[i as int].entries.dom().contains(n));
                    }
                }
                return true;
            }
            proof {
                if all_modeled(oms) {
                    assert(oms[i as int] == self.layers@[i as int].model());
                    assert(ms[i as int] == oms[i as int].unwrap());
                }
            }
            i = i + 1;
        }
        false
    }
}

} // verus!
