//! Laws of the overlay and archive stores.
//!
//! Public proofs of the semantic guarantees the stores live by: overlay
//! existence, shadowing and listing-union behaviour, root-prefix stripping,
//! and ancestor-directory synthesis.

use vstd::prelude::*;

use crate::overlay_fs::{
    dirs_union, lemma_first_entry_layer, lemma_first_open_layer, openable, overlay_model,
    some_entry, some_openable,
};
use crate::path::{canonical_segs, is_normal_seg, join_segs, lemma_norm_segs_canonical};
use crate::store::StoreModel;
use crate::zip_fs::{
    add_ancestors, entry_segs, is_dir_name, root_prefix_len, starts_with, synth_entries, zip_fold,
    zip_model, ZipEntry,
};

verus! {

/// A path exists in an overlay exactly when at least one layer has it.
pub proof fn lemma_overlay_exists_any(ms: Seq<StoreModel>, n: Seq<char>)
    ensures
        overlay_model(ms).entries.dom().contains(n) <==> exists|i: int|
            0 <= i < ms.len() && (#[trigger] ms[i]).entries.dom().contains(n),
{
}

/// Shadowing and fall-through of file lookups: if the layers above `i`
/// cannot open a path and layer `i` can, the overlay serves layer `i`'s
/// bytes, whatever lower layers hold.
pub proof fn lemma_overlay_shadowing(ms: Seq<StoreModel>, n: Seq<char>, i: int)
    requires
        0 <= i < ms.len(),
        openable(ms[i], n),
        forall|j: int| 0 <= j < i ==> !openable(#[trigger] ms[j], n),
    ensures
        overlay_model(ms).files.dom().contains(n),
        overlay_model(ms).files[n] == ms[i].files[n],
{
    lemma_first_open_layer(ms, n, i);
    assert(some_openable(ms, n));
}

/// The same first-match rule for existence and metadata: the topmost layer
/// that has the path supplies its metadata.
pub proof fn lemma_overlay_first_match(ms: Seq<StoreModel>, n: Seq<char>, i: int)
    requires
        0 <= i < ms.len(),
        ms[i].entries.dom().contains(n),
        forall|j: int| 0 <= j < i ==> !(#[trigger] ms[j]).entries.dom().contains(n),
    ensures
        overlay_model(ms).entries.dom().contains(n),
        overlay_model(ms).entries[n] == ms[i].entries[n],
{
    lemma_first_entry_layer(ms, n, i);
    assert(some_entry(ms, n));
}

/// Directory listings are unions: a path stands in an overlay listing
/// exactly when some layer lists it, and the listing exists exactly when
/// that union is non-empty.
pub proof fn lemma_overlay_listing_union(ms: Seq<StoreModel>, n: Seq<char>, x: Seq<char>)
    ensures
        overlay_model(ms).dirs.dom().contains(n) ==> (overlay_model(ms).dirs[n].contains(x) <==>
            exists|i: int|
                0 <= i < ms.len() && (#[trigger] ms[i]).dirs.dom().contains(n)
                    && ms[i].dirs[n].contains(x)),
        (exists|i: int|
            0 <= i < ms.len() && (#[trigger] ms[i]).dirs.dom().contains(n) && ms[i].dirs[n].contains(
                x,
            )) ==> overlay_model(ms).dirs.dom().contains(n),
{
    if exists|i: int|
        0 <= i < ms.len() && (#[trigger] ms[i]).dirs.dom().contains(n) && ms[i].dirs[n].contains(
            x,
        ) {
        assert(dirs_union(ms, n).contains(x));
        assert(dirs_union(ms, n) != Set::<Seq<char>>::empty()) by {
            assert(!Set::<Seq<char>>::empty().contains(x));
        }
    }
}

/// The entry table with the shared root prefix textually stripped from
/// every name.
pub open spec fn strip_prefix_all(raws: Seq<(Seq<char>, u64)>, p: int) -> Seq<(Seq<char>, u64)> {
    raws.map_values(|e: (Seq<char>, u64)| (e.0.skip(p), e.1))
}

proof fn lemma_fold_strip(raws: Seq<(Seq<char>, u64)>, p: int, k: int)
    requires
        0 <= p,
        forall|i: int| 0 <= i < raws.len() ==> p + 1 <= (#[trigger] raws[i]).0.len(),
        0 <= k <= raws.len(),
    ensures
        zip_fold(raws, p, k) == zip_fold(strip_prefix_all(raws, p), 0, k),
    decreases k,
{
    let sr = strip_prefix_all(raws, p);
    if k > 0 {
        lemma_fold_strip(raws, p, k - 1);
        assert(sr[k - 1] == (raws[k - 1].0.skip(p), raws[k - 1].1));
        assert(sr[k - 1].0.skip(0) =~= raws[k - 1].0.skip(p));
        assert(entry_segs(sr[k - 1], 0) == entry_segs(raws[k - 1], p));
        assert(is_dir_name(sr[k - 1].0) == is_dir_name(raws[k - 1].0)) by {
            assert(sr[k - 1].0.len() == raws[k - 1].0.len() - p);
            assert(sr[k - 1].0.len() > 0);
            assert(sr[k - 1].0.last() == raws[k - 1].0.last());
        }
    }
}

/// Root-prefix stripping: a store built from an entry table whose names all
/// share a first segment is the same store as one built from the table with
/// that segment stripped — no lookup ever sees the prefix.
pub proof fn lemma_zip_root_prefix_stripped(bytes: Seq<u8>, raws: Seq<(Seq<char>, u64)>)
    requires
        root_prefix_len(raws) > 0,
    ensures
        zip_model(bytes, raws) == zip_model(
            bytes,
            strip_prefix_all(raws, root_prefix_len(raws)),
        ),
{
    let p = root_prefix_len(raws);
    let sr = strip_prefix_all(raws, p);
    assert(raws.len() > 0);
    raws[0].0.index_of_first_ensures('/');
    assert(raws[0].0.index_of_first('/') == Some(p)) by {
        if raws[0].0.index_of_first('/') is None {
            assert(root_prefix_len(raws) == 0);
        }
    }
    assert(raws[0].0[p] == '/');
    let prefix = raws[0].0.take(p).push('/');
    assert(forall|i: int| 0 <= i < raws.len() ==> starts_with((#[trigger] raws[i]).0, prefix))
        by {
        if !(forall|i: int|
            0 <= i < raws.len() ==> starts_with((#[trigger] raws[i]).0, prefix)) {
            assert(root_prefix_len(raws) == 0);
        }
    }
    assert forall|i: int| 0 <= i < raws.len() implies p + 1 <= (#[trigger] raws[i]).0.len() by {
        assert(starts_with(raws[i].0, prefix));
        assert(prefix.len() == p + 1);
    }
    // Every stripped name begins with '/', so the stripped table has no
    // further prefix of its own.
    assert(root_prefix_len(sr) == 0) by {
        assert(sr[0].0 == raws[0].0.skip(p));
        assert(sr[0].0[0] == raws[0].0[p]);
        assert(sr[0].0[0] == '/');
        sr[0].0.index_of_first_ensures('/');
        assert(sr[0].0.contains('/')) by {
            assert(sr[0].0[0] == '/');
        }
        let q = sr[0].0.index_of_first('/').unwrap();
        assert(q == 0) by {
            if q > 0 {
                assert(sr[0].0[0] != '/');
            }
        }
    }
    lemma_fold_strip(raws, p, raws.len() as int);
    assert(sr.len() == raws.len());
    let m1 = zip_model(bytes, raws);
    let m2 = zip_model(bytes, sr);
    let folded = zip_fold(raws, p, raws.len() as int);
    assert(zip_fold(sr, 0, sr.len() as int) == folded);
    let es = synth_entries(folded.0, folded.1);
    assert(m1.entries =~= m2.entries);
    assert(m1.files =~= m2.files);
    assert(m1.dirs =~= m2.dirs);
    assert(m1 =~= m2);
}

/// The directory map never loses keys as entries are added, and holds every
/// ancestor of the given path.
proof fn lemma_add_ancestors_covers(ds: Map<Seq<char>, Set<Seq<char>>>, segs: Seq<Seq<char>>)
    ensures
        forall|k: Seq<char>| #[trigger]
            ds.dom().contains(k) ==> add_ancestors(ds, segs).dom().contains(k),
        forall|d: int|
            0 <= d < segs.len() ==> #[trigger] add_ancestors(ds, segs).dom().contains(
                join_segs(segs.take(d)),
            ),
    decreases segs.len(),
{
    if segs.len() > 0 {
        lemma_add_ancestors_covers(ds, segs.drop_last());
        assert forall|d: int|
            0 <= d < segs.len() implies #[trigger] add_ancestors(ds, segs).dom().contains(
            join_segs(segs.take(d)),
        ) by {
            if d < segs.len() - 1 {
                assert(segs.drop_last().take(d) =~= segs.take(d));
                assert(add_ancestors(ds, segs.drop_last()).dom().contains(
                    join_segs(segs.take(d)),
                ));
            } else {
                assert(segs.take(d) =~= segs.drop_last());
            }
        }
    }
}

/// Entry processing only grows the directory map, and after processing `k`
/// entries it holds every ancestor of each processed entry.
proof fn lemma_fold_dirs_cover(raws: Seq<(Seq<char>, u64)>, plen: int, k: int)
    requires
        0 <= k <= raws.len(),
    ensures
        forall|i: int, d: int|
            0 <= i < k && 0 <= d < entry_segs(#[trigger] raws[i], plen).len()
                ==> #[trigger] zip_fold(raws, plen, k).1.dom().contains(
                join_segs(entry_segs(raws[i], plen).take(d)),
            ),
    decreases k,
{
    if k > 0 {
        lemma_fold_dirs_cover(raws, plen, k - 1);
        let prev = zip_fold(raws, plen, k - 1).1;
        let segs = entry_segs(raws[k - 1], plen);
        lemma_add_ancestors_covers(prev, segs);
        assert forall|i: int, d: int|
            0 <= i < k && 0 <= d < entry_segs(#[trigger] raws[i], plen).len() implies #[trigger] zip_fold(
            raws,
            plen,
            k,
        ).1.dom().contains(join_segs(entry_segs(raws[i], plen).take(d))) by {
            if i < k - 1 {
                assert(prev.dom().contains(join_segs(entry_segs(raws[i], plen).take(d))));
            }
        }
    }
}

/// Every path the entry index holds is the canonical path of some processed
/// entry.
proof fn lemma_fold_entries_dom(raws: Seq<(Seq<char>, u64)>, plen: int, k: int)
    requires
        0 <= k <= raws.len(),
    ensures
        forall|n: Seq<char>| #[trigger]
            zip_fold(raws, plen, k).0.dom().contains(n) ==> exists|i: int|
                0 <= i < k && join_segs(entry_segs(#[trigger] raws[i], plen)) == n,
    decreases k,
{
    if k > 0 {
        lemma_fold_entries_dom(raws, plen, k - 1);
        assert forall|n: Seq<char>| #[trigger]
            zip_fold(raws, plen, k).0.dom().contains(n) implies exists|i: int|
            0 <= i < k && join_segs(entry_segs(#[trigger] raws[i], plen)) == n by {
            let prev = zip_fold(raws, plen, k - 1).0;
            if prev.dom().contains(n) {
                let i = choose|i: int|
                    0 <= i < k - 1 && join_segs(entry_segs(#[trigger] raws[i], plen)) == n;
                assert(0 <= i < k && join_segs(entry_segs(raws[i], plen)) == n);
            } else {
                assert(join_segs(entry_segs(raws[k - 1], plen)) == n);
            }
        }
    }
}

/// A non-empty sequence of canonical segments joins to a non-empty path.
proof fn lemma_join_segs_nonempty(segs: Seq<Seq<char>>)
    requires
        segs.len() > 0,
        is_normal_seg(segs[0]),
    ensures
        join_segs(segs).len() > 0,
{
    if segs.len() > 1 {
        assert(join_segs(segs) == segs[0] + seq!['/'] + join_segs(segs.skip(1)));
    }
}

/// Ancestor synthesis: every proper ancestor implied by an entry's path
/// exists in the store as a listable path, and is a directory whenever the
/// archive records no entry of its own at that path.
pub proof fn lemma_zip_ancestors(
    bytes: Seq<u8>,
    raws: Seq<(Seq<char>, u64)>,
    i: int,
    d: int,
)
    requires
        0 <= i < raws.len(),
        1 <= d < entry_segs(raws[i], root_prefix_len(raws)).len(),
    ensures
        zip_model(bytes, raws).entries.dom().contains(
            join_segs(entry_segs(raws[i], root_prefix_len(raws)).take(d)),
        ),
        zip_model(bytes, raws).dirs.dom().contains(
            join_segs(entry_segs(raws[i], root_prefix_len(raws)).take(d)),
        ),
        (forall|j: int|
            0 <= j < raws.len() ==> join_segs(
                entry_segs(#[trigger] raws[j], root_prefix_len(raws)),
            ) != join_segs(entry_segs(raws[i], root_prefix_len(raws)).take(d)))
            ==> zip_model(bytes, raws).entries[
            join_segs(entry_segs(raws[i], root_prefix_len(raws)).take(d))].is_dir,
{
    let plen = root_prefix_len(raws);
    let segs = entry_segs(raws[i], plen);
    let q = join_segs(segs.take(d));
    let folded = zip_fold(raws, plen, raws.len() as int);
    lemma_fold_dirs_cover(raws, plen, raws.len() as int);
    assert(folded.1.dom().contains(q));
    lemma_norm_segs_canonical(raws[i].0.skip(plen));
    assert(canonical_segs(segs));
    assert(is_normal_seg(segs.take(d)[0])) by {
        assert(segs.take(d)[0] == segs[0]);
    }
    lemma_join_segs_nonempty(segs.take(d));
    assert(q.len() > 0);
    let es = synth_entries(folded.0, folded.1);
    assert(es.dom().contains(q));
    assert(zip_model(bytes, raws).entries.dom().contains(q));
    assert(zip_model(bytes, raws).dirs.dom().contains(q));
    if forall|j: int|
        0 <= j < raws.len() ==> join_segs(entry_segs(#[trigger] raws[j], plen)) != q {
        lemma_fold_entries_dom(raws, plen, raws.len() as int);
        assert(!folded.0.dom().contains(q)) by {
            if folded.0.dom().contains(q) {
                let j = choose|j: int|
                    0 <= j < raws.len() && join_segs(entry_segs(#[trigger] raws[j], plen)) == q;
            }
        }
        assert(es[q] == ZipEntry { index: 0, is_dir: true, len: 0 });
        assert(zip_model(bytes, raws).entries[q].is_dir);
    }
}

} // verus!
