//! The archive-backed store.
//!
//! Constructed once from a fully-read zip byte buffer: the entry table is
//! parsed once, a shared root prefix is detected and stripped, and an entry
//! index plus a directory map (with every ancestor directory synthesized)
//! are built in memory.  Reads re-open the retained buffer and extract the
//! recorded entry.

use vstd::prelude::*;

use crate::error::{FileMetadata, FsError};
use crate::order::{
    lemma_lex_prefix, lemma_lex_proper_prefix, lex_lt, sorted_insert, string_views,
    strictly_sorted,
};
use crate::path::{join_segs, join_spec, norm_segs, norm_spec, normalize_path, normalize_segments};
use crate::pathmap::PathMap;
use crate::store::{SimpleFs, StoreModel};

verus! {

/// One raw record of an archive's entry table: the entry's full name and
/// its uncompressed byte length.
pub struct RawEntry {
    pub name: String,
    pub len: u64,
}

impl View for RawEntry {
    type V = (Seq<char>, u64);

    open spec fn view(&self) -> (Seq<char>, u64) {
        (self.name@, self.len)
    }
}

/// The entry table that parsing a zip byte buffer yields: for each entry,
/// in index order, its full name and uncompressed size; `None` when the
/// bytes do not parse as an archive.  A function of the bytes alone.
pub uninterp spec fn archive_entries(bytes: Seq<u8>) -> Option<Seq<(Seq<char>, u64)>>;

/// What extracting the entry at one index of an archive yields: the entry's
/// full bytes, or `None` when extraction fails (index out of range, corrupt
/// or unsupported data).  A function of the bytes and the index alone.
pub uninterp spec fn archive_entry_data(bytes: Seq<u8>, idx: int) -> Option<Seq<u8>>;

/// Relies on `zip::ZipArchive`: `new` parses the buffer's central
/// directory, `len` counts its entries, `by_index` opens each in order, and
/// `ZipFile::name` / `ZipFile::size` read an entry's full name and
/// uncompressed size.
#[verifier::external_body]
fn list_archive_entries(buf: &Vec<u8>) -> (r: Result<Vec<RawEntry>, FsError>)
    ensures
        r matches Ok(v) ==> archive_entries(buf@) == Some(v@.map_values(|e: RawEntry| e@)),
        r is Err ==> archive_entries(buf@) is None,
        r matches Err(e) ==> e is Io,
{
    let mut archive = match zip::ZipArchive::new(std::io::Cursor::new(buf.as_slice())) {
        Ok(a) => a,
        Err(e) => return Err(FsError::Io(e.to_string())),
    };
    let mut out = Vec::new();
    for i in 0..archive.len() {
        match archive.by_index(i) {
            Ok(f) => out.push(RawEntry { name: f.name().to_string(), len: f.size() }),
            Err(e) => return Err(FsError::Io(e.to_string())),
        }
    }
    Ok(out)
}

/// Relies on `zip::ZipArchive::by_index` and `std::io::Read::read_to_end`
/// to extract one entry's bytes from the buffer.
#[verifier::external_body]
fn read_archive_entry(buf: &Vec<u8>, idx: usize) -> (r: Result<Vec<u8>, FsError>)
    ensures
        r matches Ok(b) ==> archive_entry_data(buf@, idx as int) == Some(b@),
        r is Err ==> archive_entry_data(buf@, idx as int) is None,
        r matches Err(e) ==> e is Io,
{
    let mut archive = match zip::ZipArchive::new(std::io::Cursor::new(buf.as_slice())) {
        Ok(a) => a,
        Err(e) => return Err(FsError::Io(e.to_string())),
    };
    let mut file = match archive.by_index(idx) {
        Ok(f) => f,
        Err(e) => return Err(FsError::Io(e.to_string())),
    };
    let mut bytes = Vec::new();
    match std::io::Read::read_to_end(&mut file, &mut bytes) {
        Ok(_) => Ok(bytes),
        Err(e) => Err(FsError::Io(e.to_string())),
    }
}

/// One indexed entry: the position of its record in the archive (meaningless
/// for synthesized directories, which are never extracted), its directory
/// flag, and its uncompressed length.
#[derive(Clone, Copy, PartialEq, Eq, Structural, Debug)]
pub struct ZipEntry {
    pub index: usize,
    pub is_dir: bool,
    pub len: u64,
}

/// An entry name marks a directory record when it ends in `/`.
pub open spec fn is_dir_name(name: Seq<char>) -> bool {
    name.len() > 0 && name.last() == '/'
}

/// `p` is a prefix of `n`.
pub open spec fn starts_with(n: Seq<char>, p: Seq<char>) -> bool {
    p.len() <= n.len() && n.take(p.len() as int) == p
}

/// The number of characters of the shared root prefix: if the first entry
/// name has a first segment `p` and every entry name starts with `p/`, it is
/// `p`'s length; otherwise zero.  The prefix is a best-effort heuristic for
/// archives that wrap a single top-level folder.
pub open spec fn root_prefix_len(raws: Seq<(Seq<char>, u64)>) -> int {
    if raws.len() == 0 {
        0
    } else {
        match raws[0].0.index_of_first('/') {
            Some(p) => if forall|i: int|
                0 <= i < raws.len() ==> starts_with((#[trigger] raws[i]).0, raws[0].0.take(p).push('/')) {
                p
            } else {
                0
            },
            None => 0,
        }
    }
}

/// The canonical segments of one raw entry after stripping the root prefix.
pub open spec fn entry_segs(raw: (Seq<char>, u64), plen: int) -> Seq<Seq<char>> {
    norm_segs(raw.0.skip(plen))
}

/// The child-name set at a key, or empty if absent.
pub open spec fn set_at(dirs: Map<Seq<char>, Set<Seq<char>>>, k: Seq<char>) -> Set<Seq<char>> {
    if dirs.dom().contains(k) {
        dirs[k]
    } else {
        Set::empty()
    }
}

/// Records, for every ancestor directory of a path given by its segments,
/// the next segment as a child of that ancestor.
pub open spec fn add_ancestors(
    dirs: Map<Seq<char>, Set<Seq<char>>>,
    segs: Seq<Seq<char>>,
) -> Map<Seq<char>, Set<Seq<char>>>
    decreases segs.len(),
{
    if segs.len() == 0 {
        dirs
    } else {
        let d2 = add_ancestors(dirs, segs.drop_last());
        let parent = join_segs(segs.drop_last());
        d2.insert(parent, set_at(d2, parent).insert(segs.last()))
    }
}

/// The entry index and directory map after processing the first `k` raw
/// entries: each entry with a non-empty canonical path is indexed (later
/// duplicates win), and every entry feeds the directory map of each of its
/// ancestors.
pub open spec fn zip_fold(raws: Seq<(Seq<char>, u64)>, plen: int, k: int) -> (Map<
    Seq<char>,
    ZipEntry,
>, Map<Seq<char>, Set<Seq<char>>>)
    decreases k,
{
    if k <= 0 {
        (Map::empty(), Map::empty())
    } else {
        let (es, ds) = zip_fold(raws, plen, k - 1);
        let segs = entry_segs(raws[k - 1], plen);
        let es2 = if segs.len() > 0 {
            es.insert(
                join_segs(segs),
                ZipEntry {
                    index: (k - 1) as usize,
                    is_dir: is_dir_name(raws[k - 1].0),
                    len: raws[k - 1].1,
                },
            )
        } else {
            es
        };
        (es2, add_ancestors(ds, segs))
    }
}

/// Adds a synthetic zero-length directory entry for every non-root
/// directory-map key that has no entry of its own.
pub open spec fn synth_entries(
    es: Map<Seq<char>, ZipEntry>,
    ds: Map<Seq<char>, Set<Seq<char>>>,
) -> Map<Seq<char>, ZipEntry> {
    Map::new(
        |n: Seq<char>| es.dom().contains(n) || (ds.dom().contains(n) && n.len() > 0),
        |n: Seq<char>|
            if es.dom().contains(n) {
                es[n]
            } else {
                ZipEntry { index: 0, is_dir: true, len: 0 }
            },
    )
}

/// The abstract contents of the archive-backed store over a byte buffer
/// whose entry table is `raws`.
pub open spec fn zip_model(bytes: Seq<u8>, raws: Seq<(Seq<char>, u64)>) -> StoreModel {
    let plen = root_prefix_len(raws);
    let folded = zip_fold(raws, plen, raws.len() as int);
    let es = synth_entries(folded.0, folded.1);
    let ds = folded.1;
    StoreModel {
        entries: Map::new(
            |n: Seq<char>| es.dom().contains(n),
            |n: Seq<char>| FileMetadata { len: es[n].len, is_dir: es[n].is_dir },
        ),
        files: Map::new(
            |n: Seq<char>| es.dom().contains(n) && !es[n].is_dir,
            |n: Seq<char>| archive_entry_data(bytes, es[n].index as int),
        ),
        dirs: Map::new(
            |n: Seq<char>| ds.dom().contains(n),
            |n: Seq<char>| ds[n].map(|c: Seq<char>| join_spec(n, c)),
        ),
    }
}

/// The view of a directory map as a map from directory path to the set of
/// its child names.
pub open spec fn name_sets(m: Map<Seq<char>, Vec<String>>) -> Map<Seq<char>, Set<Seq<char>>> {
    Map::new(
        |n: Seq<char>| m.dom().contains(n),
        |n: Seq<char>| string_views(m[n]@).to_set(),
    )
}

/// Every child list of the directory map is strictly sorted.
pub open spec fn sorted_children(m: Map<Seq<char>, Vec<String>>) -> bool {
    forall|n: Seq<char>| #[trigger]
        m.dom().contains(n) ==> strictly_sorted(string_views(m[n]@))
}

/// The entry index after walking the directory-map keys in order and adding
/// a synthetic directory entry for each non-root key not yet indexed.
pub open spec fn synth_fold(es: Map<Seq<char>, ZipEntry>, keys: Seq<Seq<char>>) -> Map<
    Seq<char>,
    ZipEntry,
>
    decreases keys.len(),
{
    if keys.len() == 0 {
        es
    } else {
        let e2 = synth_fold(es, keys.drop_last());
        let k = keys.last();
        if k.len() > 0 && !e2.dom().contains(k) {
            e2.insert(k, ZipEntry { index: 0, is_dir: true, len: 0 })
        } else {
            e2
        }
    }
}

proof fn lemma_synth_fold(es: Map<Seq<char>, ZipEntry>, keys: Seq<Seq<char>>)
    ensures
        forall|n: Seq<char>| #[trigger]
            synth_fold(es, keys).dom().contains(n) <==> (es.dom().contains(n) || (keys.contains(n)
                && n.len() > 0)),
        forall|n: Seq<char>| #[trigger]
            synth_fold(es, keys).dom().contains(n) ==> synth_fold(es, keys)[n] == (if es.dom().contains(n) {
                es[n]
            } else {
                ZipEntry { index: 0, is_dir: true, len: 0 }
            }),
    decreases keys.len(),
{
    if keys.len() > 0 {
        lemma_synth_fold(es, keys.drop_last());
        let e2 = synth_fold(es, keys.drop_last());
        assert forall|n: Seq<char>| #[trigger]
            synth_fold(es, keys).dom().contains(n) implies (es.dom().contains(n) || (keys.contains(
            n,
        ) && n.len() > 0)) by {
            if !es.dom().contains(n) {
                if e2.dom().contains(n) {
                    assert(keys.drop_last().contains(n) && n.len() > 0);
                    let i = choose|i: int|
                        0 <= i < keys.drop_last().len() && keys.drop_last()[i] == n;
                    assert(keys[i] == n);
                } else {
                    assert(n == keys.last());
                    assert(keys[keys.len() - 1] == n);
                }
            }
        }
        assert forall|n: Seq<char>|
            es.dom().contains(n) || (keys.contains(n) && n.len() > 0) implies #[trigger] synth_fold(
            es,
            keys,
        ).dom().contains(n) by {
            if es.dom().contains(n) {
                assert(e2.dom().contains(n));
            } else {
                let i = choose|i: int| 0 <= i < keys.len() && keys[i] == n;
                if i < keys.len() - 1 {
                    assert(keys.drop_last()[i] == n);
                    assert(keys.drop_last().contains(n));
                    assert(e2.dom().contains(n));
                } else {
                    assert(n == keys.last());
                    if !e2.dom().contains(n) {
                        assert(synth_fold(es, keys).dom().contains(n));
                    }
                }
            }
        }
        assert forall|n: Seq<char>| #[trigger]
            synth_fold(es, keys).dom().contains(n) implies synth_fold(es, keys)[n] == (if es.dom().contains(
            n,
        ) {
            es[n]
        } else {
            ZipEntry { index: 0, is_dir: true, len: 0 }
        }) by {
            if e2.dom().contains(n) || !(keys.last().len() > 0 && !e2.dom().contains(keys.last())) {
            }
        }
    }
}

/// Clones a vector of strings.
fn clone_strings(v: &Vec<String>) -> (out: Vec<String>)
    ensures
        out@ == v@,
{
    let mut out: Vec<String> = Vec::new();
    let mut i: usize = 0;
    while i < v.len()
        invariant
            i <= v@.len(),
            out@ == v@.take(i as int),
        decreases v@.len() - i,
    {
        out.push(v[i].clone());
        proof {
            assert(out@ =~= v@.take(i as int + 1));
        }
        i = i + 1;
    }
    proof {
        assert(v@.take(v@.len() as int) =~= v@);
    }
    out
}

/// Records one child name under one directory of the map, keeping each
/// child list sorted.
fn add_child(dir_map: &mut PathMap<Vec<String>>, parent: String, child: String)
    requires
        old(dir_map).wf(),
        sorted_children(old(dir_map)@),
    ensures
        final(dir_map).wf(),
        sorted_children(final(dir_map)@),
        name_sets(final(dir_map)@) == name_sets(old(dir_map)@).insert(
            parent@,
            set_at(name_sets(old(dir_map)@), parent@).insert(child@),
        ),
{
    let ghost m0 = dir_map@;
    let mut v: Vec<String> = match dir_map.get(parent.as_str()) {
        Some(vs) => clone_strings(vs),
        None => Vec::new(),
    };
    assert(strictly_sorted(string_views(v@)));
    let ghost oldset = string_views(v@).to_set();
    assert(oldset == set_at(name_sets(m0), parent@)) by {
        if !m0.dom().contains(parent@) {
            assert(string_views(v@) =~= Seq::<Seq<char>>::empty());
            assert(string_views(v@).to_set() =~= Set::<Seq<char>>::empty());
        }
    }
    sorted_insert(&mut v, child);
    dir_map.insert(parent, v);
    proof {
        assert(name_sets(dir_map@) =~= name_sets(m0).insert(
            parent@,
            set_at(name_sets(m0), parent@).insert(child@),
        ));
        assert(sorted_children(dir_map@)) by {
            assert forall|n: Seq<char>| #[trigger] dir_map@.dom().contains(n) implies strictly_sorted(
                string_views(dir_map@[n]@),
            ) by {
                if n != parent@ {
                    assert(dir_map@[n] == m0[n]);
                }
            }
        }
    }
}

/// Detects the shared root prefix of the entry table, returning its length
/// in characters (zero when there is none).
#[verifier::loop_isolation(false)]
fn detect_prefix_len(raws: &Vec<RawEntry>) -> (plen: usize)
    ensures
        plen == root_prefix_len(raws@.map_values(|e: RawEntry| e@)),
        forall|i: int|
            0 <= i < raws@.len() ==> plen <= (#[trigger] raws@[i]).name@.len(),
{
    let ghost rv = raws@.map_values(|e: RawEntry| e@);
    if raws.len() == 0 {
        return 0;
    }
    let fname = &raws[0].name;
    let flen = fname.unicode_len();
    let mut p: usize = 0;
    while p < flen && fname.get_char(p) != '/'
        invariant
            p <= flen,
            flen == fname@.len(),
            fname@ == rv[0].0,
            forall|j: int| 0 <= j < p ==> rv[0].0[j] != '/',
        decreases flen - p,
    {
        p = p + 1;
    }
    proof {
        rv[0].0.index_of_first_ensures('/');
    }
    if p == flen {
        // No slash in the first name: no prefix.
        proof {
            assert(!rv[0].0.contains('/')) by {
                if rv[0].0.contains('/') {
                    let j = choose|j: int| 0 <= j < rv[0].0.len() && rv[0].0[j] == '/';
                }
            }
            assert(rv[0].0.index_of_first('/') is None);
        }
        return 0;
    }
    assert(rv[0].0[p as int] == '/');
    assert(rv[0].0.contains('/')) by {
        assert(rv[0].0[p as int] == '/');
    }
    let ghost fi = rv[0].0.index_of_first('/').unwrap();
    assert(fi == p) by {
        if fi < p {
            assert(rv[0].0[fi] != '/');
        }
    }
    let ghost prefix = rv[0].0.take(p as int).push('/');
    assert(prefix =~= rv[0].0.take(p as int + 1));
    // Check that every name starts with the prefix and the slash.
    let mut i: usize = 0;
    while i < raws.len()
        invariant
            i <= raws@.len(),
            rv == raws@.map_values(|e: RawEntry| e@),
            p < flen,
            flen == raws@[0].name@.len(),
            rv[0].0 == raws@[0].name@,
            rv[0].0[p as int] == '/',
            rv[0].0.index_of_first('/') == Some(p as int),
            prefix == rv[0].0.take(p as int).push('/'),
            prefix =~= rv[0].0.take(p as int + 1),
            forall|x: int| 0 <= x < i ==> starts_with((#[trigger] rv[x]).0, prefix),
        decreases raws@.len() - i,
    {
        let name = &raws[i].name;
        let nlen = name.unicode_len();
        if nlen < p + 1 {
            assert(!starts_with(rv[i as int].0, prefix));
            return 0;
        }
        let mut j: usize = 0;
        while j < p + 1
            invariant
                j <= p + 1,
                p + 1 <= nlen,
                nlen == name@.len(),
                p < flen,
                flen == raws@[0].name@.len(),
                name@ == rv[i as int].0,
                rv[0].0 == raws@[0].name@,
                i < raws@.len(),
                rv == raws@.map_values(|e: RawEntry| e@),
                forall|x: int| 0 <= x < j ==> rv[i as int].0[x] == rv[0].0[x],
            decreases p + 1 - j,
        {
            if name.get_char(j) != raws[0].name.get_char(j) {
                proof {
                    assert(rv[i as int].0[j as int] != rv[0].0[j as int]);
                    assert(!starts_with(rv[i as int].0, prefix)) by {
                        if starts_with(rv[i as int].0, prefix) {
                            assert(prefix.len() == p + 1);
                            assert(rv[i as int].0.take(p as int + 1) == prefix);
                            assert(rv[i as int].0.take(p as int + 1)[j as int] == rv[i as int].0[j as int]);
                            assert(prefix == rv[0].0.take(p as int + 1));
                            assert(rv[0].0.take(p as int + 1)[j as int] == rv[0].0[j as int]);
                        }
                    }
                }
                return 0;
            }
            j = j + 1;
        }
        proof {
            assert(starts_with(rv[i as int].0, prefix)) by {
                assert(rv[i as int].0.take(p as int + 1) =~= prefix);
            }
        }
        i = i + 1;
    }
    proof {
        assert(root_prefix_len(rv) == p);
        assert forall|x: int| 0 <= x < raws@.len() implies p <= (#[trigger] raws@[x]).name@.len() by {
            assert(starts_with(rv[x].0, prefix));
        }
    }
    p
}

/// A store over a zip archive held fully in memory.
pub struct ZipFs {
    buf: Vec<u8>,
    /// Canonical path (relative to the stripped root prefix) of every entry,
    /// explicit or synthesized.
    entries: PathMap<ZipEntry>,
    /// Canonical directory path (including root, the empty string) to the
    /// sorted names of its immediate children.
    dir_map: PathMap<Vec<String>>,
}

impl ZipFs {
    #[verifier::type_invariant]
    spec fn wf(&self) -> bool {
        &&& self.entries.wf()
        &&& self.dir_map.wf()
        &&& forall|n: Seq<char>| #[trigger]
            self.dir_map@.dom().contains(n) ==> strictly_sorted(string_views(self.dir_map@[n]@))
    }

    /// Builds the entry index and directory map from the entry table.
    #[verifier::loop_isolation(false)]
    fn build_maps(raws: &Vec<RawEntry>, plen: usize) -> (r: (PathMap<ZipEntry>, PathMap<
        Vec<String>,
    >))
        requires
            forall|i: int| 0 <= i < raws@.len() ==> plen <= (#[trigger] raws@[i]).name@.len(),
        ensures
            r.0.wf(),
            r.1.wf(),
            sorted_children(r.1@),
            r.0@ == zip_fold(
                raws@.map_values(|e: RawEntry| e@),
                plen as int,
                raws@.len() as int,
            ).0,
            name_sets(r.1@) == zip_fold(
                raws@.map_values(|e: RawEntry| e@),
                plen as int,
                raws@.len() as int,
            ).1,
    {
        let ghost rv = raws@.map_values(|e: RawEntry| e@);
        let mut entries: PathMap<ZipEntry> = PathMap::new();
        let mut dir_map: PathMap<Vec<String>> = PathMap::new();
        let mut k: usize = 0;
        while k < raws.len()
            invariant
                k <= raws@.len(),
                entries.wf(),
                dir_map.wf(),
                sorted_children(dir_map@),
                entries@ == zip_fold(rv, plen as int, k as int).0,
                name_sets(dir_map@) == zip_fold(rv, plen as int, k as int).1,
            decreases raws@.len() - k,
        {
            let ghost es_k = zip_fold(rv, plen as int, k as int).0;
            let ghost ds_k = zip_fold(rv, plen as int, k as int).1;
            let name = &raws[k].name;
            let nlen = name.unicode_len();
            let stripped = name.substring_char(plen, nlen);
            proof {
                assert(rv[k as int].0 == name@);
                assert(stripped@ =~= rv[k as int].0.skip(plen as int));
            }
            let segs = normalize_segments(stripped);
            let ghost sv = segs@.map_values(|t: String| t@);
            proof {
                assert(sv == entry_segs(rv[k as int], plen as int));
            }
            let is_dir = nlen > 0 && name.get_char(nlen - 1) == '/';
            proof {
                assert(is_dir == is_dir_name(rv[k as int].0));
            }
            let ghost es_next = if sv.len() > 0 {
                es_k.insert(
                    join_segs(sv),
                    ZipEntry { index: k, is_dir: is_dir_name(rv[k as int].0), len: rv[k as int].1 },
                )
            } else {
                es_k
            };
            if segs.len() > 0 {
                let path = crate::path::join_segments(&segs);
                entries.insert(path, ZipEntry { index: k, is_dir, len: raws[k].len });
            }
            assert(entries@ == es_next);
            let mut d: usize = 0;
            proof {
                assert(sv.take(0) =~= Seq::<Seq<char>>::empty());
            }
            while d < segs.len()
                invariant
                    d <= segs@.len(),
                    dir_map.wf(),
                    sorted_children(dir_map@),
                    name_sets(dir_map@) == add_ancestors(ds_k, sv.take(d as int)),
                decreases segs@.len() - d,
            {
                let parent = crate::path::join_segments_upto(&segs, d);
                let child = segs[d].clone();
                proof {
                    assert(sv.take(d as int + 1).drop_last() =~= sv.take(d as int));
                    assert(sv.take(d as int + 1).last() == sv[d as int]);
                    assert(child@ == sv[d as int]);
                }
                add_child(&mut dir_map, parent, child);
                proof {
                    assert(name_sets(dir_map@) == add_ancestors(ds_k, sv.take(d as int + 1)));
                }
                d = d + 1;
            }
            proof {
                assert(sv.take(sv.len() as int) =~= sv);
                assert(name_sets(dir_map@) == add_ancestors(ds_k, sv));
                assert(zip_fold(rv, plen as int, k as int + 1).0 == es_next);
                assert(zip_fold(rv, plen as int, k as int + 1).1 == add_ancestors(ds_k, sv));
            }
            k = k + 1;
        }
        (entries, dir_map)
    }

    /// Adds a synthetic directory entry for every non-root directory-map key
    /// not yet indexed.
    #[verifier::loop_isolation(false)]
    fn synthesize(entries: &mut PathMap<ZipEntry>, dir_map: &PathMap<Vec<String>>)
        requires
            old(entries).wf(),
            dir_map.wf(),
        ensures
            final(entries).wf(),
            final(entries)@ == synth_fold(old(entries)@, dir_map.key_seq()),
    {
        let ghost es0 = old(entries)@;
        let ghost keys = dir_map.key_seq();
        let n = dir_map.len();
        let mut i: usize = 0;
        proof {
            assert(keys.take(0) =~= Seq::<Seq<char>>::empty());
        }
        while i < n
            invariant
                i <= n,
                entries.wf(),
                entries@ == synth_fold(es0, keys.take(i as int)),
            decreases n - i,
        {
            proof {
                assert(keys.take(i as int + 1).drop_last() =~= keys.take(i as int));
                assert(keys.take(i as int + 1).last() == keys[i as int]);
            }
            let key = dir_map.key_at(i);
            if key.unicode_len() > 0 && !entries.contains_key(key.as_str()) {
                let owned = key.clone();
                entries.insert(owned, ZipEntry { index: 0, is_dir: true, len: 0 });
            }
            i = i + 1;
        }
        proof {
            assert(keys.take(keys.len() as int) =~= keys);
        }
    }

    /// Builds the store from a fully-read archive byte buffer, indexing the
    /// entry table once; fails exactly when the bytes do not parse as an
    /// archive.
    pub fn new(buf: Vec<u8>) -> (r: Result<ZipFs, FsError>)
        ensures
            r matches Ok(z) ==> archive_entries(buf@) matches Some(raws) && z.model() == Some(
                zip_model(buf@, raws),
            ),
            r is Err ==> archive_entries(buf@) is None,
            r matches Err(e) ==> e is Io,
    {
        let raws = match list_archive_entries(&buf) {
            Ok(v) => v,
            Err(e) => {
                return Err(e);
            },
        };
        let ghost rv = raws@.map_values(|e: RawEntry| e@);
        let plen = detect_prefix_len(&raws);
        let maps = Self::build_maps(&raws, plen);
        let mut entries = maps.0;
        let dir_map = maps.1;
        Self::synthesize(&mut entries, &dir_map);
        proof {
            let folded = zip_fold(rv, plen as int, rv.len() as int);
            let es_f = synth_entries(folded.0, folded.1);
            lemma_synth_fold(folded.0, dir_map.key_seq());
            dir_map.lemma_keys();
            assert(entries@ =~= es_f) by {
                assert forall|n: Seq<char>| #[trigger] entries@.dom().contains(n) implies es_f.dom().contains(n) by {
                    if !folded.0.dom().contains(n) {
                        assert(dir_map.key_seq().contains(n) && n.len() > 0);
                        let i = choose|i: int|
                            0 <= i < dir_map.key_seq().len() && dir_map.key_seq()[i] == n;
                        assert(dir_map@.dom().contains(n));
                        assert(folded.1.dom().contains(n));
                    }
                }
                assert forall|n: Seq<char>| #[trigger] es_f.dom().contains(n) implies entries@.dom().contains(n) by {
                    if !folded.0.dom().contains(n) {
                        assert(folded.1.dom().contains(n) && n.len() > 0);
                        assert(name_sets(dir_map@).dom().contains(n));
                        assert(dir_map@.dom().contains(n));
                        assert(dir_map.key_seq().contains(n));
                    }
                }
                assert forall|n: Seq<char>| #[trigger] entries@.dom().contains(n) implies entries@[n]
                    == es_f[n] by {}
            }
        }
        let z = ZipFs { buf, entries, dir_map };
        proof {
            let folded = zip_fold(rv, plen as int, rv.len() as int);
            let es_f = synth_entries(folded.0, folded.1);
            let m = z.model().unwrap();
            let zm = zip_model(z.buf@, rv);
            assert(m.entries =~= zm.entries);
            assert(m.files =~= zm.files);
            assert(m.dirs =~= zm.dirs) by {
                assert forall|n: Seq<char>| #[trigger] m.dirs.dom().contains(n) implies m.dirs[n]
                    == zm.dirs[n] by {
                    assert(folded.1[n] == string_views(z.dir_map@[n]@).to_set());
                    lemma_map_join_to_set(string_views(z.dir_map@[n]@), n);
                }
                assert forall|n: Seq<char>| #[trigger] zm.dirs.dom().contains(n) implies m.dirs.dom().contains(
                    n,
                ) by {
                    assert(name_sets(z.dir_map@).dom().contains(n));
                }
            }
            assert(m =~= zm);
        }
        Ok(z)
    }
}

/// Mapping a sequence and taking its set is taking its set and mapping it.
proof fn lemma_map_join_to_set(q: Seq<Seq<char>>, n: Seq<char>)
    ensures
        q.map_values(|c: Seq<char>| join_spec(n, c)).to_set() == q.to_set().map(
            |c: Seq<char>| join_spec(n, c),
        ),
{
    let f = |c: Seq<char>| join_spec(n, c);
    let lhs = q.map_values(f).to_set();
    let rhs = q.to_set().map(f);
    assert(lhs =~= rhs) by {
        assert forall|x: Seq<char>| lhs.contains(x) implies rhs.contains(x) by {
            let i = choose|i: int| 0 <= i < q.map_values(f).len() && q.map_values(f)[i] == x;
            assert(q.to_set().contains(q[i]));
            assert(f(q[i]) == x);
        }
        assert forall|x: Seq<char>| rhs.contains(x) implies lhs.contains(x) by {
            let c = choose|c: Seq<char>| q.to_set().contains(c) && x == f(c);
            let i = choose|i: int| 0 <= i < q.len() && q[i] == c;
            assert(q.map_values(f)[i] == x);
            assert(q.map_values(f).to_set().contains(q.map_values(f)[i]));
        }
    }
}

impl SimpleFs for ZipFs {
    closed spec fn model(&self) -> Option<StoreModel> {
        Some(
            StoreModel {
                entries: Map::new(
                    |n: Seq<char>| self.entries@.dom().contains(n),
                    |n: Seq<char>|
                        FileMetadata {
                            len: self.entries@[n].len,
                            is_dir: self.entries@[n].is_dir,
                        },
                ),
                files: Map::new(
                    |n: Seq<char>| self.entries@.dom().contains(n) && !self.entries@[n].is_dir,
                    |n: Seq<char>| archive_entry_data(self.buf@, self.entries@[n].index as int),
                ),
                dirs: Map::new(
                    |n: Seq<char>| self.dir_map@.dom().contains(n),
                    |n: Seq<char>|
                        string_views(self.dir_map@[n]@).map_values(
                            |c: Seq<char>| join_spec(n, c),
                        ).to_set(),
                ),
            },
        )
    }

    fn read_dir(&self, path: &str) -> (r: Result<Vec<String>, FsError>) {
        proof {
            use_type_invariant(&*self);
        }
        let normalized = normalize_path(path);
        let ghost n = norm_spec(path@);
        match self.dir_map.get(normalized.as_str()) {
            Some(children) => {
                let ghost cs = string_views(children@);
                let mut out: Vec<String> = Vec::new();
                let mut i: usize = 0;
                while i < children.len()
                    invariant
                        i <= children@.len(),
                        cs == string_views(children@),
                        normalized@ == n,
                        string_views(out@) =~= cs.take(i as int).map_values(
                            |c: Seq<char>| join_spec(n, c),
                        ),
                    decreases children@.len() - i,
                {
                    let full = crate::path::join_path(normalized.as_str(), children[i].as_str());
                    out.push(full);
                    proof {
                        assert(string_views(out@) =~= cs.take(i as int).map_values(
                            |c: Seq<char>| join_spec(n, c),
                        ).push(join_spec(n, cs[i as int])));
                        assert(cs.take(i as int).map_values(|c: Seq<char>| join_spec(n, c)).push(
                            join_spec(n, cs[i as int]),
                        ) =~= cs.take(i as int + 1).map_values(|c: Seq<char>| join_spec(n, c)));
                    }
                    i = i + 1;
                }
                proof {
                    assert(cs.take(cs.len() as int) =~= cs);
                    let mapped = cs.map_values(|c: Seq<char>| join_spec(n, c));
                    assert(string_views(out@) == mapped);
                    assert(strictly_sorted(mapped)) by {
                        assert forall|x: int, y: int| 0 <= x < y < mapped.len() implies lex_lt(
                            mapped[x],
                            mapped[y],
                        ) by {
                            assert(lex_lt(cs[x], cs[y]));
                            lemma_join_monotone(n, cs[x], cs[y]);
                        }
                    }
                    assert(mapped.to_set() =~= self.model().unwrap().dirs[n]) by {
                        let msets = string_views(self.dir_map@[n]@).map_values(
                            |c: Seq<char>| join_spec(n, c),
                        );
                        assert(mapped == msets);
                    }
                }
                Ok(out)
            },
            None => Err(FsError::NotFound),
        }
    }

    fn open_file(&self, path: &str) -> (r: Result<Vec<u8>, FsError>) {
        proof {
            use_type_invariant(&*self);
        }
        let normalized = normalize_path(path);
        match self.entries.get(normalized.as_str()) {
            Some(entry) => {
                if entry.is_dir {
                    Err(FsError::NotFound)
                } else {
                    read_archive_entry(&self.buf, entry.index)
                }
            },
            None => Err(FsError::NotFound),
        }
    }

    fn metadata(&self, path: &str) -> (r: Result<FileMetadata, FsError>) {
        proof {
            use_type_invariant(&*self);
        }
        let normalized = normalize_path(path);
        match self.entries.get(normalized.as_str()) {
            Some(entry) => Ok(FileMetadata { len: entry.len, is_dir: entry.is_dir }),
            None => Err(FsError::NotFound),
        }
    }

    fn exists_path(&self, path: &str) -> (r: bool) {
        proof {
            use_type_invariant(&*self);
        }
        let normalized = normalize_path(path);
        self.entries.contains_key(normalized.as_str())
    }
}

/// Joining a fixed directory path preserves the order of child names.
proof fn lemma_join_monotone(parent: Seq<char>, a: Seq<char>, b: Seq<char>)
    requires
        lex_lt(a, b),
    ensures
        lex_lt(join_spec(parent, a), join_spec(parent, b)),
{
    assert(b.len() > 0);
    if parent.len() == 0 {
    } else if a.len() == 0 {
        assert(join_spec(parent, a) == parent);
        assert(join_spec(parent, b) == parent + seq!['/'] + b);
        assert(parent + seq!['/'] + b =~= parent + (seq!['/'] + b));
        lemma_lex_proper_prefix(parent, seq!['/'] + b);
    } else {
        let p = parent + seq!['/'];
        assert(parent + seq!['/'] + a =~= p + a);
        assert(parent + seq!['/'] + b =~= p + b);
        lemma_lex_prefix(p, a, b);
    }
}

} // verus!
