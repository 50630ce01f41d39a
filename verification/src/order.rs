//! Lexicographic order on paths.
//!
//! Directory listings are kept strictly sorted in this order so that every
//! listing a store returns is deterministic: a strictly sorted sequence is
//! the unique such representation of its set of paths.

use vstd::prelude::*;

verus! {

/// Strict lexicographic order on character sequences, by code point.
pub open spec fn lex_lt(a: Seq<char>, b: Seq<char>) -> bool
    decreases a.len(),
{
    if b.len() == 0 {
        false
    } else if a.len() == 0 {
        true
    } else if a[0] < b[0] {
        true
    } else if a[0] == b[0] {
        lex_lt(a.skip(1), b.skip(1))
    } else {
        false
    }
}

/// Strictly sorted (hence duplicate-free) in lexicographic order.
pub open spec fn strictly_sorted(q: Seq<Seq<char>>) -> bool {
    forall|i: int, j: int| 0 <= i < j < q.len() ==> lex_lt(q[i], q[j])
}

/// Of two distinct sequences, exactly one precedes the other.
pub proof fn lemma_lex_total(a: Seq<char>, b: Seq<char>)
    ensures
        lex_lt(a, b) || lex_lt(b, a) || a == b,
        lex_lt(a, b) ==> !lex_lt(b, a),
        lex_lt(a, b) ==> a != b,
    decreases a.len() + b.len(),
{
    if b.len() == 0 || a.len() == 0 {
        if a.len() == 0 && b.len() == 0 {
            assert(a =~= b);
        }
    } else {
        if a[0] == b[0] {
            lemma_lex_total(a.skip(1), b.skip(1));
            if a.skip(1) == b.skip(1) {
                assert(a =~= b) by {
                    assert forall|i: int| 0 <= i < a.len() implies a[i] == b[i] by {
                        if i > 0 {
                            assert(a.skip(1)[i - 1] == a[i]);
                            assert(b.skip(1)[i - 1] == b[i]);
                        }
                    }
                }
            }
            if a != b {
                assert(a.skip(1) != b.skip(1)) by {
                    if a.skip(1) =~= b.skip(1) {
                        assert forall|i: int| 0 <= i < a.len() implies a[i] == b[i] by {
                            if i > 0 {
                                assert(a.skip(1)[i - 1] == a[i]);
                            }
                        }
                        assert(a =~= b);
                    }
                }
            }
        }
    }
}

/// Lexicographic order is transitive.
pub proof fn lemma_lex_trans(a: Seq<char>, b: Seq<char>, c: Seq<char>)
    requires
        lex_lt(a, b),
        lex_lt(b, c),
    ensures
        lex_lt(a, c),
    decreases a.len() + b.len() + c.len(),
{
    if a.len() == 0 {
        assert(c.len() > 0);
    } else {
        assert(b.len() > 0 && c.len() > 0);
        if a[0] == b[0] && b[0] == c[0] {
            lemma_lex_trans(a.skip(1), b.skip(1), c.skip(1));
        }
    }
}

/// Two strictly sorted sequences holding the same set of paths are equal.
pub proof fn lemma_sorted_unique(p: Seq<Seq<char>>, q: Seq<Seq<char>>)
    requires
        strictly_sorted(p),
        strictly_sorted(q),
        p.to_set() == q.to_set(),
    ensures
        p == q,
    decreases p.len(),
{
    if p.len() == 0 {
        if q.len() > 0 {
            assert(q.to_set().contains(q[0]));
            assert(p.to_set().contains(q[0]));
        }
        assert(p =~= q);
    } else {
        assert(p.to_set().contains(p[0]));
        assert(q.to_set().contains(p[0]));
        assert(q.len() > 0);
        // The heads are both the unique minimum of the shared set.
        assert(q.to_set().contains(q[0]));
        assert(p.to_set().contains(q[0]));
        let ip = choose|ip: int| 0 <= ip < p.len() && p[ip] == q[0];
        let iq = choose|iq: int| 0 <= iq < q.len() && q[iq] == p[0];
        assert(0 <= ip < p.len() && p[ip] == q[0]);
        assert(0 <= iq < q.len() && q[iq] == p[0]);
        lemma_lex_total(p[0], q[0]);
        if p[0] != q[0] {
            if lex_lt(p[0], q[0]) {
                // p[0] is in q strictly after q[0], contradicting q[iq] == p[0] < q[0]...
                assert(iq != 0);
                assert(lex_lt(q[0], q[iq]));
                lemma_lex_total(q[0], q[iq]);
            } else {
                assert(ip != 0);
                assert(lex_lt(p[0], p[ip]));
                lemma_lex_total(p[0], p[ip]);
            }
        }
        assert(p[0] == q[0]);
        let pt = p.skip(1);
        let qt = q.skip(1);
        assert(strictly_sorted(pt)) by {
            assert forall|i: int, j: int| 0 <= i < j < pt.len() implies lex_lt(pt[i], pt[j]) by {
                assert(pt[i] == p[i + 1] && pt[j] == p[j + 1]);
            }
        }
        assert(strictly_sorted(qt)) by {
            assert forall|i: int, j: int| 0 <= i < j < qt.len() implies lex_lt(qt[i], qt[j]) by {
                assert(qt[i] == q[i + 1] && qt[j] == q[j + 1]);
            }
        }
        assert(pt.to_set() == qt.to_set()) by {
            assert forall|x: Seq<char>| pt.to_set().contains(x) implies qt.to_set().contains(x) by {
                let i = choose|i: int| 0 <= i < pt.len() && pt[i] == x;
                assert(p[i + 1] == x);
                assert(lex_lt(p[0], x));
                assert(q.to_set().contains(x));
                let j = choose|j: int| 0 <= j < q.len() && q[j] == x;
                lemma_lex_total(q[0], x);
                assert(j != 0);
                assert(qt[j - 1] == x);
                assert(qt.to_set().contains(qt[j - 1]));
            }
            assert forall|x: Seq<char>| qt.to_set().contains(x) implies pt.to_set().contains(x) by {
                let i = choose|i: int| 0 <= i < qt.len() && qt[i] == x;
                assert(q[i + 1] == x);
                assert(lex_lt(q[0], x));
                assert(p.to_set().contains(x));
                let j = choose|j: int| 0 <= j < p.len() && p[j] == x;
                lemma_lex_total(p[0], x);
                assert(j != 0);
                assert(pt[j - 1] == x);
                assert(pt.to_set().contains(pt[j - 1]));
            }
            assert(pt.to_set() =~= qt.to_set());
        }
        lemma_sorted_unique(pt, qt);
        assert(p =~= q) by {
            assert forall|i: int| 0 <= i < p.len() implies p[i] == q[i] by {
                if i > 0 {
                    assert(pt[i - 1] == p[i] && qt[i - 1] == q[i]);
                }
            }
        }
    }
}

/// Prepending a shared prefix preserves the order of the remainders.
pub proof fn lemma_lex_prefix(p: Seq<char>, a: Seq<char>, b: Seq<char>)
    requires
        lex_lt(a, b),
    ensures
        lex_lt(p + a, p + b),
    decreases p.len(),
{
    if p.len() == 0 {
        assert(p + a =~= a);
        assert(p + b =~= b);
    } else {
        assert((p + a).len() > 0 && (p + b).len() > 0);
        assert((p + a)[0] == p[0] && (p + b)[0] == p[0]);
        assert((p + a).skip(1) =~= p.skip(1) + a);
        assert((p + b).skip(1) =~= p.skip(1) + b);
        lemma_lex_prefix(p.skip(1), a, b);
    }
}

/// A sequence strictly precedes any proper extension of itself.
pub proof fn lemma_lex_proper_prefix(p: Seq<char>, ext: Seq<char>)
    requires
        ext.len() > 0,
    ensures
        lex_lt(p, p + ext),
    decreases p.len(),
{
    if p.len() == 0 {
        assert(p + ext =~= ext);
    } else {
        assert((p + ext)[0] == p[0]);
        assert((p + ext).skip(1) =~= p.skip(1) + ext);
        lemma_lex_proper_prefix(p.skip(1), ext);
    }
}

/// Executable lexicographic comparison of two strings.
pub fn str_lt(a: &str, b: &str) -> (r: bool)
    ensures
        r == lex_lt(a@, b@),
{
    let an = a.unicode_len();
    let bn = b.unicode_len();
    let mut i: usize = 0;
    assert(a@.skip(0) =~= a@);
    assert(b@.skip(0) =~= b@);
    loop
        invariant
            i <= an,
            i <= bn,
            an == a@.len(),
            bn == b@.len(),
            lex_lt(a@, b@) == lex_lt(a@.skip(i as int), b@.skip(i as int)),
        decreases an - i,
    {
        proof {
            if i < an && i < bn {
                assert(a@.skip(i as int)[0] == a@[i as int]);
                assert(b@.skip(i as int)[0] == b@[i as int]);
                assert(a@.skip(i as int).skip(1) =~= a@.skip(i as int + 1));
                assert(b@.skip(i as int).skip(1) =~= b@.skip(i as int + 1));
            }
        }
        if i >= bn {
            return false;
        }
        if i >= an {
            return true;
        }
        let ca = a.get_char(i);
        let cb = b.get_char(i);
        if ca < cb {
            return true;
        }
        if cb < ca {
            return false;
        }
        i = i + 1;
    }
}

/// Executable equality of two string slices, by characters.
pub fn str_eq(a: &str, b: &str) -> (r: bool)
    ensures
        r == (a@ == b@),
{
    let an = a.unicode_len();
    let bn = b.unicode_len();
    if an != bn {
        return false;
    }
    let mut i: usize = 0;
    while i < an
        invariant
            i <= an,
            an == a@.len(),
            an == b@.len(),
            forall|j: int| 0 <= j < i ==> a@[j] == b@[j],
        decreases an - i,
    {
        if a.get_char(i) != b.get_char(i) {
            return false;
        }
        i = i + 1;
    }
    proof {
        assert(a@ =~= b@);
    }
    true
}

/// The view of a string vector as a sequence of character sequences.
pub open spec fn string_views(q: Seq<String>) -> Seq<Seq<char>> {
    q.map_values(|t: String| t@)
}

/// Inserts a path into a strictly sorted vector, keeping it strictly sorted;
/// the set of paths gains the new one, and nothing else changes.
pub fn sorted_insert(v: &mut Vec<String>, s: String)
    requires
        strictly_sorted(string_views(old(v)@)),
    ensures
        strictly_sorted(string_views(final(v)@)),
        string_views(final(v)@).to_set() == string_views(old(v)@).to_set().insert(s@),
{
    let ghost q = string_views(v@);
    let mut i: usize = 0;
    while i < v.len() && str_lt(v[i].as_str(), s.as_str())
        invariant
            i <= v@.len(),
            q == string_views(v@),
            strictly_sorted(q),
            forall|j: int| 0 <= j < i ==> lex_lt(#[trigger] q[j], s@),
        decreases v@.len() - i,
    {
        i = i + 1;
    }
    if i < v.len() && v[i] == s {
        // Already present.
        proof {
            assert(q[i as int] == s@);
            assert(q.to_set().contains(q[i as int]));
            assert(q.to_set() =~= q.to_set().insert(s@));
        }
    } else {
        proof {
            if i < v.len() {
                lemma_lex_total(q[i as int], s@);
                assert(lex_lt(s@, q[i as int]));
            }
        }
        v.insert(i, s);
        proof {
            let r = string_views(v@);
            assert forall|j: int| 0 <= j < r.len() implies r[j] == (if j < i {
                q[j]
            } else if j == i {
                s@
            } else {
                q[j - 1]
            }) by {}
            assert(strictly_sorted(r)) by {
                assert forall|x: int, y: int| 0 <= x < y < r.len() implies lex_lt(r[x], r[y]) by {
                    if x == i && y > i {
                        // s@ < q[i] <= q[y - 1]
                        assert(y - 1 >= i && y - 1 < q.len());
                        if y - 1 > i {
                            lemma_lex_trans(s@, q[i as int], q[y - 1]);
                        }
                    } else if x < i && y > i {
                        assert(x < y - 1 < q.len());
                        assert(lex_lt(q[x], q[y - 1]));
                    }
                }
            }
            assert(r.to_set() =~= q.to_set().insert(s@)) by {
                assert forall|x: Seq<char>| r.to_set().contains(x) implies q.to_set().insert(
                    s@,
                ).contains(x) by {
                    let j = choose|j: int| 0 <= j < r.len() && r[j] == x;
                    if j < i {
                        assert(q[j] == x);
                        assert(q.to_set().contains(q[j]));
                    } else if j > i {
                        assert(q[j - 1] == x);
                        assert(q.to_set().contains(q[j - 1]));
                    }
                }
                assert forall|x: Seq<char>| q.to_set().insert(s@).contains(x) implies r.to_set()
                    .contains(x) by {
                    if x == s@ {
                        assert(r[i as int] == s@);
                        assert(r.to_set().contains(r[i as int]));
                    } else {
                        let j = choose|j: int| 0 <= j < q.len() && q[j] == x;
                        if j < i {
                            assert(r[j] == x);
                            assert(r.to_set().contains(r[j]));
                        } else {
                            assert(r[j + 1] == x);
                            assert(r.to_set().contains(r[j + 1]));
                        }
                    }
                }
            }
        }
    }
}

} // verus!
