//! Canonical paths.
//!
//! A canonical path has no leading or trailing `/`, no empty, `.` or `..`
//! segments, and uses a single `/` between segments; the root directory is
//! the empty string.  `normalize_path` turns arbitrary slash-separated input
//! into this form and is the only place path syntax is interpreted.

use vstd::prelude::*;

verus! {

/// Folds one raw segment onto a stack of accepted segments: empty and `.`
/// segments are dropped, `..` pops the last accepted segment if there is one
/// (and is ignored at root), anything else is accepted.
pub open spec fn push_seg(st: Seq<Seq<char>>, seg: Seq<char>) -> Seq<Seq<char>> {
    if seg.len() == 0 || seg == seq!['.'] {
        st
    } else if seg == seq!['.', '.'] {
        if st.len() > 0 {
            st.drop_last()
        } else {
            st
        }
    } else {
        st.push(seg)
    }
}

/// The segment stack after scanning the remaining input `s`, given the
/// already-accepted segments `st` and the partial segment `cur` read so far.
pub open spec fn norm_stack(st: Seq<Seq<char>>, cur: Seq<char>, s: Seq<char>) -> Seq<Seq<char>>
    decreases s.len(),
{
    if s.len() == 0 {
        push_seg(st, cur)
    } else if s[0] == '/' {
        norm_stack(push_seg(st, cur), Seq::empty(), s.skip(1))
    } else {
        norm_stack(st, cur.push(s[0]), s.skip(1))
    }
}

/// The canonical segments of an arbitrary slash-separated input.
pub open spec fn norm_segs(s: Seq<char>) -> Seq<Seq<char>> {
    norm_stack(Seq::empty(), Seq::empty(), s)
}

/// Joins segments with a single `/` between them; no segments is the empty
/// string (root).
pub open spec fn join_segs(segs: Seq<Seq<char>>) -> Seq<char>
    decreases segs.len(),
{
    if segs.len() == 0 {
        Seq::empty()
    } else if segs.len() == 1 {
        segs[0]
    } else {
        segs[0] + seq!['/'] + join_segs(segs.skip(1))
    }
}

/// The canonical form of an arbitrary slash-separated input.
pub open spec fn norm_spec(s: Seq<char>) -> Seq<char> {
    join_segs(norm_segs(s))
}

/// A segment that may appear in a canonical path: non-empty, holds no `/`,
/// and is neither `.` nor `..`.
pub open spec fn is_normal_seg(seg: Seq<char>) -> bool {
    &&& seg.len() > 0
    &&& !seg.contains('/')
    &&& seg != seq!['.']
    &&& seg != seq!['.', '.']
}

/// Every segment of the sequence may appear in a canonical path.
pub open spec fn canonical_segs(segs: Seq<Seq<char>>) -> bool {
    forall|i: int| 0 <= i < segs.len() ==> is_normal_seg(#[trigger] segs[i])
}

/// A string already in canonical form.
pub open spec fn is_canonical(s: Seq<char>) -> bool {
    norm_spec(s) == s
}

/// `join_path`'s result: `b` if `a` is root, `a` if `b` is empty, else the
/// two joined with a single `/`.
pub open spec fn join_spec(a: Seq<char>, b: Seq<char>) -> Seq<char> {
    if a.len() == 0 {
        b
    } else if b.len() == 0 {
        a
    } else {
        a + seq!['/'] + b
    }
}

proof fn lemma_push_seg_canonical(st: Seq<Seq<char>>, seg: Seq<char>)
    requires
        canonical_segs(st),
        !seg.contains('/'),
    ensures
        canonical_segs(push_seg(st, seg)),
{
    if seg.len() == 0 || seg == seq!['.'] || seg == seq!['.', '.'] {
        assert forall|i: int| 0 <= i < push_seg(st, seg).len() implies is_normal_seg(
            #[trigger] push_seg(st, seg)[i],
        ) by {
            assert(push_seg(st, seg)[i] == st[i]);
        }
    } else {
        assert forall|i: int| 0 <= i < push_seg(st, seg).len() implies is_normal_seg(
            #[trigger] push_seg(st, seg)[i],
        ) by {
            if i < st.len() {
                assert(push_seg(st, seg)[i] == st[i]);
            } else {
                assert(push_seg(st, seg)[i] == seg);
            }
        }
    }
}

proof fn lemma_norm_stack_canonical(st: Seq<Seq<char>>, cur: Seq<char>, s: Seq<char>)
    requires
        canonical_segs(st),
        !cur.contains('/'),
    ensures
        canonical_segs(norm_stack(st, cur, s)),
    decreases s.len(),
{
    if s.len() == 0 {
        lemma_push_seg_canonical(st, cur);
    } else if s[0] == '/' {
        lemma_push_seg_canonical(st, cur);
        lemma_norm_stack_canonical(push_seg(st, cur), Seq::empty(), s.skip(1));
    } else {
        assert forall|j: int| 0 <= j < cur.push(s[0]).len() implies cur.push(s[0])[j] != '/' by {
            if j < cur.len() {
                assert(cur.push(s[0])[j] == cur[j]);
                assert(!cur.contains('/'));
            }
        }
        assert(!cur.push(s[0]).contains('/'));
        lemma_norm_stack_canonical(st, cur.push(s[0]), s.skip(1));
    }
}

/// The canonical segments of any input are themselves canonical.
pub proof fn lemma_norm_segs_canonical(s: Seq<char>)
    ensures
        canonical_segs(norm_segs(s)),
{
    lemma_norm_stack_canonical(Seq::empty(), Seq::empty(), s);
}

/// Scanning a slash-free chunk only extends the partial segment.
proof fn lemma_scan_no_slash(st: Seq<Seq<char>>, cur: Seq<char>, seg: Seq<char>, rest: Seq<char>)
    requires
        !seg.contains('/'),
    ensures
        norm_stack(st, cur, seg + rest) == norm_stack(st, cur + seg, rest),
    decreases seg.len(),
{
    if seg.len() == 0 {
        assert(seg + rest =~= rest);
        assert(cur + seg =~= cur);
    } else {
        assert(seg.contains(seg[0])) by {
            assert(seg[0] == seg[0]);
        }
        assert(seg[0] != '/');
        assert((seg + rest)[0] == seg[0]);
        assert((seg + rest).len() > 0);
        assert((seg + rest).skip(1) =~= seg.skip(1) + rest);
        assert forall|j: int| 0 <= j < seg.skip(1).len() implies seg.skip(1)[j] != '/' by {
            assert(seg.skip(1)[j] == seg[j + 1]);
            assert(!seg.contains('/'));
        }
        assert(!seg.skip(1).contains('/'));
        lemma_scan_no_slash(st, cur.push(seg[0]), seg.skip(1), rest);
        assert(cur.push(seg[0]) + seg.skip(1) =~= cur + seg);
    }
}

/// Normalizing the joined form of canonical segments appends exactly those
/// segments to the stack.
proof fn lemma_norm_stack_of_join(st: Seq<Seq<char>>, segs: Seq<Seq<char>>)
    requires
        canonical_segs(segs),
    ensures
        norm_stack(st, Seq::empty(), join_segs(segs)) == st + segs,
    decreases segs.len(),
{
    if segs.len() == 0 {
        assert(norm_stack(st, Seq::empty(), Seq::empty()) == push_seg(st, Seq::empty()));
        assert(st + segs =~= st);
    } else if segs.len() == 1 {
        assert(is_normal_seg(segs[0]));
        assert(join_segs(segs) == segs[0]);
        assert(segs[0] + Seq::<char>::empty() =~= segs[0]);
        lemma_scan_no_slash(st, Seq::empty(), segs[0], Seq::empty());
        assert(Seq::<char>::empty() + segs[0] =~= segs[0]);
        assert(norm_stack(st, segs[0], Seq::empty()) == push_seg(st, segs[0]));
        assert(push_seg(st, segs[0]) == st.push(segs[0]));
        assert(st.push(segs[0]) =~= st + segs);
    } else {
        assert(is_normal_seg(segs[0]));
        let rest = seq!['/'] + join_segs(segs.skip(1));
        assert(join_segs(segs) == segs[0] + seq!['/'] + join_segs(segs.skip(1)));
        assert(join_segs(segs) =~= segs[0] + rest);
        lemma_scan_no_slash(st, Seq::empty(), segs[0], rest);
        assert(Seq::<char>::empty() + segs[0] =~= segs[0]);
        assert(rest[0] == '/');
        assert(rest.skip(1) =~= join_segs(segs.skip(1)));
        assert(norm_stack(st, segs[0], rest) == norm_stack(
            push_seg(st, segs[0]),
            Seq::empty(),
            rest.skip(1),
        ));
        assert(push_seg(st, segs[0]) == st.push(segs[0]));
        assert(canonical_segs(segs.skip(1))) by {
            assert forall|i: int| 0 <= i < segs.skip(1).len() implies is_normal_seg(
                #[trigger] segs.skip(1)[i],
            ) by {
                assert(segs.skip(1)[i] == segs[i + 1]);
            }
        }
        lemma_norm_stack_of_join(st.push(segs[0]), segs.skip(1));
        assert(st.push(segs[0]) + segs.skip(1) =~= st + segs);
    }
}

/// Joining canonical segments and normalizing the result gives the segments
/// back unchanged.
pub proof fn lemma_norm_segs_of_join(segs: Seq<Seq<char>>)
    requires
        canonical_segs(segs),
    ensures
        norm_segs(join_segs(segs)) == segs,
{
    lemma_norm_stack_of_join(Seq::empty(), segs);
    assert(Seq::<Seq<char>>::empty() + segs =~= segs);
}

/// Normalization is idempotent: normalizing a canonical path changes nothing.
pub proof fn lemma_normalize_idempotent(s: Seq<char>)
    ensures
        norm_spec(norm_spec(s)) == norm_spec(s),
        is_canonical(norm_spec(s)),
{
    lemma_norm_segs_canonical(s);
    lemma_norm_segs_of_join(norm_segs(s));
}

/// Appending one more segment to a joined path appends `/` and the segment
/// (or is the segment itself at root).
proof fn lemma_join_segs_push(segs: Seq<Seq<char>>, x: Seq<char>)
    ensures
        join_segs(segs.push(x)) == if segs.len() == 0 {
            x
        } else {
            join_segs(segs) + seq!['/'] + x
        },
    decreases segs.len(),
{
    let p = segs.push(x);
    if segs.len() == 0 {
        assert(p.len() == 1);
        assert(join_segs(p) == p[0]);
        assert(p[0] == x);
    } else {
        assert(p.len() >= 2);
        assert(join_segs(p) == p[0] + seq!['/'] + join_segs(p.skip(1)));
        assert(p.skip(1) =~= segs.skip(1).push(x));
        lemma_join_segs_push(segs.skip(1), x);
        if segs.len() == 1 {
            assert(segs.skip(1).len() == 0);
            assert(join_segs(p.skip(1)) == x);
            assert(join_segs(segs) == segs[0]);
            assert(p[0] == segs[0]);
            assert(p[0] + seq!['/'] + x == join_segs(segs) + seq!['/'] + x);
        } else {
            assert(join_segs(p.skip(1)) == join_segs(segs.skip(1)) + seq!['/'] + x);
            assert(join_segs(segs) == segs[0] + seq!['/'] + join_segs(segs.skip(1)));
            assert(p[0] + seq!['/'] + (join_segs(segs.skip(1)) + seq!['/'] + x) =~= (segs[0]
                + seq!['/'] + join_segs(segs.skip(1))) + seq!['/'] + x);
        }
    }
}

/// Classifies one complete raw segment and folds it onto the stack.
fn flush_segment(segs: &mut Vec<String>, seg: &str)
    ensures
        final(segs)@.map_values(|t: String| t@) == push_seg(
            old(segs)@.map_values(|t: String| t@),
            seg@,
        ),
{
    let ghost st = old(segs)@.map_values(|t: String| t@);
    let n = seg.unicode_len();
    if n == 0 {
        assert(st =~= push_seg(st, seg@));
    } else if n == 1 && seg.get_char(0) == '.' {
        assert(seg@ =~= seq!['.']);
        assert(st =~= push_seg(st, seg@));
    } else if n == 2 && seg.get_char(0) == '.' && seg.get_char(1) == '.' {
        assert(seg@ =~= seq!['.', '.']);
        if segs.len() > 0 {
            segs.pop();
            assert(segs@.map_values(|t: String| t@) =~= st.drop_last());
        }
    } else {
        assert(seg@ != seq!['.'] && seg@ != seq!['.', '.']) by {
            if seg@ == seq!['.'] {
                assert(seg@.len() == 1);
            }
            if seg@ == seq!['.', '.'] {
                assert(seg@.len() == 2);
                assert(seg@[0] == '.' && seg@[1] == '.');
            }
        }
        segs.push(seg.to_owned());
        assert(segs@.map_values(|t: String| t@) =~= st.push(seg@));
    }
}

/// Splits the input on `/` and folds each segment, yielding the canonical
/// segments of the input.
pub fn normalize_segments(path: &str) -> (segs: Vec<String>)
    ensures
        segs@.map_values(|t: String| t@) == norm_segs(path@),
        canonical_segs(segs@.map_values(|t: String| t@)),
{
    let ghost s = path@;
    let n = path.unicode_len();
    let mut segs: Vec<String> = Vec::new();
    let mut start: usize = 0;
    let mut i: usize = 0;
    assert(segs@.map_values(|t: String| t@) =~= Seq::<Seq<char>>::empty());
    assert(s.subrange(0, 0) =~= Seq::<char>::empty());
    assert(s.skip(0) =~= s);
    while i < n
        invariant
            start <= i <= n,
            n == s.len(),
            s == path@,
            norm_segs(s) == norm_stack(
                segs@.map_values(|t: String| t@),
                s.subrange(start as int, i as int),
                s.skip(i as int),
            ),
        decreases n - i,
    {
        let ghost st = segs@.map_values(|t: String| t@);
        let ghost cur = s.subrange(start as int, i as int);
        let c = path.get_char(i);
        if c == '/' {
            let seg = path.substring_char(start, i);
            assert(s.skip(i as int)[0] == '/');
            assert(s.skip(i as int).skip(1) =~= s.skip(i as int + 1));
            flush_segment(&mut segs, seg);
            start = i + 1;
            i = i + 1;
            assert(s.subrange(start as int, i as int) =~= Seq::<char>::empty());
        } else {
            assert(s.skip(i as int)[0] == s[i as int]);
            assert(s.skip(i as int).skip(1) =~= s.skip(i as int + 1));
            assert(cur.push(s[i as int]) =~= s.subrange(start as int, i as int + 1));
            i = i + 1;
        }
    }
    assert(s.skip(n as int) =~= Seq::<char>::empty());
    let seg = path.substring_char(start, n);
    flush_segment(&mut segs, seg);
    proof {
        lemma_norm_segs_canonical(s);
    }
    segs
}

/// Joins the first `d` of the given segments into one string.
pub fn join_segments_upto(segs: &Vec<String>, d: usize) -> (out: String)
    requires
        d <= segs@.len(),
    ensures
        out@ == join_segs(segs@.map_values(|t: String| t@).take(d as int)),
{
    let ghost q = segs@.map_values(|t: String| t@).take(d as int);
    let mut out = String::new();
    let mut i: usize = 0;
    assert(q.subrange(0, 0) =~= Seq::<Seq<char>>::empty());
    while i < d
        invariant
            i <= d <= segs@.len(),
            q == segs@.map_values(|t: String| t@).take(d as int),
            out@ == join_segs(q.subrange(0, i as int)),
        decreases d - i,
    {
        let ghost sofar = q.subrange(0, i as int);
        if i > 0 {
            out.append("/");
            proof {
                reveal_strlit("/");
            }
        }
        out.append(segs[i].as_str());
        proof {
            lemma_join_segs_push(sofar, q[i as int]);
            assert(sofar.push(q[i as int]) =~= q.subrange(0, i as int + 1));
            if i > 0 {
                assert(out@ == join_segs(sofar) + "/"@ + q[i as int]);
                assert("/"@ =~= seq!['/']);
            }
        }
        i = i + 1;
    }
    assert(q.subrange(0, q.len() as int) =~= q);
    out
}

/// Joins canonical segments back into one canonical string.
pub fn join_segments(segs: &Vec<String>) -> (out: String)
    ensures
        out@ == join_segs(segs@.map_values(|t: String| t@)),
{
    let out = join_segments_upto(segs, segs.len());
    proof {
        assert(segs@.map_values(|t: String| t@).take(segs@.len() as int) =~= segs@.map_values(
            |t: String| t@,
        ));
    }
    out
}

/// Normalizes a slash-separated path to canonical form: no leading or
/// trailing slash, `.` dropped, `..` resolved against preceding segments
/// (ignored at root), root as the empty string.
pub fn normalize_path(path: &str) -> (out: String)
    ensures
        out@ == norm_spec(path@),
{
    let segs = normalize_segments(path);
    join_segments(&segs)
}

/// Joins a canonical directory path and a child path with a single `/`;
/// either side may be empty.
pub fn join_path(lhs: &str, rhs: &str) -> (out: String)
    ensures
        out@ == join_spec(lhs@, rhs@),
{
    if lhs.unicode_len() == 0 {
        rhs.to_owned()
    } else if rhs.unicode_len() == 0 {
        lhs.to_owned()
    } else {
        let mut out = lhs.to_owned();
        out.append("/");
        out.append(rhs);
        proof {
            reveal_strlit("/");
            assert("/"@ =~= seq!['/']);
        }
        out
    }
}

} // verus!
