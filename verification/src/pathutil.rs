//! Absolute paths as sequences of segments.
//!
//! A path is a `Vec<String>` of non-separator runs: `/usr/lib` is
//! `["usr", "lib"]` and the root `/` is the empty vector. Keeping paths
//! split keeps ordering and normalization component-wise, which is what
//! the file inventory and the package databases need.

use vstd::prelude::*;

use crate::strutil::str_eq;

verus! {

/// One folding step of the segment splitter: `acc` is the pair of
/// (finished segments, current run); `c` is the next character.
pub open spec fn seg_step(
    acc: (Seq<Seq<char>>, Seq<char>),
    c: char,
) -> (Seq<Seq<char>>, Seq<char>) {
    if c == '/' {
        if acc.1.len() > 0 {
            (acc.0.push(acc.1), Seq::empty())
        } else {
            acc
        }
    } else {
        (acc.0, acc.1.push(c))
    }
}

/// Fold of [`seg_step`] over a character sequence.
pub open spec fn seg_fold(s: Seq<char>) -> (Seq<Seq<char>>, Seq<char>)
    decreases s.len(),
{
    if s.len() == 0 {
        (Seq::empty(), Seq::empty())
    } else {
        seg_step(seg_fold(s.drop_last()), s.last())
    }
}

/// The maximal non-empty runs of non-`/` characters of `s`, in order.
pub open spec fn spec_segments(s: Seq<char>) -> Seq<Seq<char>> {
    let f = seg_fold(s);
    if f.1.len() > 0 {
        f.0.push(f.1)
    } else {
        f.0
    }
}

/// Split a path string into its segments; separators and empty runs
/// disappear, so absolute and relative spellings parse alike.
pub fn split_segments(s: &str) -> (r: Vec<String>)
    ensures
        r.deep_view() == spec_segments(s@),
{
    let n = s.unicode_len();
    let mut segs: Vec<String> = Vec::new();
    let mut start: usize = 0;
    let mut i: usize = 0;
    while i < n
        invariant
            start <= i <= n,
            n == s@.len(),
            seg_fold(s@.subrange(0, i as int)).0 =~= segs.deep_view(),
            seg_fold(s@.subrange(0, i as int)).1 =~= s@.subrange(start as int, i as int),
        decreases n - i,
    {
        let ghost pre = seg_fold(s@.subrange(0, i as int));
        proof {
            assert(s@.subrange(0, i + 1).drop_last() =~= s@.subrange(0, i as int));
            assert(s@.subrange(0, i + 1).last() == s@[i as int]);
        }
        let c = s.get_char(i);
        if c == '/' {
            if start < i {
                let ghost pre_segs = segs.deep_view();
                let piece = s.substring_char(start, i).to_owned();
                segs.push(piece);
                proof {
                    assert(segs.deep_view() =~= pre_segs.push(piece@));
                    assert(seg_fold(s@.subrange(0, i + 1)).0 =~= segs.deep_view());
                }
            }
            start = i + 1;
            proof {
                assert(seg_fold(s@.subrange(0, i + 1)).1 =~= s@.subrange(
                    start as int,
                    i + 1,
                ));
            }
        } else {
            proof {
                assert(seg_fold(s@.subrange(0, i + 1)).1 =~= s@.subrange(start as int, i + 1));
            }
        }
        i = i + 1;
    }
    proof {
        assert(s@.subrange(0, n as int) =~= s@);
    }
    if start < n {
        let ghost pre_segs = segs.deep_view();
        let piece = s.substring_char(start, n).to_owned();
        segs.push(piece);
        proof {
            assert(segs.deep_view() =~= pre_segs.push(piece@));
            assert(segs.deep_view() =~= spec_segments(s@));
        }
    } else {
        proof {
            assert(seg_fold(s@).1 =~= Seq::<char>::empty());
            assert(segs.deep_view() =~= spec_segments(s@));
        }
    }
    segs
}

/// The string form of a segment path: `/` for the root, otherwise each
/// segment preceded by a slash.
pub open spec fn spec_path_string(p: Seq<Seq<char>>) -> Seq<char> {
    if p.len() == 0 {
        seq!['/']
    } else {
        spec_path_cat(p)
    }
}

/// Concatenation of `/` + segment over all segments.
pub open spec fn spec_path_cat(p: Seq<Seq<char>>) -> Seq<char>
    decreases p.len(),
{
    if p.len() == 0 {
        Seq::empty()
    } else {
        spec_path_cat(p.drop_last()) + seq!['/'] + p.last()
    }
}

/// Render a segment path as an absolute path string.
pub fn path_to_string(p: &Vec<String>) -> (r: String)
    ensures
        r@ == spec_path_string(p.deep_view()),
{
    if p.len() == 0 {
        proof {
            reveal_strlit("/");
        }
        let r = "/".to_owned();
        proof {
            assert(r@ =~= spec_path_string(p.deep_view()));
        }
        return r;
    }
    let mut out = String::new();
    let mut i: usize = 0;
    while i < p.len()
        invariant
            i <= p@.len(),
            out@ =~= spec_path_cat(p.deep_view().subrange(0, i as int)),
        decreases p@.len() - i,
    {
        proof {
            reveal_strlit("/");
        }
        out.append("/");
        out.append(p[i].as_str());
        proof {
            assert(p.deep_view().subrange(0, i + 1).drop_last() =~= p.deep_view().subrange(
                0,
                i as int,
            ));
            assert(p.deep_view().subrange(0, i + 1).last() == p@[i as int]@);
        }
        i = i + 1;
    }
    proof {
        assert(p.deep_view().subrange(0, p@.len() as int) =~= p.deep_view());
    }
    out
}

/// The string form of a non-empty segment path without a leading
/// slash: segments joined by `/`.
pub open spec fn spec_rel_string(p: Seq<Seq<char>>) -> Seq<char>
    decreases p.len(),
{
    if p.len() == 0 {
        Seq::empty()
    } else if p.len() == 1 {
        p[0]
    } else {
        spec_rel_string(p.drop_last()) + seq!['/'] + p.last()
    }
}

/// Render a segment path as a relative path string (no leading slash).
pub fn rel_path_to_string(p: &Vec<String>) -> (r: String)
    ensures
        r@ == spec_rel_string(p.deep_view()),
{
    let mut out = String::new();
    let mut i: usize = 0;
    while i < p.len()
        invariant
            i <= p@.len(),
            out@ =~= spec_rel_string(p.deep_view().subrange(0, i as int)),
        decreases p@.len() - i,
    {
        if i > 0 {
            proof {
                reveal_strlit("/");
            }
            out.append("/");
        }
        out.append(p[i].as_str());
        proof {
            assert(p.deep_view().subrange(0, i + 1).drop_last() =~= p.deep_view().subrange(
                0,
                i as int,
            ));
            assert(p.deep_view().subrange(0, i + 1).last() == p@[i as int]@);
            if i == 0 {
                assert(p.deep_view().subrange(0, 1)[0] == p@[0]@);
            }
        }
        i = i + 1;
    }
    proof {
        assert(p.deep_view().subrange(0, p@.len() as int) =~= p.deep_view());
    }
    out
}

/// Whether `prefix` is a (segment-wise) prefix of `p`.
pub open spec fn path_prefix(prefix: Seq<Seq<char>>, p: Seq<Seq<char>>) -> bool {
    prefix.len() <= p.len() && p.subrange(0, prefix.len() as int) == prefix
}

/// Whether `prefix` is a segment-wise prefix of `p`.
pub fn path_is_prefix(prefix: &Vec<String>, p: &Vec<String>) -> (r: bool)
    ensures
        r == path_prefix(prefix.deep_view(), p.deep_view()),
{
    if prefix.len() > p.len() {
        return false;
    }
    let mut i: usize = 0;
    while i < prefix.len()
        invariant
            i <= prefix@.len() <= p@.len(),
            forall|j: int| 0 <= j < i ==> prefix.deep_view()[j] == p.deep_view()[j],
        decreases prefix@.len() - i,
    {
        proof {
            assert(prefix.deep_view()[i as int] == prefix@[i as int]@);
            assert(p.deep_view()[i as int] == p@[i as int]@);
        }
        if !str_eq(prefix[i].as_str(), p[i].as_str()) {
            proof {
                assert(p.deep_view().subrange(0, prefix.deep_view().len() as int)[i as int]
                    == p.deep_view()[i as int]);
            }
            return false;
        }
        i = i + 1;
    }
    proof {
        assert(p.deep_view().subrange(0, prefix.deep_view().len() as int) =~= prefix.deep_view());
    }
    true
}

/// Strict lexicographic order on character sequences.
pub open spec fn chars_lt(a: Seq<char>, b: Seq<char>) -> bool
    decreases a.len() + b.len(),
{
    if b.len() == 0 {
        false
    } else if a.len() == 0 {
        true
    } else if a.first() < b.first() {
        true
    } else if a.first() > b.first() {
        false
    } else {
        chars_lt(a.drop_first(), b.drop_first())
    }
}

/// Strict lexicographic order on segment paths, segment-wise.
pub open spec fn path_lt(a: Seq<Seq<char>>, b: Seq<Seq<char>>) -> bool
    decreases a.len() + b.len(),
{
    if b.len() == 0 {
        false
    } else if a.len() == 0 {
        true
    } else if chars_lt(a.first(), b.first()) {
        true
    } else if a.first() != b.first() {
        false
    } else {
        path_lt(a.drop_first(), b.drop_first())
    }
}

/// Of `chars_lt(a, b)`, `a == b`, `chars_lt(b, a)` exactly one holds.
pub proof fn lemma_chars_lt_trichotomy(a: Seq<char>, b: Seq<char>)
    ensures
        chars_lt(a, b) || chars_lt(b, a) || a == b,
        chars_lt(a, b) ==> !chars_lt(b, a) && a != b,
        chars_lt(b, a) ==> !chars_lt(a, b) && a != b,
    decreases a.len() + b.len(),
{
    if a.len() == 0 && b.len() == 0 {
        assert(a =~= b);
    } else if a.len() > 0 && b.len() > 0 {
        if a.first() == b.first() {
            lemma_chars_lt_trichotomy(a.drop_first(), b.drop_first());
            if a.drop_first() == b.drop_first() {
                assert(a =~= seq![a.first()] + a.drop_first());
                assert(b =~= seq![b.first()] + b.drop_first());
            }
        }
    }
}

/// Lexicographic order on character sequences is transitive.
pub proof fn lemma_chars_lt_trans(a: Seq<char>, b: Seq<char>, c: Seq<char>)
    requires
        chars_lt(a, b),
        chars_lt(b, c),
    ensures
        chars_lt(a, c),
    decreases a.len() + b.len() + c.len(),
{
    if a.len() > 0 && b.len() > 0 && c.len() > 0 {
        if a.first() == b.first() && b.first() == c.first() {
            lemma_chars_lt_trans(a.drop_first(), b.drop_first(), c.drop_first());
        }
    }
}

/// Of `path_lt(a, b)`, `a == b`, `path_lt(b, a)` exactly one holds.
pub proof fn lemma_path_lt_trichotomy(a: Seq<Seq<char>>, b: Seq<Seq<char>>)
    ensures
        path_lt(a, b) || path_lt(b, a) || a == b,
        path_lt(a, b) ==> !path_lt(b, a) && a != b,
        path_lt(b, a) ==> !path_lt(a, b) && a != b,
    decreases a.len() + b.len(),
{
    if a.len() == 0 && b.len() == 0 {
        assert(a =~= b);
    } else if a.len() > 0 && b.len() > 0 {
        lemma_chars_lt_trichotomy(a.first(), b.first());
        if a.first() == b.first() {
            lemma_path_lt_trichotomy(a.drop_first(), b.drop_first());
            if a.drop_first() == b.drop_first() {
                assert(a =~= seq![a.first()] + a.drop_first());
                assert(b =~= seq![b.first()] + b.drop_first());
            }
        }
    }
}

/// Lexicographic order on segment paths is transitive.
pub proof fn lemma_path_lt_trans(a: Seq<Seq<char>>, b: Seq<Seq<char>>, c: Seq<Seq<char>>)
    requires
        path_lt(a, b),
        path_lt(b, c),
    ensures
        path_lt(a, c),
    decreases a.len() + b.len() + c.len(),
{
    if a.len() > 0 && b.len() > 0 && c.len() > 0 {
        lemma_chars_lt_trichotomy(a.first(), b.first());
        lemma_chars_lt_trichotomy(b.first(), c.first());
        if a.first() == b.first() && b.first() == c.first() {
            lemma_path_lt_trans(a.drop_first(), b.drop_first(), c.drop_first());
        } else if chars_lt(a.first(), b.first()) && chars_lt(b.first(), c.first()) {
            lemma_chars_lt_trans(a.first(), b.first(), c.first());
        }
    }
}

/// Compare two strings in the lexicographic segment order.
pub fn chars_cmp_lt(a: &str, b: &str) -> (r: bool)
    ensures
        r == chars_lt(a@, b@),
{
    let alen = a.unicode_len();
    let blen = b.unicode_len();
    proof {
        assert(a@.skip(0) =~= a@);
        assert(b@.skip(0) =~= b@);
    }
    let mut i: usize = 0;
    loop
        invariant
            i <= alen,
            i <= blen,
            alen == a@.len(),
            blen == b@.len(),
            chars_lt(a@, b@) == chars_lt(a@.skip(i as int), b@.skip(i as int)),
            chars_lt(b@, a@) == chars_lt(b@.skip(i as int), a@.skip(i as int)),
            forall|j: int| 0 <= j < i ==> a@[j] == b@[j],
        decreases alen - i,
    {
        if i >= blen {
            return false;
        }
        if i >= alen {
            return true;
        }
        let ca = a.get_char(i);
        let cb = b.get_char(i);
        proof {
            let ta = a@.skip(i as int);
            let tb = b@.skip(i as int);
            assert(ta.first() == a@[i as int]);
            assert(tb.first() == b@[i as int]);
            assert(ta.drop_first() =~= a@.skip(i + 1));
            assert(tb.drop_first() =~= b@.skip(i + 1));
        }
        if ca < cb {
            return true;
        }
        if ca > cb {
            return false;
        }
        i = i + 1;
    }
}

/// Compare two segment paths in lexicographic order.
pub fn path_cmp_lt(a: &Vec<String>, b: &Vec<String>) -> (r: bool)
    ensures
        r == path_lt(a.deep_view(), b.deep_view()),
{
    proof {
        assert(a.deep_view().skip(0) =~= a.deep_view());
        assert(b.deep_view().skip(0) =~= b.deep_view());
    }
    let mut i: usize = 0;
    loop
        invariant
            i <= a@.len(),
            i <= b@.len(),
            path_lt(a.deep_view(), b.deep_view()) == path_lt(
                a.deep_view().skip(i as int),
                b.deep_view().skip(i as int),
            ),
            forall|j: int| 0 <= j < i ==> a.deep_view()[j] == b.deep_view()[j],
        decreases a@.len() - i,
    {
        if i >= b.len() {
            return false;
        }
        if i >= a.len() {
            return true;
        }
        proof {
            let ta = a.deep_view().skip(i as int);
            let tb = b.deep_view().skip(i as int);
            assert(ta.first() == a.deep_view()[i as int]);
            assert(tb.first() == b.deep_view()[i as int]);
            assert(ta.drop_first() =~= a.deep_view().skip(i + 1));
            assert(tb.drop_first() =~= b.deep_view().skip(i + 1));
        }
        if chars_cmp_lt(a[i].as_str(), b[i].as_str()) {
            return true;
        }
        if !str_eq(a[i].as_str(), b[i].as_str()) {
            return false;
        }
        i = i + 1;
    }
}

/// Whether two segment paths are equal.
pub fn path_eq(a: &Vec<String>, b: &Vec<String>) -> (r: bool)
    ensures
        r == (a.deep_view() == b.deep_view()),
{
    if a.len() != b.len() {
        proof {
            assert(a.deep_view().len() == a@.len());
            assert(b.deep_view().len() == b@.len());
        }
        return false;
    }
    let mut i: usize = 0;
    while i < a.len()
        invariant
            i <= a@.len(),
            a@.len() == b@.len(),
            forall|j: int| 0 <= j < i ==> a.deep_view()[j] == b.deep_view()[j],
        decreases a@.len() - i,
    {
        if !str_eq(a[i].as_str(), b[i].as_str()) {
            proof {
                assert(a.deep_view()[i as int] == a@[i as int]@);
                assert(b.deep_view()[i as int] == b@[i as int]@);
            }
            return false;
        }
        i = i + 1;
    }
    proof {
        assert(a.deep_view() =~= b.deep_view());
    }
    true
}

/// Resolution of `.` and `..` segments, left to right: `.` disappears,
/// `..` removes the previous segment (or nothing at the root).
pub open spec fn spec_normalize(p: Seq<Seq<char>>) -> Seq<Seq<char>>
    decreases p.len(),
{
    if p.len() == 0 {
        Seq::empty()
    } else {
        let rest = spec_normalize(p.drop_last());
        if p.last() == "."@ {
            rest
        } else if p.last() == ".."@ {
            if rest.len() > 0 {
                rest.drop_last()
            } else {
                rest
            }
        } else {
            rest.push(p.last())
        }
    }
}

/// Normalize a segment path by resolving `.` and `..` components.
pub fn normalize_path(p: &Vec<String>) -> (r: Vec<String>)
    ensures
        r.deep_view() == spec_normalize(p.deep_view()),
{
    let mut out: Vec<String> = Vec::new();
    let mut i: usize = 0;
    while i < p.len()
        invariant
            i <= p@.len(),
            out.deep_view() =~= spec_normalize(p.deep_view().subrange(0, i as int)),
        decreases p@.len() - i,
    {
        let ghost pre = out.deep_view();
        proof {
            assert(p.deep_view().subrange(0, i + 1).drop_last() =~= p.deep_view().subrange(
                0,
                i as int,
            ));
            assert(p.deep_view().subrange(0, i + 1).last() == p@[i as int]@);
        }
        let seg = &p[i];
        if str_eq(seg.as_str(), ".") {
            proof {
                reveal_strlit(".");
            }
        } else if str_eq(seg.as_str(), "..") {
            proof {
                reveal_strlit("..");
            }
            if out.len() > 0 {
                out.pop();
                proof {
                    assert(out.deep_view() =~= pre.drop_last());
                }
            }
        } else {
            proof {
                reveal_strlit(".");
                reveal_strlit("..");
            }
            out.push(seg.clone());
            proof {
                assert(out.deep_view() =~= pre.push(p@[i as int]@));
            }
        }
        i = i + 1;
    }
    proof {
        assert(p.deep_view().subrange(0, p@.len() as int) =~= p.deep_view());
    }
    out
}

} // verus!
