//! Verified string primitives used throughout the crate: equality,
//! decimal parsing, and whitespace trimming over `Seq<char>` views.

use vstd::prelude::*;

verus! {

/// Compare two string slices for character-wise equality.
pub fn str_eq(a: &str, b: &str) -> (r: bool)
    ensures
        r == (a@ == b@),
{
    let alen = a.unicode_len();
    let blen = b.unicode_len();
    if alen != blen {
        return false;
    }
    let mut i: usize = 0;
    while i < alen
        invariant
            i <= alen,
            alen == a@.len(),
            blen == b@.len(),
            alen == blen,
            forall|j: int| 0 <= j < i ==> a@[j] == b@[j],
        decreases alen - i,
    {
        if a.get_char(i) != b.get_char(i) {
            return false;
        }
        i = i + 1;
    }
    proof {
        assert(a@ =~= b@);
    }
    true
}

/// Whether `c` is a decimal digit.
pub open spec fn is_digit(c: char) -> bool {
    '0' <= c && c <= '9'
}

/// Numeric value of a digit character.
pub open spec fn digit_val(c: char) -> nat {
    (c as nat - '0' as nat) as nat
}

/// Whether every character of `s` is a decimal digit.
pub open spec fn all_digits(s: Seq<char>) -> bool {
    forall|i: int| 0 <= i < s.len() ==> is_digit(#[trigger] s[i])
}

/// The number denoted by a digit string, most significant digit first.
pub open spec fn digits_val(s: Seq<char>) -> nat
    decreases s.len(),
{
    if s.len() == 0 {
        0
    } else {
        digits_val(s.drop_last()) * 10 + digit_val(s.last())
    }
}

/// A string parses as `u64` when it is non-empty, all digits, and in range.
pub open spec fn is_u64_string(s: Seq<char>) -> bool {
    &&& s.len() > 0
    &&& all_digits(s)
    &&& digits_val(s) <= u64::MAX
}

proof fn lemma_digits_val_prefix_le(s: Seq<char>, n: int)
    requires
        0 <= n <= s.len(),
    ensures
        digits_val(s.subrange(0, n)) <= digits_val(s),
    decreases s.len() - n,
{
    if n < s.len() {
        lemma_digits_val_prefix_le(s, n + 1);
        let p = s.subrange(0, n + 1);
        assert(p.drop_last() =~= s.subrange(0, n));
        assert(digits_val(s.subrange(0, n)) <= digits_val(p));
    } else {
        assert(s.subrange(0, n) =~= s);
    }
}

/// Parse a decimal `u64`; returns `None` exactly when the string is empty,
/// holds a non-digit, or denotes a value above `u64::MAX`.
pub fn parse_u64(s: &str) -> (r: Option<u64>)
    ensures
        r is Some <==> is_u64_string(s@),
        r is Some ==> r->Some_0 == digits_val(s@),
{
    let n = s.unicode_len();
    if n == 0 {
        return None;
    }
    let mut val: u64 = 0;
    let mut i: usize = 0;
    while i < n
        invariant
            0 < n == s@.len(),
            i <= n,
            all_digits(s@.subrange(0, i as int)),
            val == digits_val(s@.subrange(0, i as int)),
        decreases n - i,
    {
        let c = s.get_char(i);
        if c < '0' || c > '9' {
            assert(!is_digit(s@[i as int]));
            return None;
        }
        let d: u64 = (c as u32 as u64) - 0x30;
        assert(d == digit_val(s@[i as int]));
        if val > u64::MAX / 10 {
            proof {
                let p = s@.subrange(0, i + 1);
                assert(p.drop_last() =~= s@.subrange(0, i as int));
                assert(digits_val(p) > u64::MAX);
                lemma_digits_val_prefix_le(s@, i + 1);
            }
            return None;
        }
        let val10 = val * 10;
        if d > u64::MAX - val10 {
            proof {
                let p = s@.subrange(0, i + 1);
                assert(p.drop_last() =~= s@.subrange(0, i as int));
                assert(digits_val(p) > u64::MAX);
                lemma_digits_val_prefix_le(s@, i + 1);
            }
            return None;
        }
        val = val10 + d;
        proof {
            let p = s@.subrange(0, i + 1);
            assert(p.drop_last() =~= s@.subrange(0, i as int));
        }
        i = i + 1;
    }
    proof {
        assert(s@.subrange(0, n as int) =~= s@);
    }
    Some(val)
}

/// One folding step of a separator split: finished pieces plus the
/// current piece.
pub open spec fn split_step(
    acc: (Seq<Seq<char>>, Seq<char>),
    c: char,
    sep: char,
) -> (Seq<Seq<char>>, Seq<char>) {
    if c == sep {
        (acc.0.push(acc.1), Seq::empty())
    } else {
        (acc.0, acc.1.push(c))
    }
}

/// Fold of [`split_step`] over a character sequence.
pub open spec fn split_fold(s: Seq<char>, sep: char) -> (Seq<Seq<char>>, Seq<char>)
    decreases s.len(),
{
    if s.len() == 0 {
        (Seq::empty(), Seq::empty())
    } else {
        split_step(split_fold(s.drop_last(), sep), s.last(), sep)
    }
}

/// `s` split at every `sep`: `n` separators give `n + 1` pieces, empty
/// pieces included.
pub open spec fn spec_split(s: Seq<char>, sep: char) -> Seq<Seq<char>> {
    let f = split_fold(s, sep);
    f.0.push(f.1)
}

/// Split `s` at every occurrence of `sep`, keeping empty pieces.
pub fn split_char(s: &str, sep: char) -> (r: Vec<String>)
    ensures
        r.deep_view() == spec_split(s@, sep),
{
    let n = s.unicode_len();
    let mut pieces: Vec<String> = Vec::new();
    let mut start: usize = 0;
    let mut i: usize = 0;
    while i < n
        invariant
            start <= i <= n,
            n == s@.len(),
            split_fold(s@.subrange(0, i as int), sep).0 =~= pieces.deep_view(),
            split_fold(s@.subrange(0, i as int), sep).1 =~= s@.subrange(start as int, i as int),
        decreases n - i,
    {
        proof {
            assert(s@.subrange(0, i + 1).drop_last() =~= s@.subrange(0, i as int));
            assert(s@.subrange(0, i + 1).last() == s@[i as int]);
        }
        let c = s.get_char(i);
        if c == sep {
            let ghost pre = pieces.deep_view();
            let piece = s.substring_char(start, i).to_owned();
            pieces.push(piece);
            proof {
                assert(pieces.deep_view() =~= pre.push(piece@));
                assert(split_fold(s@.subrange(0, i + 1), sep).0 =~= pieces.deep_view());
            }
            start = i + 1;
            proof {
                assert(split_fold(s@.subrange(0, i + 1), sep).1 =~= s@.subrange(
                    start as int,
                    i + 1,
                ));
            }
        } else {
            proof {
                assert(split_fold(s@.subrange(0, i + 1), sep).1 =~= s@.subrange(
                    start as int,
                    i + 1,
                ));
            }
        }
        i = i + 1;
    }
    proof {
        assert(s@.subrange(0, n as int) =~= s@);
    }
    let ghost pre = pieces.deep_view();
    let piece = s.substring_char(start, n).to_owned();
    pieces.push(piece);
    proof {
        assert(pieces.deep_view() =~= pre.push(piece@));
        assert(pieces.deep_view() =~= spec_split(s@, sep));
    }
    pieces
}

/// A line piece with one trailing carriage return removed.
pub open spec fn chomp_cr(l: Seq<char>) -> Seq<char> {
    if l.len() > 0 && l.last() == '\r' {
        l.drop_last()
    } else {
        l
    }
}

/// The lines of `s`: pieces between newlines, one trailing carriage
/// return per line removed, and no final empty line after a trailing
/// newline.
pub open spec fn spec_lines(s: Seq<char>) -> Seq<Seq<char>> {
    let ps = spec_split(s, '\n');
    let ps2 = if ps.last().len() == 0 {
        ps.drop_last()
    } else {
        ps
    };
    ps2.map_values(|l: Seq<char>| chomp_cr(l))
}

/// Split `s` into lines, as [`spec_lines`] describes.
pub fn split_lines(s: &str) -> (r: Vec<String>)
    ensures
        r.deep_view() == spec_lines(s@),
{
    let mut pieces = split_char(s, '\n');
    let ghost ps = pieces.deep_view();
    proof {
        assert(ps.len() > 0);
    }
    let plen = pieces.len();
    if pieces[plen - 1].as_str().unicode_len() == 0 {
        pieces.pop();
        proof {
            assert(pieces.deep_view() =~= ps.drop_last());
        }
    }
    let ghost ps2 = pieces.deep_view();
    let mut out: Vec<String> = Vec::new();
    let mut i: usize = 0;
    while i < pieces.len()
        invariant
            i <= pieces@.len(),
            ps2 == pieces.deep_view(),
            out.deep_view() =~= ps2.subrange(0, i as int).map_values(|l: Seq<char>| chomp_cr(l)),
        decreases pieces@.len() - i,
    {
        let ghost pre = out.deep_view();
        let line = &pieces[i];
        let n = line.as_str().unicode_len();
        proof {
            assert(line@ == ps2[i as int]);
            if n > 0 {
                assert(line@.last() == line@[n - 1]);
            }
        }
        if n > 0 && line.as_str().get_char(n - 1) == '\r' {
            let chomped = line.as_str().substring_char(0, n - 1).to_owned();
            proof {
                assert(chomped@ =~= chomp_cr(line@));
            }
            out.push(chomped);
        } else {
            out.push(line.clone());
        }
        proof {
            assert(out.deep_view() =~= pre.push(chomp_cr(ps2[i as int])));
            assert(ps2.subrange(0, i + 1).map_values(|l: Seq<char>| chomp_cr(l)) =~= ps2.subrange(
                0,
                i as int,
            ).map_values(|l: Seq<char>| chomp_cr(l)).push(chomp_cr(ps2[i as int])));
        }
        i = i + 1;
    }
    proof {
        assert(ps2.subrange(0, ps2.len() as int) =~= ps2);
    }
    out
}

/// ASCII whitespace as the trimmer sees it.
pub open spec fn is_ws(c: char) -> bool {
    c == ' ' || c == '\t' || c == '\r' || c == '\n'
}

/// `s` with leading whitespace removed.
pub open spec fn trim_front(s: Seq<char>) -> Seq<char>
    decreases s.len(),
{
    if s.len() > 0 && is_ws(s.first()) {
        trim_front(s.drop_first())
    } else {
        s
    }
}

/// `s` with trailing whitespace removed.
pub open spec fn trim_back(s: Seq<char>) -> Seq<char>
    decreases s.len(),
{
    if s.len() > 0 && is_ws(s.last()) {
        trim_back(s.drop_last())
    } else {
        s
    }
}

/// `s` with surrounding ASCII whitespace removed.
pub open spec fn spec_trim(s: Seq<char>) -> Seq<char> {
    trim_back(trim_front(s))
}

proof fn lemma_trim_front_skip(s: Seq<char>, i: int)
    requires
        0 <= i <= s.len(),
        forall|j: int| 0 <= j < i ==> is_ws(s[j]),
    ensures
        trim_front(s) == trim_front(s.skip(i)),
    decreases i,
{
    if i > 0 {
        assert(is_ws(s.first()));
        assert(s.drop_first() =~= s.skip(1));
        lemma_trim_front_skip(s.skip(1), i - 1);
        assert(s.skip(1).skip(i - 1) =~= s.skip(i));
    } else {
        assert(s.skip(0) =~= s);
    }
}

proof fn lemma_trim_back_take(s: Seq<char>, i: int)
    requires
        0 <= i <= s.len(),
        forall|j: int| i <= j < s.len() ==> is_ws(s[j]),
    ensures
        trim_back(s) == trim_back(s.take(i)),
    decreases s.len() - i,
{
    if i < s.len() {
        assert(is_ws(s.last()));
        assert(s.drop_last() =~= s.take(s.len() - 1));
        lemma_trim_back_take(s.take(s.len() - 1), i);
        assert(s.take(s.len() - 1).take(i) =~= s.take(i));
    } else {
        assert(s.take(i) =~= s);
    }
}

/// Remove surrounding ASCII whitespace (space, tab, carriage return,
/// newline).
pub fn trim(s: &str) -> (r: &str)
    ensures
        r@ == spec_trim(s@),
{
    let n = s.unicode_len();
    let mut a: usize = 0;
    loop
        invariant
            a <= n,
            n == s@.len(),
            forall|j: int| 0 <= j < a ==> is_ws(s@[j]),
        ensures
            a <= n,
            forall|j: int| 0 <= j < a ==> is_ws(s@[j]),
            a < n ==> !is_ws(s@[a as int]),
        decreases n - a,
    {
        if a >= n {
            break;
        }
        let c = s.get_char(a);
        if !(c == ' ' || c == '\t' || c == '\r' || c == '\n') {
            break;
        }
        a = a + 1;
    }
    let mut b: usize = n;
    loop
        invariant
            a <= b <= n,
            n == s@.len(),
            forall|j: int| b <= j < n ==> is_ws(s@[j]),
        ensures
            a <= b <= n,
            forall|j: int| b <= j < n ==> is_ws(s@[j]),
            b > a ==> !is_ws(s@[b - 1]),
        decreases b,
    {
        if b <= a {
            break;
        }
        let c = s.get_char(b - 1);
        if !(c == ' ' || c == '\t' || c == '\r' || c == '\n') {
            break;
        }
        b = b - 1;
    }
    let r = s.substring_char(a, b);
    proof {
        let f = s@.skip(a as int);
        lemma_trim_front_skip(s@, a as int);
        assert(trim_front(s@) == f) by {
            if a < n {
                assert(!is_ws(s@[a as int]));
                assert(f.first() == s@[a as int]);
            }
        }
        assert(trim_back(f) =~= r@) by {
            assert(f.take(b - a) =~= s@.subrange(a as int, b as int));
            assert forall|j: int| b - a <= j < f.len() implies is_ws(f[j]) by {
                assert(f[j] == s@[a + j]);
            }
            lemma_trim_back_take(f, b - a);
            if b > a {
                assert(!is_ws(s@[b - 1]));
                assert(f.take(b - a).last() == s@[b - 1]);
            }
        }
    }
    r
}

} // verus!
