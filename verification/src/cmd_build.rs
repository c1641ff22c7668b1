//! Build-time configuration logic: label and annotation mutations.
//!
//! The image config itself is an opaque record owned by the caller; what
//! the build logic decides is how label-style KEY=VALUE mutation lists
//! fold into a string map.

use vstd::prelude::*;

use crate::components::{component_clamped, some_component_contains, Component};
use crate::filemap::{clone_path, FileMap};
use crate::packing::{calculate_packing, occurrences, sorted_by_stability_desc, spec_prod,
    total_item_size, wf_group, wf_groups, PackGroup, PackItem};
use crate::pathutil::{chars_cmp_lt, chars_lt};
use crate::strutil::str_eq;
use crate::utils::STABILITY_SCALE;

verus! {

/// First index of `c` in `s`, or -1.
pub open spec fn find_char(s: Seq<char>, c: char) -> int
    decreases s.len(),
{
    if s.len() == 0 {
        -1
    } else if s.first() == c {
        0
    } else {
        let r = find_char(s.drop_first(), c);
        if r < 0 {
            -1
        } else {
            r + 1
        }
    }
}

proof fn lemma_find_char_at(s: Seq<char>, c: char, at: int)
    requires
        0 <= at < s.len(),
        s[at] == c,
        forall|j: int| 0 <= j < at ==> s[j] != c,
    ensures
        find_char(s, c) == at,
    decreases s.len(),
{
    if at > 0 {
        lemma_find_char_at(s.drop_first(), c, at - 1);
    }
}

proof fn lemma_find_char_none(s: Seq<char>, c: char)
    requires
        forall|j: int| 0 <= j < s.len() ==> s[j] != c,
    ensures
        find_char(s, c) == -1,
    decreases s.len(),
{
    if s.len() > 0 {
        lemma_find_char_none(s.drop_first(), c);
    }
}

/// An unordered string map with unique keys, backed by an association
/// list; the view is a mathematical `Map`.
#[derive(Debug)]
pub struct LabelMap {
    entries: Vec<(String, String)>,
}

/// Whether the association list `s` has key `k`.
pub open spec fn label_has(s: Seq<(Seq<char>, Seq<char>)>, k: Seq<char>) -> bool {
    exists|i: int| 0 <= i < s.len() && s[i].0 == k
}

/// Value for key `k` in `s`.
pub open spec fn label_get(s: Seq<(Seq<char>, Seq<char>)>, k: Seq<char>) -> Seq<char> {
    let i = choose|i: int| 0 <= i < s.len() && s[i].0 == k;
    s[i].1
}

/// Pairwise distinct keys.
pub open spec fn label_keys_unique(s: Seq<(Seq<char>, Seq<char>)>) -> bool {
    forall|p: int, q: int| 0 <= p < q < s.len() ==> s[p].0 != s[q].0
}

proof fn lemma_label_get_at(s: Seq<(Seq<char>, Seq<char>)>, k: Seq<char>, at: int)
    requires
        label_keys_unique(s),
        0 <= at < s.len(),
        s[at].0 == k,
    ensures
        label_get(s, k) == s[at].1,
{
    assert(label_has(s, k));
    let i = choose|i: int| 0 <= i < s.len() && s[i].0 == k;
    if i < at {
        assert(s[i].0 != s[at].0);
    } else if at < i {
        assert(s[at].0 != s[i].0);
    }
}

impl View for LabelMap {
    type V = Map<Seq<char>, Seq<char>>;

    closed spec fn view(&self) -> Map<Seq<char>, Seq<char>> {
        Map::new(
            |k: Seq<char>| label_has(self.entries.deep_view(), k),
            |k: Seq<char>| label_get(self.entries.deep_view(), k),
        )
    }
}

impl LabelMap {
    /// Unique keys in the backing list.
    pub closed spec fn wf(self) -> bool {
        label_keys_unique(self.entries.deep_view())
    }

    pub fn new() -> (r: LabelMap)
        ensures
            r@ =~= Map::<Seq<char>, Seq<char>>::empty(),
            r.wf(),
    {
        let r = LabelMap { entries: Vec::new() };
        proof {
            assert(r.entries.deep_view().len() == 0);
            assert(r@ =~= Map::<Seq<char>, Seq<char>>::empty());
        }
        r
    }

    pub fn len(&self) -> (r: usize)
        requires
            self.wf(),
        ensures
            r == self@.dom().len(),
    {
        proof {
            self.lemma_dom_len();
        }
        self.entries.len()
    }

    /// The backing list's key set has exactly one entry per key.
    proof fn lemma_dom_len(&self)
        requires
            self.wf(),
        ensures
            self@.dom().len() == self.entries.deep_view().len(),
        decreases self.entries@.len(),
    {
        let s = self.entries.deep_view();
        lemma_label_dom_len(s);
        assert(self@.dom() =~= label_dom(s));
    }

    /// Look up a label.
    pub fn get(&self, k: &str) -> (r: Option<&String>)
        requires
            self.wf(),
        ensures
            match r {
                Option::Some(v) => self@.contains_key(k@) && self@[k@] == v@,
                Option::None => !self@.contains_key(k@),
            },
    {
        let ghost s = self.entries.deep_view();
        let mut i: usize = 0;
        while i < self.entries.len()
            invariant
                self.wf(),
                s == self.entries.deep_view(),
                i <= s.len(),
                forall|j: int| 0 <= j < i ==> s[j].0 != k@,
            decreases s.len() - i,
        {
            proof {
                assert(s[i as int].0 == self.entries@[i as int].0@);
            }
            if str_eq(self.entries[i].0.as_str(), k) {
                proof {
                    lemma_label_get_at(s, k@, i as int);
                    assert(self@.contains_key(k@));
                }
                return Option::Some(&self.entries[i].1);
            }
            i = i + 1;
        }
        proof {
            assert(!label_has(s, k@));
        }
        Option::None
    }

    /// Set a label, replacing any previous value for the key.
    pub fn set(&mut self, k: String, v: String)
        requires
            old(self).wf(),
        ensures
            final (self).wf(),
            final (self)@ == old(self)@.insert(k@, v@),
    {
        let ghost pre = self.entries.deep_view();
        let ghost kd = k@;
        let ghost vd = v@;
        let ghost pre_view = self@;
        let mut i: usize = 0;
        loop
            invariant
                self.entries.deep_view() == pre,
                self.wf(),
                i <= pre.len(),
                forall|j: int| 0 <= j < i ==> pre[j].0 != kd,
                kd == k@,
            ensures
                self.entries.deep_view() == pre,
                i <= pre.len(),
                forall|j: int| 0 <= j < i ==> pre[j].0 != kd,
                i < pre.len() ==> pre[i as int].0 == kd,
            decreases pre.len() - i,
        {
            if i >= self.entries.len() {
                break;
            }
            proof {
                assert(pre[i as int].0 == self.entries@[i as int].0@);
            }
            if str_eq(self.entries[i].0.as_str(), k.as_str()) {
                break;
            }
            i = i + 1;
        }
        if i < self.entries.len() {
            self.entries[i] = (k, v);
            proof {
                let post = self.entries.deep_view();
                assert(post.len() == pre.len());
                assert(post[i as int] == (kd, vd));
                assert forall|j: int| 0 <= j < pre.len() && j != i implies post[j] == pre[j] by {}
                assert(label_keys_unique(post)) by {
                    assert forall|p: int, q: int|
                        0 <= p < q < post.len() implies post[p].0 != post[q].0 by {
                        if p != i && q != i {
                            assert(post[p] == pre[p] && post[q] == pre[q]);
                        } else if p == i {
                            assert(post[q] == pre[q]);
                        } else {
                            assert(post[p] == pre[p]);
                        }
                    }
                }
                lemma_label_frame_replace(pre, post, i as int, kd);
                assert(self@ =~= pre_view.insert(kd, vd));
            }
        } else {
            self.entries.push((k, v));
            proof {
                let post = self.entries.deep_view();
                assert(post.len() == pre.len() + 1);
                assert(post[pre.len() as int] == (kd, vd));
                assert forall|j: int| 0 <= j < pre.len() implies post[j] == pre[j] by {}
                assert(label_keys_unique(post)) by {
                    assert forall|p: int, q: int|
                        0 <= p < q < post.len() implies post[p].0 != post[q].0 by {
                        if q < pre.len() {
                            assert(post[p] == pre[p] && post[q] == pre[q]);
                        } else {
                            assert(post[p] == pre[p]);
                        }
                    }
                }
                lemma_label_frame_append(pre, post, kd);
                assert(self@ =~= pre_view.insert(kd, vd));
            }
        }
    }

    /// Remove a label if present.
    pub fn remove(&mut self, k: &str)
        requires
            old(self).wf(),
        ensures
            final (self).wf(),
            final (self)@ == old(self)@.remove(k@),
    {
        let ghost pre = self.entries.deep_view();
        let ghost kd = k@;
        let ghost pre_view = self@;
        let mut i: usize = 0;
        loop
            invariant
                self.entries.deep_view() == pre,
                self.wf(),
                i <= pre.len(),
                forall|j: int| 0 <= j < i ==> pre[j].0 != kd,
                kd == k@,
            ensures
                self.entries.deep_view() == pre,
                i <= pre.len(),
                forall|j: int| 0 <= j < i ==> pre[j].0 != kd,
                i < pre.len() ==> pre[i as int].0 == kd,
            decreases pre.len() - i,
        {
            if i >= self.entries.len() {
                break;
            }
            proof {
                assert(pre[i as int].0 == self.entries@[i as int].0@);
            }
            if str_eq(self.entries[i].0.as_str(), k) {
                break;
            }
            i = i + 1;
        }
        if i < self.entries.len() {
            self.entries.remove(i);
            proof {
                let post = self.entries.deep_view();
                assert(post =~= pre.remove(i as int));
                pre.remove_ensures(i as int);
                assert(label_keys_unique(post)) by {
                    assert forall|p: int, q: int|
                        0 <= p < q < post.len() implies post[p].0 != post[q].0 by {
                        let pp = if p < i as int {
                            p
                        } else {
                            p + 1
                        };
                        let qq = if q < i as int {
                            q
                        } else {
                            q + 1
                        };
                        assert(post[p] == pre[pp] && post[q] == pre[qq]);
                    }
                }
                lemma_label_frame_remove(pre, post, i as int, kd);
                assert(self@ =~= pre_view.remove(kd));
            }
        } else {
            proof {
                assert(!label_has(pre, kd));
                assert(self@ =~= pre_view.remove(kd));
            }
        }
    }

    /// The entries as a list: each key once, with its value.
    pub fn items(&self) -> (r: &Vec<(String, String)>)
        requires
            self.wf(),
        ensures
            r@.len() == self@.dom().len(),
            forall|i: int|
                0 <= i < r@.len() ==> self@.contains_key((#[trigger] r@[i]).0@) && self@[r@[
                i].0@] == r@[i].1@,
    {
        proof {
            self.lemma_dom_len();
            assert forall|i: int|
                0 <= i < self.entries@.len() implies self@.contains_key(
                (#[trigger] self.entries@[i]).0@,
            ) && self@[self.entries@[i].0@] == self.entries@[i].1@ by {
                let s = self.entries.deep_view();
                assert(s[i].0 == self.entries@[i].0@ && s[i].1 == self.entries@[i].1@);
                lemma_label_get_at(s, s[i].0, i);
            }
        }
        &self.entries
    }

    /// Remove every label.
    pub fn clear(&mut self)
        ensures
            final (self).wf(),
            final (self)@ =~= Map::<Seq<char>, Seq<char>>::empty(),
    {
        self.entries.clear();
        proof {
            assert(self.entries.deep_view().len() == 0);
        }
    }
}

/// The key set of an association list.
spec fn label_dom(s: Seq<(Seq<char>, Seq<char>)>) -> Set<Seq<char>> {
    Set::new(|k: Seq<char>| label_has(s, k))
}

proof fn lemma_label_dom_len(s: Seq<(Seq<char>, Seq<char>)>)
    requires
        label_keys_unique(s),
    ensures
        label_dom(s).finite(),
        label_dom(s).len() == s.len(),
    decreases s.len(),
{
    if s.len() == 0 {
        assert(label_dom(s) =~= Set::<Seq<char>>::empty());
    } else {
        let rest = s.drop_last();
        lemma_label_dom_len(rest);
        assert forall|j: int| 0 <= j < rest.len() implies rest[j] == s[j] by {}
        assert(!label_dom(rest).contains(s.last().0)) by {
            assert forall|j: int| 0 <= j < rest.len() implies rest[j].0 != s.last().0 by {
                assert(s[j].0 != s[s.len() - 1].0);
            }
        }
        assert(label_dom(s) =~= label_dom(rest).insert(s.last().0)) by {
            assert forall|k: Seq<char>| label_has(s, k) implies label_has(rest, k) || k == s.last().0
                 by {
                let i = choose|i: int| 0 <= i < s.len() && s[i].0 == k;
                if i < s.len() - 1 {
                    assert(rest[i].0 == k);
                }
            }
            assert forall|k: Seq<char>| label_has(rest, k) implies label_has(s, k) by {
                let i = choose|i: int| 0 <= i < rest.len() && rest[i].0 == k;
                assert(s[i].0 == k);
            }
        }
    }
}

proof fn lemma_label_frame_replace(
    pre: Seq<(Seq<char>, Seq<char>)>,
    post: Seq<(Seq<char>, Seq<char>)>,
    at: int,
    kd: Seq<char>,
)
    requires
        0 <= at < post.len(),
        post.len() == pre.len(),
        forall|j: int| 0 <= j < pre.len() && j != at ==> post[j] == pre[j],
        post[at].0 == kd,
        pre[at].0 == kd,
        label_keys_unique(pre),
        label_keys_unique(post),
    ensures
        forall|k2: Seq<char>|
            k2 != kd ==> (label_has(post, k2) == label_has(pre, k2) && (label_has(pre, k2)
                ==> label_get(post, k2) == label_get(pre, k2))),
        label_has(post, kd),
        label_get(post, kd) == post[at].1,
{
    lemma_label_get_at(post, kd, at);
    assert forall|k2: Seq<char>| k2 != kd implies (label_has(post, k2) == label_has(pre, k2) && (
    label_has(pre, k2) ==> label_get(post, k2) == label_get(pre, k2))) by {
        if label_has(pre, k2) {
            let i = choose|i: int| 0 <= i < pre.len() && pre[i].0 == k2;
            assert(i != at);
            assert(post[i] == pre[i]);
            lemma_label_get_at(pre, k2, i);
            lemma_label_get_at(post, k2, i);
        } else {
            assert forall|j: int| 0 <= j < post.len() implies post[j].0 != k2 by {
                if j != at {
                    assert(post[j] == pre[j]);
                    assert(pre[j].0 != k2);
                }
            }
        }
    }
}

proof fn lemma_label_frame_append(
    pre: Seq<(Seq<char>, Seq<char>)>,
    post: Seq<(Seq<char>, Seq<char>)>,
    kd: Seq<char>,
)
    requires
        post.len() == pre.len() + 1,
        forall|j: int| 0 <= j < pre.len() ==> post[j] == pre[j],
        post[pre.len() as int].0 == kd,
        label_keys_unique(pre),
        label_keys_unique(post),
    ensures
        forall|k2: Seq<char>|
            k2 != kd ==> (label_has(post, k2) == label_has(pre, k2) && (label_has(pre, k2)
                ==> label_get(post, k2) == label_get(pre, k2))),
        label_has(post, kd),
        label_get(post, kd) == post[pre.len() as int].1,
{
    lemma_label_get_at(post, kd, pre.len() as int);
    assert forall|k2: Seq<char>| k2 != kd implies (label_has(post, k2) == label_has(pre, k2) && (
    label_has(pre, k2) ==> label_get(post, k2) == label_get(pre, k2))) by {
        if label_has(pre, k2) {
            let i = choose|i: int| 0 <= i < pre.len() && pre[i].0 == k2;
            assert(post[i] == pre[i]);
            lemma_label_get_at(pre, k2, i);
            lemma_label_get_at(post, k2, i);
        } else {
            assert forall|j: int| 0 <= j < post.len() implies post[j].0 != k2 by {
                if j < pre.len() {
                    assert(post[j] == pre[j]);
                    assert(pre[j].0 != k2);
                }
            }
        }
    }
}

proof fn lemma_label_frame_remove(
    pre: Seq<(Seq<char>, Seq<char>)>,
    post: Seq<(Seq<char>, Seq<char>)>,
    at: int,
    kd: Seq<char>,
)
    requires
        0 <= at < pre.len(),
        post.len() == pre.len() - 1,
        forall|j: int| 0 <= j < at ==> post[j] == pre[j],
        forall|j: int| at <= j < post.len() ==> post[j] == pre[j + 1],
        pre[at].0 == kd,
        label_keys_unique(pre),
        label_keys_unique(post),
    ensures
        !label_has(post, kd),
        forall|k2: Seq<char>|
            k2 != kd ==> (label_has(post, k2) == label_has(pre, k2) && (label_has(pre, k2)
                ==> label_get(post, k2) == label_get(pre, k2))),
{
    assert forall|j: int| 0 <= j < post.len() implies post[j].0 != kd by {
        if j < at {
            assert(pre[j].0 != pre[at].0);
        } else {
            assert(post[j] == pre[j + 1]);
            assert(pre[at].0 != pre[j + 1].0);
        }
    }
    assert forall|k2: Seq<char>| k2 != kd implies (label_has(post, k2) == label_has(pre, k2) && (
    label_has(pre, k2) ==> label_get(post, k2) == label_get(pre, k2))) by {
        if label_has(pre, k2) {
            let i = choose|i: int| 0 <= i < pre.len() && pre[i].0 == k2;
            assert(i != at);
            let at2 = if i < at {
                i
            } else {
                i - 1
            };
            assert(post[at2] == pre[i]);
            lemma_label_get_at(pre, k2, i);
            lemma_label_get_at(post, k2, at2);
        } else {
            assert forall|j: int| 0 <= j < post.len() implies post[j].0 != k2 by {
                if j < at {
                    assert(post[j] == pre[j]);
                    assert(pre[j].0 != k2);
                } else {
                    assert(post[j] == pre[j + 1]);
                    assert(pre[j + 1].0 != k2);
                }
            }
        }
    }
}

/// Effect of one mutation on the label map: `KEY=VALUE` sets, `KEY-`
/// removes, `-` clears everything; anything else is invalid.
pub open spec fn apply_pair(
    m: Map<Seq<char>, Seq<char>>,
    p: Seq<char>,
) -> Option<Map<Seq<char>, Seq<char>>> {
    let i = find_char(p, '=');
    if i >= 0 {
        if i == 0 {
            Option::None
        } else {
            Option::Some(m.insert(p.subrange(0, i), p.subrange(i + 1, p.len() as int)))
        }
    } else if p.len() > 0 && p.last() == '-' {
        if p.len() == 1 {
            Option::Some(Map::empty())
        } else {
            Option::Some(m.remove(p.subrange(0, p.len() - 1)))
        }
    } else {
        Option::None
    }
}

/// Effect of a mutation list, applied left to right; `None` when any
/// mutation is invalid.
pub open spec fn apply_pairs(
    m: Map<Seq<char>, Seq<char>>,
    pairs: Seq<Seq<char>>,
) -> Option<Map<Seq<char>, Seq<char>>>
    decreases pairs.len(),
{
    if pairs.len() == 0 {
        Option::Some(m)
    } else {
        match apply_pairs(m, pairs.drop_last()) {
            Option::None => Option::None,
            Option::Some(m2) => apply_pair(m2, pairs.last()),
        }
    }
}

/// An empty mutation list leaves the base map unchanged.
pub proof fn lemma_apply_pairs_empty(m: Map<Seq<char>, Seq<char>>)
    ensures
        apply_pairs(m, Seq::empty()) == Option::Some(m),
{
}

proof fn lemma_apply_pairs_extend_none(m: Map<Seq<char>, Seq<char>>, pairs: Seq<Seq<char>>, n: int)
    requires
        0 <= n <= pairs.len(),
        apply_pairs(m, pairs.subrange(0, n)) is None,
    ensures
        apply_pairs(m, pairs) is None,
    decreases pairs.len() - n,
{
    if n < pairs.len() {
        assert(pairs.subrange(0, n + 1).drop_last() =~= pairs.subrange(0, n));
        assert(apply_pairs(m, pairs.subrange(0, n + 1)) is None);
        lemma_apply_pairs_extend_none(m, pairs, n + 1);
    } else {
        assert(pairs.subrange(0, n) =~= pairs);
    }
}

/// A pair that is not `KEY=VALUE` (non-empty key), `KEY-` or `-`.
#[derive(Debug)]
pub struct KvError {
    /// The offending pair.
    pub pair: String,
}

/// Parse KEY=VALUE pairs and merge them into `map`, in order: `KEY=VALUE`
/// sets or overrides, `KEY-` removes, and a bare `-` clears everything
/// accumulated so far (base map and earlier pairs alike). Fails exactly
/// when some pair fits none of those shapes.
pub fn parse_key_value_pairs(pairs: &Vec<String>, map: LabelMap) -> (r: Result<LabelMap, KvError>)
    requires
        map.wf(),
    ensures
        r is Ok <==> apply_pairs(map@, pairs.deep_view()) is Some,
        r is Ok ==> r->Ok_0@ == apply_pairs(map@, pairs.deep_view())->Some_0 && r->Ok_0.wf(),
{
    let ghost base = map@;
    let ghost pv = pairs.deep_view();
    let mut cur = map;
    let mut i: usize = 0;
    while i < pairs.len()
        invariant
            i <= pv.len(),
            pv == pairs.deep_view(),
            base == map@,
            cur.wf(),
            apply_pairs(base, pv.subrange(0, i as int)) == Option::Some(cur@),
        decreases pv.len() - i,
    {
        proof {
            assert(pv.subrange(0, i + 1).drop_last() =~= pv.subrange(0, i as int));
            assert(pv.subrange(0, i + 1).last() == pv[i as int]);
        }
        let pair = &pairs[i];
        proof {
            assert(pair@ == pv[i as int]);
        }
        let n = pair.as_str().unicode_len();
        // Find the first '='.
        let mut eq_idx: usize = 0;
        let mut found = false;
        loop
            invariant
                n == pair@.len(),
                eq_idx <= n,
                !found ==> forall|j: int| 0 <= j < eq_idx ==> pair@[j] != '=',
                found ==> eq_idx < n && pair@[eq_idx as int] == '=' && forall|j: int|
                    0 <= j < eq_idx ==> pair@[j] != '=',
            ensures
                found ==> find_char(pair@, '=') == eq_idx,
                !found ==> find_char(pair@, '=') == -1,
            decreases n - eq_idx + if found {
                0int
            } else {
                1int
            },
        {
            if found {
                proof {
                    lemma_find_char_at(pair@, '=', eq_idx as int);
                }
                break;
            }
            if eq_idx >= n {
                proof {
                    lemma_find_char_none(pair@, '=');
                }
                break;
            }
            if pair.as_str().get_char(eq_idx) == '=' {
                found = true;
            } else {
                eq_idx = eq_idx + 1;
            }
        }
        if found {
            if eq_idx == 0 {
                proof {
                    assert(apply_pair(cur@, pv[i as int]) is None);
                    assert(apply_pairs(base, pv.subrange(0, i + 1)) is None);
                    lemma_apply_pairs_extend_none(base, pv, i + 1);
                    assert(apply_pairs(base, pv) is None);
                }
                return Result::Err(KvError { pair: pair.clone() });
            }
            let key = pair.as_str().substring_char(0, eq_idx).to_owned();
            let val = pair.as_str().substring_char(eq_idx + 1, n).to_owned();
            cur.set(key, val);
        } else if n > 0 && pair.as_str().get_char(n - 1) == '-' {
            proof {
                assert(pair@.last() == pair@[n - 1]);
            }
            if n == 1 {
                cur.clear();
            } else {
                let key = pair.as_str().substring_char(0, n - 1);
                cur.remove(key);
            }
        } else {
            proof {
                if n > 0 {
                    assert(pair@.last() == pair@[n - 1]);
                }
                assert(apply_pair(cur@, pv[i as int]) is None);
                assert(apply_pairs(base, pv.subrange(0, i + 1)) is None);
                lemma_apply_pairs_extend_none(base, pv, i + 1);
                assert(apply_pairs(base, pv) is None);
            }
            return Result::Err(KvError { pair: pair.clone() });
        }
        i = i + 1;
    }
    proof {
        assert(pv.subrange(0, pv.len() as int) =~= pv);
    }
    Result::Ok(cur)
}

/// Why components could not be packed into layers.
#[derive(Debug, Clone, Copy, PartialEq, Eq, Structural)]
pub enum PackComponentsError {
    /// The total byte size of all components exceeds `u64::MAX`.
    SizeOverflow,
    /// A component carries a stability above the fixed-point scale:
    /// a programmer error in a provider.
    InvalidStability,
}

/// Sum of the file sizes of a component's files, as a mathematical
/// integer.
pub open spec fn spec_component_size(files: Seq<(Seq<Seq<char>>, crate::filemap::FileInfoV)>)
    -> int
    decreases files.len(),
{
    if files.len() == 0 {
        0
    } else {
        spec_component_size(files.drop_last()) + files.last().1.size
    }
}

/// Total byte size of a list of named components.
pub open spec fn spec_components_total(comps: Seq<(String, Component)>) -> int
    decreases comps.len(),
{
    if comps.len() == 0 {
        0
    } else {
        spec_components_total(comps.drop_last()) + spec_component_size(comps.last().1.files@)
    }
}

proof fn lemma_component_size_nonneg(files: Seq<(Seq<Seq<char>>, crate::filemap::FileInfoV)>)
    ensures
        spec_component_size(files) >= 0,
    decreases files.len(),
{
    if files.len() > 0 {
        lemma_component_size_nonneg(files.drop_last());
    }
}

proof fn lemma_components_total_nonneg(comps: Seq<(String, Component)>)
    ensures
        spec_components_total(comps) >= 0,
    decreases comps.len(),
{
    if comps.len() > 0 {
        lemma_components_total_nonneg(comps.drop_last());
        lemma_component_size_nonneg(comps.last().1.files@);
    }
}

proof fn lemma_components_total_remove(comps: Seq<(String, Component)>, k: int)
    requires
        0 <= k < comps.len(),
    ensures
        spec_components_total(comps.remove(k)) + spec_component_size(comps[k].1.files@)
            == spec_components_total(comps),
    decreases comps.len(),
{
    if k == comps.len() - 1 {
        assert(comps.remove(k) =~= comps.drop_last());
    } else {
        assert(comps.remove(k).drop_last() =~= comps.drop_last().remove(k));
        assert(comps.remove(k).last() == comps.last());
        lemma_components_total_remove(comps.drop_last(), k);
    }
}

proof fn lemma_components_total_prefix_le(comps: Seq<(String, Component)>, n: int)
    requires
        0 <= n <= comps.len(),
    ensures
        spec_components_total(comps.subrange(0, n)) <= spec_components_total(comps),
    decreases comps.len() - n,
{
    if n < comps.len() {
        assert(comps.subrange(0, n + 1).drop_last() =~= comps.subrange(0, n));
        assert(comps.subrange(0, n + 1).last() == comps[n]);
        lemma_component_size_nonneg(comps[n].1.files@);
        lemma_components_total_prefix_le(comps, n + 1);
    } else {
        assert(comps.subrange(0, n) =~= comps);
    }
}

/// Maximum mtime clamp over the members picked by `idxs`.
pub open spec fn spec_max_clamp(entries: Seq<(String, Component)>, idxs: Seq<usize>) -> int
    decreases idxs.len(),
{
    if idxs.len() == 0 {
        0
    } else {
        let m = spec_max_clamp(entries, idxs.drop_last());
        if entries[idxs.last() as int].1.mtime_clamp > m {
            entries[idxs.last() as int].1.mtime_clamp as int
        } else {
            m
        }
    }
}

/// Fixed-point product of the members' stabilities, as [`spec_prod`]
/// but over named components.
pub open spec fn spec_group_stability(entries: Seq<(String, Component)>, idxs: Seq<usize>) -> int
    decreases idxs.len(),
{
    if idxs.len() == 0 {
        STABILITY_SCALE as int
    } else {
        spec_group_stability(entries, idxs.drop_last()) * entries[
            idxs.last() as int].1.stability / (STABILITY_SCALE as int)
    }
}

proof fn lemma_prod_eq_group_stability(
    items: Seq<PackItem>,
    entries: Seq<(String, Component)>,
    idxs: Seq<usize>,
)
    requires
        items.len() == entries.len(),
        forall|v: int| 0 <= v < items.len() ==> (#[trigger] items[v]).stability == entries[
            v].1.stability,
        forall|k: int| 0 <= k < idxs.len() ==> (#[trigger] idxs[k] as int) < items.len(),
    ensures
        spec_prod(items, idxs) == spec_group_stability(entries, idxs),
    decreases idxs.len(),
{
    if idxs.len() > 0 {
        assert forall|k: int|
            0 <= k < idxs.drop_last().len() implies (#[trigger] idxs.drop_last()[k] as int)
            < items.len() by {
            assert(idxs.drop_last()[k] == idxs[k]);
        }
        lemma_prod_eq_group_stability(items, entries, idxs.drop_last());
    }
}

/// The member names picked by `idxs`, in order.
pub open spec fn spec_member_names(entries: Seq<(String, Component)>, idxs: Seq<usize>) -> Seq<
    Seq<char>,
> {
    idxs.map_values(|i: usize| entries[i as int].0@)
}

/// Name sequence in ascending lexicographic order.
pub open spec fn names_sorted_asc(ns: Seq<Seq<char>>) -> bool {
    forall|p: int, q: int| 0 <= p < q < ns.len() ==> !chars_lt(ns[q], ns[p])
}

/// Named components in ascending name order.
pub open spec fn entries_sorted_by_name(es: Seq<(String, Component)>) -> bool {
    forall|p: int, q: int| 0 <= p < q < es.len() ==> !chars_lt(es[q].0@, es[p].0@)
}

/// Names joined by single spaces.
pub open spec fn spec_join_names(ns: Seq<Seq<char>>) -> Seq<char>
    decreases ns.len(),
{
    if ns.len() == 0 {
        Seq::empty()
    } else if ns.len() == 1 {
        ns[0]
    } else {
        spec_join_names(ns.drop_last()) + seq![' '] + ns.last()
    }
}

/// Index into `idxs` of the last member whose files hold `k`, or -1.
pub open spec fn spec_merge_owner(
    entries: Seq<(String, Component)>,
    idxs: Seq<usize>,
    k: Seq<Seq<char>>,
) -> int
    decreases idxs.len(),
{
    if idxs.len() == 0 {
        -1
    } else if crate::filemap::spec_contains_of(entries[idxs.last() as int].1.files@, k) {
        idxs.len() - 1
    } else {
        spec_merge_owner(entries, idxs.drop_last(), k)
    }
}

proof fn lemma_merge_owner_props(
    entries: Seq<(String, Component)>,
    idxs: Seq<usize>,
    k: Seq<Seq<char>>,
)
    ensures
        -1 <= spec_merge_owner(entries, idxs, k) < idxs.len(),
        spec_merge_owner(entries, idxs, k) >= 0 ==> crate::filemap::spec_contains_of(
            entries[idxs[spec_merge_owner(entries, idxs, k)] as int].1.files@,
            k,
        ),
    decreases idxs.len(),
{
    if idxs.len() > 0 && !crate::filemap::spec_contains_of(
        entries[idxs.last() as int].1.files@,
        k,
    ) {
        lemma_merge_owner_props(entries, idxs.drop_last(), k);
        let o = spec_merge_owner(entries, idxs.drop_last(), k);
        if o >= 0 {
            assert(idxs.drop_last()[o] == idxs[o]);
        }
    }
}

/// What the merged file map holds under `k`: the last owning member's
/// record, or nothing.
pub open spec fn spec_merge_get(
    entries: Seq<(String, Component)>,
    idxs: Seq<usize>,
    k: Seq<Seq<char>>,
) -> Option<crate::filemap::FileInfoV> {
    let q = spec_merge_owner(entries, idxs, k);
    if q >= 0 {
        crate::filemap::spec_get_of(entries[idxs[q] as int].1.files@, k)
    } else {
        Option::None
    }
}

/// How a packed output relates to its inputs: `entries` is the
/// name-sorted arrangement of the input components, `gs` partitions its
/// indices, and each output layer is exactly the merge of one group:
/// clamp the members' maximum, stability their fixed-point product,
/// name the members' names sorted and space-joined, and files the union
/// of the members' maps with the last member winning on a shared path.
pub open spec fn spec_pack_shape(
    components: Seq<(String, Component)>,
    entries: Seq<(String, Component)>,
    gs: Seq<PackGroup>,
    out: Seq<(String, Component)>,
) -> bool {
    &&& entries.to_multiset() == components.to_multiset()
    &&& entries.len() == components.len()
    &&& entries_sorted_by_name(entries)
    &&& forall|v: int| 0 <= v < entries.len() ==> occurrences(gs, v) == 1
    &&& forall|v: int| !(0 <= v < entries.len()) ==> occurrences(gs, v) == 0
    &&& out.len() == gs.len()
    &&& forall|j: int| 0 <= j < gs.len() ==> (#[trigger] gs[j]).indices@.len() > 0
    &&& forall|j: int, k: int|
        0 <= j < gs.len() && 0 <= k < gs[j].indices@.len() ==> ((#[trigger] gs[j].indices@[
        k]) as int) < entries.len()
    &&& forall|j: int|
        0 <= j < out.len() ==> (#[trigger] out[j]).1.mtime_clamp as int == spec_max_clamp(
            entries,
            gs[j].indices@,
        )
    &&& forall|j: int|
        0 <= j < out.len() ==> (#[trigger] out[j]).1.stability as int == spec_group_stability(
            entries,
            gs[j].indices@,
        )
    &&& forall|j: int|
        0 <= j < out.len() ==> exists|ns: Seq<Seq<char>>|
            ns.to_multiset() == spec_member_names(entries, (#[trigger] gs[j]).indices@)
                .to_multiset() && names_sorted_asc(ns) && out[j].0@ == spec_join_names(ns)
    &&& forall|j: int, k: Seq<Seq<char>>|
        0 <= j < out.len() ==> (#[trigger] out[j].1.files.spec_get(k)) == spec_merge_get(
            entries,
            gs[j].indices@,
            k,
        )
}

/// Every file key of component `c` is present in the map view `sup`.
pub open spec fn covers(sup: Seq<(Seq<Seq<char>>, crate::filemap::FileInfoV)>, c: Component)
    -> bool {
    forall|fk: int|
        0 <= fk < c.files@.len() ==> crate::filemap::spec_contains_of(
            sup,
            (#[trigger] c.files@[fk]).0,
        )
}

/// The output component `c` holds every file of every member of `grp`.
pub open spec fn group_covered(
    c: Component,
    entries: Seq<(String, Component)>,
    grp: PackGroup,
) -> bool {
    forall|q: int|
        0 <= q < grp.indices@.len() ==> covers(
            c.files@,
            entries[(#[trigger] grp.indices@[q]) as int].1,
        )
}

/// Whether `s` has an element equal to `e`.
pub open spec fn holds_entry(s: Seq<(String, Component)>, e: (String, Component)) -> bool {
    exists|j: int| 0 <= j < s.len() && s[j] == e
}

/// Packs components into at most `max_layers` layers.
///
/// Components are sorted by name for deterministic packing input, their
/// sizes and stabilities are handed to [`calculate_packing`], and each
/// resulting group becomes one layer: files merged in member order,
/// mtime clamp the maximum of the members' clamps, stability the
/// group's, and the name the members' names joined by spaces in sorted
/// order. Groups come most stable first.
pub fn pack_components(components: Vec<(String, Component)>, max_layers: usize) -> (r: Result<
    Vec<(String, Component)>,
    PackComponentsError,
>)
    requires
        forall|j: int|
            0 <= j < components@.len() ==> component_clamped((#[trigger] components@[j].1)@),
        forall|j: int|
            0 <= j < components@.len() ==> (#[trigger] components@[j].1).files.wf(),
    ensures
        r matches Result::Ok(out) ==> {
            &&& out@.len() <= max_layers || components@.len() == 0 || max_layers == 0
            &&& (components@.len() > 0 && max_layers > 0 && components@.len() <= max_layers
                ==> out@.len() == components@.len())
            &&& (components@.len() == 0 || max_layers == 0 ==> out@.len() == 0)
            &&& forall|j: int|
                0 <= j < out@.len() ==> component_clamped((#[trigger] out@[j].1)@)
            &&& forall|j: int| 0 <= j < out@.len() ==> (#[trigger] out@[j].1).files.wf()
            &&& forall|j: int|
                0 <= j < out@.len() ==> (#[trigger] out@[j].1).stability <= STABILITY_SCALE
            &&& forall|p: int, q: int|
                0 <= p < q < out@.len() ==> out@[p].1.stability >= out@[q].1.stability
            &&& (max_layers > 0 ==> forall|jc: int, fk: int|
                0 <= jc < components@.len() && 0 <= fk < components@[jc].1.files@.len()
                    ==> some_component_contains(
                    out@,
                    (#[trigger] components@[jc].1.files@[fk]).0,
                ))
            &&& (max_layers > 0 ==> exists|entries: Seq<(String, Component)>, gs: Seq<PackGroup>|
                spec_pack_shape(components@, entries, gs, out@))
        },
        spec_components_total(components@) <= u64::MAX && (forall|j: int|
            0 <= j < components@.len() ==> (#[trigger] components@[j]).1.stability
                <= STABILITY_SCALE) ==> r is Ok,
        r == Result::<Vec<(String, Component)>, PackComponentsError>::Err(
            PackComponentsError::SizeOverflow,
        ) ==> spec_components_total(components@) > u64::MAX,
        r == Result::<Vec<(String, Component)>, PackComponentsError>::Err(
            PackComponentsError::InvalidStability,
        ) ==> exists|j: int|
            0 <= j < components@.len() && (#[trigger] components@[j]).1.stability
                > STABILITY_SCALE,
{
    // Sort by component name for deterministic packing input.
    let ghost n0 = components@.len();
    let ghost comps0 = components@;
    let mut rem = components;
    let mut entries: Vec<(String, Component)> = Vec::new();
    proof {
        broadcast use vstd::seq_lib::group_to_multiset_ensures;

        assert(entries@.to_multiset().add(rem@.to_multiset()) =~= comps0.to_multiset());
    }
    while rem.len() > 0
        invariant
            entries@.len() + rem@.len() == n0,
            entries@.to_multiset().add(rem@.to_multiset()) == comps0.to_multiset(),
            spec_components_total(entries@) + spec_components_total(rem@)
                == spec_components_total(comps0),
            entries_sorted_by_name(entries@),
            forall|p: int, q: int|
                0 <= p < entries@.len() && 0 <= q < rem@.len() ==> !chars_lt(
                    rem@[q].0@,
                    entries@[p].0@,
                ),
            forall|jc: int|
                0 <= jc < n0 ==> holds_entry(entries@, #[trigger] comps0[jc]) || holds_entry(
                    rem@,
                    comps0[jc],
                ),
            forall|j: int| 0 <= j < entries@.len() ==> holds_entry(comps0, #[trigger] entries@[j]),
            forall|j: int| 0 <= j < rem@.len() ==> holds_entry(comps0, #[trigger] rem@[j]),
            forall|j: int|
                0 <= j < entries@.len() ==> component_clamped((#[trigger] entries@[j].1)@),
            forall|j: int| 0 <= j < entries@.len() ==> (#[trigger] entries@[j].1).files.wf(),
            forall|j: int| 0 <= j < rem@.len() ==> component_clamped((#[trigger] rem@[j].1)@),
            forall|j: int| 0 <= j < rem@.len() ==> (#[trigger] rem@[j].1).files.wf(),
        decreases rem.len(),
    {
        // Take the least remaining name.
        proof {
            crate::pathutil::lemma_chars_lt_trichotomy(rem@[0].0@, rem@[0].0@);
        }
        let mut m: usize = 0;
        let mut k: usize = 1;
        while k < rem.len()
            invariant
                rem@.len() > 0,
                m < k <= rem@.len(),
                forall|q: int| 0 <= q < k ==> !chars_lt((#[trigger] rem@[q]).0@, rem@[m as int].0@),
            decreases rem@.len() - k,
        {
            let ghost old_m = m as int;
            if chars_cmp_lt(rem[k].0.as_str(), rem[m].0.as_str()) {
                m = k;
                proof {
                    assert forall|q: int|
                        0 <= q < k + 1 implies !chars_lt((#[trigger] rem@[q]).0@, rem@[
                    m as int].0@) by {
                        if q == k as int {
                            crate::pathutil::lemma_chars_lt_trichotomy(
                                rem@[q].0@,
                                rem@[m as int].0@,
                            );
                        } else if chars_lt(rem@[q].0@, rem@[m as int].0@) {
                            crate::pathutil::lemma_chars_lt_trans(
                                rem@[q].0@,
                                rem@[m as int].0@,
                                rem@[old_m].0@,
                            );
                        }
                    }
                }
            }
            k = k + 1;
        }
        let ghost pre_rem = rem@;
        let ghost pre_entries = entries@;
        let e = rem.remove(m);
        entries.push(e);
        proof {
            broadcast use vstd::seq_lib::group_to_multiset_ensures;

            assert(e == pre_rem[m as int]);
            assert(pre_rem.contains(e));
            assert(rem@ =~= pre_rem.remove(m as int));
            assert(entries@.drop_last() =~= pre_entries);
            assert(rem@.to_multiset() =~= pre_rem.to_multiset().remove(e));
            assert(entries@.to_multiset() =~= pre_entries.to_multiset().insert(e));
            assert(entries@.to_multiset().add(rem@.to_multiset()) =~= comps0.to_multiset());
            lemma_components_total_remove(pre_rem, m as int);
            assert forall|jc: int|
                0 <= jc < n0 implies holds_entry(entries@, #[trigger] comps0[jc]) || holds_entry(
                rem@,
                comps0[jc],
            ) by {
                if holds_entry(pre_entries, comps0[jc]) {
                    let jw = choose|j: int|
                        0 <= j < pre_entries.len() && pre_entries[j] == comps0[jc];
                    assert(entries@[jw] == comps0[jc]);
                } else {
                    let jw = choose|j: int| 0 <= j < pre_rem.len() && pre_rem[j] == comps0[jc];
                    if jw == m as int {
                        assert(entries@[entries@.len() - 1] == comps0[jc]);
                    } else if jw < m as int {
                        assert(rem@[jw] == pre_rem[jw]);
                    } else {
                        assert(rem@[jw - 1] == pre_rem[jw]);
                    }
                }
            }
            assert forall|j: int|
                0 <= j < rem@.len() implies component_clamped((#[trigger] rem@[j].1)@)
                && rem@[j].1.files.wf() && holds_entry(comps0, rem@[j]) && !chars_lt(
                rem@[j].0@,
                e.0@,
            ) by {
                if j < m {
                    assert(rem@[j] == pre_rem[j]);
                } else {
                    assert(rem@[j] == pre_rem[j + 1]);
                }
            }
            assert forall|j: int|
                0 <= j < entries@.len() implies component_clamped((#[trigger] entries@[j].1)@)
                && entries@[j].1.files.wf() && holds_entry(comps0, entries@[j]) by {
                if j < entries@.len() - 1 {
                    assert(entries@[j] == pre_entries[j]);
                } else {
                    assert(entries@[j] == e);
                }
            }
            assert forall|p: int, q: int|
                0 <= p < q < entries@.len() implies !chars_lt(entries@[q].0@, entries@[p].0@) by {
                assert(entries@[p] == pre_entries[p]);
                if q < entries@.len() - 1 {
                    assert(entries@[q] == pre_entries[q]);
                } else {
                    assert(entries@[q] == pre_rem[m as int]);
                }
            }
        }
    }
    proof {
        broadcast use vstd::seq_lib::group_to_multiset_ensures;

        assert(rem@.to_multiset().len() == 0);
        assert(rem@.to_multiset() =~= vstd::multiset::Multiset::<(String, Component)>::empty());
        assert(entries@.to_multiset() =~= comps0.to_multiset());
        assert(spec_components_total(rem@) == 0);
        assert(spec_components_total(entries@) == spec_components_total(comps0));
    }

    // Compute sizes and build the packing items.
    let mut items: Vec<PackItem> = Vec::new();
    let mut total: u128 = 0;
    let mut i: usize = 0;
    while i < entries.len()
        invariant
            i <= entries@.len(),
            entries@.len() == n0,
            comps0 == components@,
            items@.len() == i,
            total <= u64::MAX,
            total == total_item_size(items@.subrange(0, i as int)),
            total_item_size(items@.subrange(0, i as int)) == total_item_size(items@),
            total == spec_components_total(entries@.subrange(0, i as int)),
            spec_components_total(entries@) == spec_components_total(comps0),
            forall|j: int| 0 <= j < entries@.len() ==> holds_entry(comps0, #[trigger] entries@[j]),
            forall|j: int| 0 <= j < i ==> (#[trigger] items@[j]).stability <= STABILITY_SCALE,
            forall|j: int|
                0 <= j < i ==> (#[trigger] items@[j]).stability == entries@[j].1.stability,
            forall|j: int|
                0 <= j < entries@.len() ==> component_clamped((#[trigger] entries@[j].1)@),
            forall|j: int| 0 <= j < entries@.len() ==> (#[trigger] entries@[j].1).files.wf(),
        decreases entries@.len() - i,
    {
        let comp = &entries[i].1;
        let mut size: u128 = 0;
        let mut f: usize = 0;
        let nf = comp.files.len();
        while f < nf
            invariant
                f <= nf,
                nf == comp.files@.len(),
                comp == &entries[i as int].1,
                0 <= i < entries@.len(),
                size == spec_component_size(comp.files@.subrange(0, f as int)),
                size <= f * 0xFFFF_FFFF_FFFF_FFFFu64,
            decreases nf - f,
        {
            let info = comp.files.info_at(f);
            proof {
                assert(comp.files@.subrange(0, f + 1).drop_last() =~= comp.files@.subrange(
                    0,
                    f as int,
                ));
                assert(comp.files@.subrange(0, f + 1).last() == comp.files@[f as int]);
                assert(size + info@.size <= (f + 1) * 0xFFFF_FFFF_FFFF_FFFFu64)
                    by (nonlinear_arith)
                    requires
                        size <= f * 0xFFFF_FFFF_FFFF_FFFFu64,
                        info@.size <= 0xFFFF_FFFF_FFFF_FFFFu64,
                        f >= 0,
                ;
                assert((f + 1) * 0xFFFF_FFFF_FFFF_FFFFu64 < u128::MAX) by (nonlinear_arith)
                    requires
                        f + 1 <= usize::MAX,
                ;
            }
            size = size + info.size as u128;
            f = f + 1;
        }
        proof {
            assert(comp.files@.subrange(0, nf as int) =~= comp.files@);
            assert(entries@.subrange(0, i + 1).drop_last() =~= entries@.subrange(0, i as int));
            assert(entries@.subrange(0, i + 1).last() == entries@[i as int]);
        }
        if size > (u64::MAX as u128) - total {
            proof {
                assert(total + size == spec_components_total(entries@.subrange(0, i + 1)));
                lemma_components_total_prefix_le(entries@, i + 1);
                assert(spec_components_total(components@) > u64::MAX);
            }
            return Result::Err(PackComponentsError::SizeOverflow);
        }
        let stab = comp.stability;
        if stab > STABILITY_SCALE {
            proof {
                assert(holds_entry(comps0, entries@[i as int]));
                let jw = choose|j: int| 0 <= j < comps0.len() && comps0[j] == entries@[i as int];
                assert(components@[jw].1.stability > STABILITY_SCALE);
            }
            return Result::Err(PackComponentsError::InvalidStability);
        }
        let ghost pre_items = items@;
        items.push(PackItem { size: size as u64, stability: stab });
        total = total + size;
        proof {
            assert(items@.drop_last() =~= pre_items);
            assert(items@.subrange(0, i + 1) =~= items@);
            assert(pre_items.subrange(0, i as int) =~= pre_items);
        }
        i = i + 1;
    }
    proof {
        assert(items@.subrange(0, items@.len() as int) =~= items@);
        assert(entries@.subrange(0, n0 as int) =~= entries@);
    }

    let groups = calculate_packing(&items, max_layers);

    // Build one output component per group.
    let mut out: Vec<(String, Component)> = Vec::new();
    let mut g: usize = 0;
    while g < groups.len()
        invariant
            g <= groups@.len(),
            out@.len() == g,
            items@.len() == entries@.len(),
            entries@.len() == n0,
            forall|jc: int| 0 <= jc < n0 ==> holds_entry(entries@, #[trigger] comps0[jc]),
            max_layers > 0 ==> forall|v: int| 0 <= v < n0 ==> occurrences(groups@, v) == 1,
            forall|jg: int|
                0 <= jg < g ==> group_covered((#[trigger] out@[jg]).1, entries@, groups@[jg]),
            groups@.len() == if n0 == 0 || max_layers == 0 {
                0int
            } else if n0 <= max_layers {
                n0 as int
            } else {
                max_layers as int
            },
            wf_groups(items@, groups@),
            sorted_by_stability_desc(groups@),
            forall|j: int|
                0 <= j < entries@.len() ==> component_clamped((#[trigger] entries@[j].1)@),
            forall|j: int| 0 <= j < entries@.len() ==> (#[trigger] entries@[j].1).files.wf(),
            forall|j: int| 0 <= j < out@.len() ==> component_clamped((#[trigger] out@[j].1)@),
            forall|j: int| 0 <= j < out@.len() ==> (#[trigger] out@[j].1).files.wf(),
            forall|j: int|
                0 <= j < out@.len() ==> (#[trigger] out@[j].1).stability == groups@[j].stability,
            forall|j: int| 0 <= j < groups@.len() ==> (#[trigger] groups@[j]).stability
                <= STABILITY_SCALE,
            forall|jg: int|
                0 <= jg < g ==> (#[trigger] out@[jg]).1.mtime_clamp as int == spec_max_clamp(
                    entries@,
                    groups@[jg].indices@,
                ),
            forall|jg: int|
                0 <= jg < g ==> exists|ns: Seq<Seq<char>>|
                    ns.to_multiset() == spec_member_names(
                        entries@,
                        (#[trigger] groups@[jg]).indices@,
                    ).to_multiset() && names_sorted_asc(ns) && out@[jg].0@ == spec_join_names(ns),
            forall|jg: int, kk: Seq<Seq<char>>|
                0 <= jg < g ==> (#[trigger] out@[jg].1.files.spec_get(kk)) == spec_merge_get(
                    entries@,
                    groups@[jg].indices@,
                    kk,
                ),
        decreases groups@.len() - g,
    {
        let group = &groups[g];
        proof {
            assert(wf_group(items@, groups@[g as int]));
            assert(group.indices@.subrange(0, 0) =~= Seq::<usize>::empty());
        }
        // The clamp is the maximum of the members' clamps.
        let mut clamp: u64 = 0;
        let mut k: usize = 0;
        while k < group.indices.len()
            invariant
                k <= group.indices@.len(),
                group == &groups@[g as int],
                0 <= g < groups@.len(),
                items@.len() == entries@.len(),
                wf_group(items@, groups@[g as int]),
                clamp as int == spec_max_clamp(entries@, group.indices@.subrange(0, k as int)),
                forall|q: int|
                    0 <= q < k ==> (#[trigger] group.indices@[q] as int) < entries@.len()
                        && entries@[group.indices@[q] as int].1.mtime_clamp <= clamp,
            decreases group.indices@.len() - k,
        {
            let idx = group.indices[k];
            let c = entries[idx].1.mtime_clamp;
            proof {
                assert(group.indices@.subrange(0, k + 1).drop_last() =~= group.indices@.subrange(
                    0,
                    k as int,
                ));
                assert(group.indices@.subrange(0, k + 1).last() == group.indices@[k as int]);
            }
            if c > clamp {
                clamp = c;
            }
            k = k + 1;
        }
        proof {
            assert(group.indices@.subrange(0, group.indices@.len() as int)
                =~= group.indices@);
        }
        // Merge the members' files and collect their names.
        let mut files = FileMap::new();
        let mut names: Vec<String> = Vec::new();
        proof {
            assert forall|kk: Seq<Seq<char>>| #[trigger] files.spec_get(kk) == spec_merge_get(
                entries@,
                group.indices@.subrange(0, 0),
                kk,
            ) by {
                assert(!crate::filemap::spec_contains_of(files@, kk));
            }
            assert(names.deep_view() =~= spec_member_names(
                entries@,
                group.indices@.subrange(0, 0),
            ));
        }
        let mut k2: usize = 0;
        while k2 < group.indices.len()
            invariant
                k2 <= group.indices@.len(),
                group == &groups@[g as int],
                0 <= g < groups@.len(),
                items@.len() == entries@.len(),
                wf_group(items@, groups@[g as int]),
                forall|j: int|
                    0 <= j < entries@.len() ==> component_clamped((#[trigger] entries@[j].1)@),
                forall|j: int|
                    0 <= j < entries@.len() ==> (#[trigger] entries@[j].1).files.wf(),
                forall|q: int|
                    0 <= q < group.indices@.len() ==> (#[trigger] group.indices@[q] as int)
                        < entries@.len() && entries@[group.indices@[q] as int].1.mtime_clamp
                        <= clamp,
                files.wf(),
                forall|kk: Seq<Seq<char>>|
                    (#[trigger] crate::filemap::spec_get_of(files@, kk)) matches Option::Some(v)
                        ==> v.mtime <= clamp,
                forall|q: int|
                    0 <= q < k2 ==> covers(
                        files@,
                        entries@[(#[trigger] group.indices@[q]) as int].1,
                    ),
                forall|kk: Seq<Seq<char>>|
                    #[trigger] files.spec_get(kk) == spec_merge_get(
                        entries@,
                        group.indices@.subrange(0, k2 as int),
                        kk,
                    ),
                names.deep_view() == spec_member_names(
                    entries@,
                    group.indices@.subrange(0, k2 as int),
                ),
            decreases group.indices@.len() - k2,
        {
            let idx = group.indices[k2];
            let comp = &entries[idx].1;
            let ghost pre_names = names.deep_view();
            names.push(entries[idx].0.clone());
            proof {
                assert(names.deep_view() =~= pre_names.push(entries@[idx as int].0@));
                assert(spec_member_names(entries@, group.indices@.subrange(0, k2 + 1))
                    =~= pre_names.push(entries@[idx as int].0@));
            }
            let ghost pre_k2_files = files@;
            let ghost prefix = group.indices@.subrange(0, k2 as int);
            let nf = comp.files.len();
            let mut f: usize = 0;
            while f < nf
                invariant
                    f <= nf,
                    nf == comp.files@.len(),
                    comp == &entries[idx as int].1,
                    0 <= idx < entries@.len(),
                    group == &groups@[g as int],
                    0 <= g < groups@.len(),
                    idx == group.indices@[k2 as int],
                    k2 < group.indices@.len(),
                    prefix == group.indices@.subrange(0, k2 as int),
                    component_clamped(entries@[idx as int].1@),
                    comp.files.wf(),
                    entries@[idx as int].1.mtime_clamp <= clamp,
                    files.wf(),
                    forall|kk: Seq<Seq<char>>|
                        (#[trigger] crate::filemap::spec_get_of(files@, kk)) matches Option::Some(
                            v,
                        ) ==> v.mtime <= clamp,
                    forall|q: int|
                        0 <= q < k2 ==> covers(
                            files@,
                            entries@[(#[trigger] group.indices@[q]) as int].1,
                        ),
                    forall|fk: int|
                        0 <= fk < f ==> crate::filemap::spec_contains_of(
                            files@,
                            (#[trigger] comp.files@[fk]).0,
                        ),
                    forall|kk: Seq<Seq<char>>|
                        #[trigger] files.spec_get(kk) == if (exists|fk: int|
                            0 <= fk < f && (#[trigger] comp.files@[fk]).0 == kk) {
                            crate::filemap::spec_get_of(comp.files@, kk)
                        } else {
                            spec_merge_get(entries@, prefix, kk)
                        },
                decreases nf - f,
            {
                let key = clone_path(comp.files.key_at(f));
                let val = comp.files.info_at(f).duplicate();
                let ghost pre_files = files@;
                proof {
                    comp.files.lemma_get_at(f as int);
                    assert(val@.mtime <= entries@[idx as int].1.mtime_clamp);
                }
                let ghost kd = key.deep_view();
                let ghost vd = val@;
                files.insert(key, val);
                proof {
                    assert forall|kk: Seq<Seq<char>>|
                        (#[trigger] crate::filemap::spec_get_of(files@, kk))
                            is Some implies crate::filemap::spec_get_of(
                        files@,
                        kk,
                    )->Some_0.mtime <= clamp by {
                        if kk == kd {
                            assert(files.spec_get(kk) == Option::Some(vd));
                        } else {
                            assert(files.spec_get(kk) == crate::filemap::spec_get_of(
                                pre_files,
                                kk,
                            ));
                        }
                    }
                    assert forall|kk: Seq<Seq<char>>|
                        crate::filemap::spec_contains_of(
                            pre_files,
                            kk,
                        ) implies crate::filemap::spec_contains_of(files@, kk) by {
                        if kk != kd {
                            assert(files.spec_get(kk) == crate::filemap::spec_get_of(
                                pre_files,
                                kk,
                            ));
                        } else {
                            assert(files.spec_get(kk) == Option::Some(vd));
                        }
                    }
                    assert forall|q: int|
                        0 <= q < k2 implies covers(
                        files@,
                        entries@[(#[trigger] group.indices@[q]) as int].1,
                    ) by {}
                    assert(crate::filemap::spec_contains_of(files@, comp.files@[f as int].0));
                    assert forall|kk: Seq<Seq<char>>|
                        #[trigger] files.spec_get(kk) == if (exists|fk: int|
                            0 <= fk < f + 1 && (#[trigger] comp.files@[fk]).0 == kk) {
                            crate::filemap::spec_get_of(comp.files@, kk)
                        } else {
                            spec_merge_get(entries@, prefix, kk)
                        } by {
                        if kk == kd {
                            assert(comp.files@[f as int].0 == kk);
                            assert(files.spec_get(kk) == Option::Some(vd));
                            assert(crate::filemap::spec_get_of(comp.files@, kk) == Option::Some(
                                vd,
                            ));
                        } else {
                            assert(files.spec_get(kk) == crate::filemap::spec_get_of(
                                pre_files,
                                kk,
                            ));
                            if exists|fk: int|
                                0 <= fk < f + 1 && (#[trigger] comp.files@[fk]).0 == kk {
                                let fk = choose|fk: int|
                                    0 <= fk < f + 1 && (#[trigger] comp.files@[fk]).0 == kk;
                                assert(fk < f);
                            }
                        }
                    }
                }
                f = f + 1;
            }
            proof {
                assert(covers(files@, entries@[idx as int].1));
                let post = group.indices@.subrange(0, k2 + 1);
                assert(post.drop_last() =~= prefix);
                assert(post.last() == group.indices@[k2 as int]);
                assert forall|kk: Seq<Seq<char>>| #[trigger] files.spec_get(kk) == spec_merge_get(
                    entries@,
                    post,
                    kk,
                ) by {
                    assert(entries@[idx as int].1.files@ == comp.files@);
                    if crate::filemap::spec_contains_of(comp.files@, kk) {
                        let wi = choose|i: int|
                            0 <= i < comp.files@.len() && (#[trigger] comp.files@[i]).0 == kk;
                        assert(exists|fk: int|
                            0 <= fk < nf && (#[trigger] comp.files@[fk]).0 == kk);
                        assert(files.spec_get(kk) == crate::filemap::spec_get_of(
                            comp.files@,
                            kk,
                        ));
                        assert(spec_merge_owner(entries@, post, kk) == post.len() - 1);
                        assert(post[post.len() - 1] == idx);
                        assert(spec_merge_get(entries@, post, kk)
                            == crate::filemap::spec_get_of(comp.files@, kk));
                    } else {
                        assert forall|fk: int|
                            0 <= fk < nf implies (#[trigger] comp.files@[fk]).0 != kk by {
                            if comp.files@[fk].0 == kk {
                                assert(crate::filemap::spec_contains_of(comp.files@, kk));
                            }
                        }
                        assert(files.spec_get(kk) == spec_merge_get(entries@, prefix, kk));
                        assert(spec_merge_owner(entries@, post, kk) == spec_merge_owner(
                            entries@,
                            prefix,
                            kk,
                        ));
                        lemma_merge_owner_props(entries@, prefix, kk);
                        let o = spec_merge_owner(entries@, prefix, kk);
                        if o >= 0 {
                            assert(post[o] == prefix[o]);
                        }
                    }
                }
            }
            k2 = k2 + 1;
        }
        proof {
            assert(group.indices@.subrange(0, group.indices@.len() as int) =~= group.indices@);
        }
        // Sort the member names and join them with spaces.
        let ghost all_names = names.deep_view();
        let mut sorted_names: Vec<String> = Vec::new();
        proof {
            broadcast use vstd::seq_lib::group_to_multiset_ensures;

            assert(sorted_names.deep_view().to_multiset().add(names.deep_view().to_multiset())
                =~= all_names.to_multiset());
        }
        while names.len() > 0
            invariant
                sorted_names.deep_view().to_multiset().add(names.deep_view().to_multiset())
                    == all_names.to_multiset(),
                names_sorted_asc(sorted_names.deep_view()),
                forall|p: int, q: int|
                    0 <= p < sorted_names.deep_view().len() && 0 <= q < names.deep_view().len()
                        ==> !chars_lt(
                        names.deep_view()[q],
                        sorted_names.deep_view()[p],
                    ),
            decreases names.len(),
        {
            let mut m: usize = 0;
            proof {
                crate::pathutil::lemma_chars_lt_trichotomy(
                    names.deep_view()[0],
                    names.deep_view()[0],
                );
            }
            let mut q: usize = 1;
            while q < names.len()
                invariant
                    names@.len() > 0,
                    m < q <= names@.len(),
                    forall|p: int|
                        0 <= p < q ==> !chars_lt(
                            (#[trigger] names.deep_view()[p]),
                            names.deep_view()[m as int],
                        ),
                decreases names@.len() - q,
            {
                let ghost old_m = m as int;
                if chars_cmp_lt(names[q].as_str(), names[m].as_str()) {
                    m = q;
                    proof {
                        assert forall|p: int|
                            0 <= p < q + 1 implies !chars_lt(
                            (#[trigger] names.deep_view()[p]),
                            names.deep_view()[m as int],
                        ) by {
                            if p == q as int {
                                crate::pathutil::lemma_chars_lt_trichotomy(
                                    names.deep_view()[p],
                                    names.deep_view()[m as int],
                                );
                            } else if chars_lt(names.deep_view()[p], names.deep_view()[
                                m as int]) {
                                crate::pathutil::lemma_chars_lt_trans(
                                    names.deep_view()[p],
                                    names.deep_view()[m as int],
                                    names.deep_view()[old_m],
                                );
                            }
                        }
                    }
                } else {
                    proof {
                        assert(names.deep_view()[q as int] == names@[q as int]@);
                        assert(names.deep_view()[m as int] == names@[m as int]@);
                    }
                }
                q = q + 1;
            }
            let ghost pre_ns = names.deep_view();
            let ghost pre_sorted = sorted_names.deep_view();
            let nm = names.remove(m);
            sorted_names.push(nm);
            proof {
                broadcast use vstd::seq_lib::group_to_multiset_ensures;

                assert(nm@ == pre_ns[m as int]);
                assert(pre_ns.contains(nm@)) by {
                    assert(pre_ns[m as int] == nm@);
                }
                assert(names.deep_view() =~= pre_ns.remove(m as int));
                assert(sorted_names.deep_view() =~= pre_sorted.push(nm@));
                assert(names.deep_view().to_multiset() =~= pre_ns.to_multiset().remove(nm@));
                assert(sorted_names.deep_view().to_multiset() =~= pre_sorted.to_multiset().insert(
                    nm@,
                ));
                assert(sorted_names.deep_view().to_multiset().add(
                    names.deep_view().to_multiset(),
                ) =~= all_names.to_multiset());
                assert forall|p: int, q2: int|
                    0 <= p < sorted_names.deep_view().len() && 0 <= q2
                        < names.deep_view().len() implies !chars_lt(
                    names.deep_view()[q2],
                    sorted_names.deep_view()[p],
                ) by {
                    let nq = if q2 < m as int {
                        pre_ns[q2]
                    } else {
                        pre_ns[q2 + 1]
                    };
                    assert(names.deep_view()[q2] == nq);
                    if p < sorted_names.deep_view().len() - 1 {
                        assert(sorted_names.deep_view()[p] == pre_sorted[p]);
                    } else {
                        assert(sorted_names.deep_view()[p] == nm@);
                    }
                }
                assert forall|p: int, q2: int|
                    0 <= p < q2 < sorted_names.deep_view().len() implies !chars_lt(
                    sorted_names.deep_view()[q2],
                    sorted_names.deep_view()[p],
                ) by {
                    assert(sorted_names.deep_view()[p] == pre_sorted[p]);
                    if q2 < sorted_names.deep_view().len() - 1 {
                        assert(sorted_names.deep_view()[q2] == pre_sorted[q2]);
                    } else {
                        assert(sorted_names.deep_view()[q2] == nm@);
                    }
                }
            }
        }
        proof {
            broadcast use vstd::seq_lib::group_to_multiset_ensures;

            assert(names.deep_view().to_multiset().len() == 0);
            assert(names.deep_view().to_multiset() =~= vstd::multiset::Multiset::<
                Seq<char>,
            >::empty());
            assert(sorted_names.deep_view().to_multiset() =~= all_names.to_multiset());
        }
        let mut joined = String::new();
        let ghost ns_final = sorted_names.deep_view();
        proof {
            assert(joined@ =~= spec_join_names(ns_final.subrange(0, 0)));
        }
        let mut q: usize = 0;
        while q < sorted_names.len()
            invariant
                q <= sorted_names@.len(),
                ns_final == sorted_names.deep_view(),
                joined@ == spec_join_names(ns_final.subrange(0, q as int)),
            decreases sorted_names@.len() - q,
        {
            proof {
                assert(ns_final.subrange(0, q + 1).drop_last() =~= ns_final.subrange(0, q as int));
                assert(ns_final.subrange(0, q + 1).last() == ns_final[q as int]);
                assert(sorted_names@[q as int]@ == ns_final[q as int]);
            }
            if q > 0 {
                proof {
                    reveal_strlit(" ");
                    assert(" "@ =~= seq![' ']);
                }
                joined.append(" ");
                joined.append(sorted_names[q].as_str());
                proof {
                    assert(joined@ =~= spec_join_names(ns_final.subrange(0, q + 1)));
                }
            } else {
                joined.append(sorted_names[q].as_str());
                proof {
                    assert(ns_final.subrange(0, 1).len() == 1);
                    assert(ns_final.subrange(0, 1)[0] == ns_final[0]);
                    assert(joined@ =~= spec_join_names(ns_final.subrange(0, 1)));
                }
            }
            q = q + 1;
        }
        proof {
            assert(ns_final.subrange(0, ns_final.len() as int) =~= ns_final);
        }
        let ghost pre_out = out@;
        let ghost files_final = files@;
        let ghost joined_v = joined@;
        out.push(
            (joined, Component { mtime_clamp: clamp, stability: group.stability, files }),
        );
        proof {
            assert forall|j: int|
                0 <= j < out@.len() implies component_clamped((#[trigger] out@[j].1)@)
                && out@[j].1.files.wf() && out@[j].1.stability == groups@[j].stability by {
                if j < out@.len() - 1 {
                    assert(out@[j] == pre_out[j]);
                }
            }
            assert(out@[g as int].1.files@ == files_final);
            assert(out@[g as int].0@ == joined_v);
            assert forall|jg: int|
                0 <= jg < g + 1 implies group_covered(
                (#[trigger] out@[jg]).1,
                entries@,
                groups@[jg],
            ) && out@[jg].1.mtime_clamp as int == spec_max_clamp(
                entries@,
                groups@[jg].indices@,
            ) by {
                if jg < g as int {
                    assert(out@[jg] == pre_out[jg]);
                }
            }
            assert forall|jg: int|
                0 <= jg < g + 1 implies exists|ns: Seq<Seq<char>>|
                ns.to_multiset() == spec_member_names(
                    entries@,
                    (#[trigger] groups@[jg]).indices@,
                ).to_multiset() && names_sorted_asc(ns) && out@[jg].0@ == spec_join_names(ns) by {
                if jg < g as int {
                    assert(out@[jg] == pre_out[jg]);
                    let ns0 = choose|ns: Seq<Seq<char>>|
                        ns.to_multiset() == spec_member_names(
                            entries@,
                            groups@[jg].indices@,
                        ).to_multiset() && names_sorted_asc(ns) && pre_out[jg].0@
                            == spec_join_names(ns);
                    assert(ns0.to_multiset() == spec_member_names(
                        entries@,
                        groups@[jg].indices@,
                    ).to_multiset() && names_sorted_asc(ns0) && out@[jg].0@ == spec_join_names(
                        ns0,
                    ));
                } else {
                    assert(all_names == spec_member_names(entries@, groups@[jg].indices@));
                    assert(ns_final.to_multiset() == spec_member_names(
                        entries@,
                        groups@[jg].indices@,
                    ).to_multiset() && names_sorted_asc(ns_final) && out@[jg].0@
                        == spec_join_names(ns_final));
                }
            }
            assert forall|jg: int, kk: Seq<Seq<char>>|
                0 <= jg < g + 1 implies (#[trigger] out@[jg].1.files.spec_get(kk))
                == spec_merge_get(entries@, groups@[jg].indices@, kk) by {
                if jg < g as int {
                    assert(out@[jg] == pre_out[jg]);
                }
            }
        }
        g = g + 1;
    }
    proof {
        if max_layers > 0 {
            assert forall|jc: int, fk: int|
                0 <= jc < components@.len() && 0 <= fk < components@[jc].1.files@.len() implies
                some_component_contains(
                    out@,
                    (#[trigger] components@[jc].1.files@[fk]).0,
                ) by {
                assert(comps0[jc] == components@[jc]);
                assert(holds_entry(entries@, comps0[jc]));
                let je = choose|j: int| 0 <= j < entries@.len() && entries@[j] == comps0[jc];
                assert(occurrences(groups@, je) == 1);
                crate::packing::lemma_occurrence_witness(groups@, je);
                let (gw, qw) = choose|gw: int, qw: int|
                    0 <= gw < groups@.len() && 0 <= qw < groups@[gw].indices@.len()
                        && #[trigger] groups@[gw].indices@[qw] as int == je;
                assert(group_covered(out@[gw].1, entries@, groups@[gw]));
                assert(covers(out@[gw].1.files@, entries@[je].1));
                assert(crate::filemap::spec_contains_of(
                    out@[gw].1.files@,
                    entries@[je].1.files@[fk].0,
                ));
                assert(out@[gw].1.files.spec_contains(comps0[jc].1.files@[fk].0));
            }
            assert forall|j: int| 0 <= j < out@.len() implies (
            #[trigger] out@[j]).1.stability as int == spec_group_stability(
                entries@,
                groups@[j].indices@,
            ) by {
                assert(wf_group(items@, groups@[j]));
                lemma_prod_eq_group_stability(items@, entries@, groups@[j].indices@);
            }
            assert forall|j: int| 0 <= j < groups@.len() implies (
            #[trigger] groups@[j]).indices@.len() > 0 by {
                assert(wf_group(items@, groups@[j]));
            }
            assert forall|j: int, k: int|
                0 <= j < groups@.len() && 0 <= k < groups@[j].indices@.len() implies ((
            #[trigger] groups@[j].indices@[k]) as int) < entries@.len() by {
                assert(wf_group(items@, groups@[j]));
            }
            assert(spec_pack_shape(components@, entries@, groups@, out@));
        }
    }
    Result::Ok(out)
}

} // verus!
