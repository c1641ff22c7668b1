//! Greedy agglomerative packing of components into at most K groups.
//!
//! Definitions:
//! 1. The "stability" of a component is the probability it does not change,
//!    in fixed point (see [`crate::utils::STABILITY_SCALE`]).
//! 2. The "size" of a component is the sum of the sizes of its files.
//! 3. The "expected value" (EV) of a group is `size * product(stability)`:
//!    how many bytes we avoid re-pulling from this group on average.
//!
//! Merging two groups always loses expected value; the algorithm repeatedly
//! performs the merge with the smallest loss until at most K groups remain.

use vstd::prelude::*;

use crate::utils::STABILITY_SCALE;

verus! {

/// Input item for packing.
#[derive(Debug, Clone)]
pub struct PackItem {
    /// Total size in bytes of all files in this component.
    pub size: u64,
    /// Probability the component does not change between updates,
    /// in `[0, STABILITY_SCALE]` fixed point.
    pub stability: u64,
}

/// Output group from packing.
#[derive(Debug, Clone)]
pub struct PackGroup {
    /// Indices into the original input slice.
    pub indices: Vec<usize>,
    /// Total size in bytes of all files in this group.
    pub size: u64,
    /// Combined stability of the group (product of individual stabilities,
    /// in fixed point).
    pub stability: u64,
}

/// Number of occurrences of `v` in `s`.
pub open spec fn occ_in(s: Seq<usize>, v: int) -> nat
    decreases s.len(),
{
    if s.len() == 0 {
        0
    } else {
        occ_in(s.drop_last(), v) + if s.last() as int == v {
            1nat
        } else {
            0nat
        }
    }
}

/// Number of occurrences of index `v` over all groups of `gs`.
pub open spec fn occurrences(gs: Seq<PackGroup>, v: int) -> nat
    decreases gs.len(),
{
    if gs.len() == 0 {
        0
    } else {
        occurrences(gs.drop_last(), v) + occ_in(gs.last().indices@, v)
    }
}

/// Sum of the sizes of all groups of `gs`.
pub open spec fn total_group_size(gs: Seq<PackGroup>) -> int
    decreases gs.len(),
{
    if gs.len() == 0 {
        0
    } else {
        total_group_size(gs.drop_last()) + gs.last().size
    }
}

/// Sum of `items[k].size` over the indices `idxs`.
pub open spec fn sum_index_sizes(items: Seq<PackItem>, idxs: Seq<usize>) -> int
    decreases idxs.len(),
{
    if idxs.len() == 0 {
        0
    } else {
        sum_index_sizes(items, idxs.drop_last()) + items[idxs.last() as int].size
    }
}

/// Sum of the sizes of all items.
pub open spec fn total_item_size(items: Seq<PackItem>) -> int
    decreases items.len(),
{
    if items.len() == 0 {
        0
    } else {
        total_item_size(items.drop_last()) + items.last().size
    }
}

/// Fixed-point product of the members' stabilities, in index order:
/// starting from one (the scale), each member multiplies in with the
/// floor division the fixed-point representation forces.
pub open spec fn spec_prod(items: Seq<PackItem>, idxs: Seq<usize>) -> int
    decreases idxs.len(),
{
    if idxs.len() == 0 {
        STABILITY_SCALE as int
    } else {
        spec_prod(items, idxs.drop_last()) * items[idxs.last() as int].stability / (
        STABILITY_SCALE as int)
    }
}

/// The fixed-point product stays within `[0, STABILITY_SCALE]`.
pub proof fn lemma_spec_prod_bounds(items: Seq<PackItem>, idxs: Seq<usize>)
    requires
        forall|k: int|
            0 <= k < idxs.len() ==> (#[trigger] idxs[k] as int) < items.len() && items[
            idxs[k] as int].stability <= STABILITY_SCALE,
    ensures
        0 <= spec_prod(items, idxs) <= STABILITY_SCALE,
    decreases idxs.len(),
{
    if idxs.len() > 0 {
        assert forall|k: int|
            0 <= k < idxs.drop_last().len() implies (#[trigger] idxs.drop_last()[k] as int)
            < items.len() && items[idxs.drop_last()[k] as int].stability <= STABILITY_SCALE by {
            assert(idxs.drop_last()[k] == idxs[k]);
        }
        lemma_spec_prod_bounds(items, idxs.drop_last());
        let sc = STABILITY_SCALE as int;
        let pp = spec_prod(items, idxs.drop_last());
        let st = items[idxs.last() as int].stability as int;
        assert(0 <= pp * st <= sc * sc) by (nonlinear_arith)
            requires
                0 <= pp <= sc,
                0 <= st <= sc,
        ;
        vstd::arithmetic::div_mod::lemma_div_is_ordered(pp * st, sc * sc, sc);
        vstd::arithmetic::div_mod::lemma_div_by_multiple(sc, sc);
        vstd::arithmetic::div_mod::lemma_div_pos_is_pos(pp * st, sc);
    }
}

/// The fixed-point product never exceeds any single member's stability.
pub proof fn lemma_spec_prod_le_member(items: Seq<PackItem>, idxs: Seq<usize>, k: int)
    requires
        forall|q: int|
            0 <= q < idxs.len() ==> (#[trigger] idxs[q] as int) < items.len() && items[
            idxs[q] as int].stability <= STABILITY_SCALE,
        0 <= k < idxs.len(),
    ensures
        spec_prod(items, idxs) <= items[idxs[k] as int].stability,
    decreases idxs.len(),
{
    assert forall|q: int|
        0 <= q < idxs.drop_last().len() implies (#[trigger] idxs.drop_last()[q] as int)
        < items.len() && items[idxs.drop_last()[q] as int].stability <= STABILITY_SCALE by {
        assert(idxs.drop_last()[q] == idxs[q]);
    }
    lemma_spec_prod_bounds(items, idxs.drop_last());
    let sc = STABILITY_SCALE as int;
    let pp = spec_prod(items, idxs.drop_last());
    let st = items[idxs.last() as int].stability as int;
    if k == idxs.len() - 1 {
        assert(pp * st <= sc * st) by (nonlinear_arith)
            requires
                0 <= pp <= sc,
                0 <= st,
        ;
        vstd::arithmetic::div_mod::lemma_div_is_ordered(pp * st, sc * st, sc);
        vstd::arithmetic::div_mod::lemma_div_by_multiple(st, sc);
    } else {
        assert(idxs.drop_last()[k] == idxs[k]);
        lemma_spec_prod_le_member(items, idxs.drop_last(), k);
        assert(pp * st <= pp * sc) by (nonlinear_arith)
            requires
                0 <= pp,
                0 <= st <= sc,
        ;
        vstd::arithmetic::div_mod::lemma_div_is_ordered(pp * st, pp * sc, sc);
        vstd::arithmetic::div_mod::lemma_div_by_multiple(pp, sc);
    }
}

/// A well-formed group over `items`: non-empty, indices in range, size is
/// the exact sum of its members' sizes, and stability is exactly the
/// fixed-point product of its members' stabilities (so within scale and
/// never above any member's).
pub open spec fn wf_group(items: Seq<PackItem>, g: PackGroup) -> bool {
    &&& g.indices@.len() > 0
    &&& forall|k: int| 0 <= k < g.indices@.len() ==> (g.indices@[k] as int) < items.len()
    &&& g.size as int == sum_index_sizes(items, g.indices@)
    &&& g.stability as int == spec_prod(items, g.indices@)
    &&& g.stability <= STABILITY_SCALE
    &&& forall|k: int|
        0 <= k < g.indices@.len() ==> g.stability <= items[g.indices@[k] as int].stability
}

/// All groups of `gs` are well-formed over `items`.
pub open spec fn wf_groups(items: Seq<PackItem>, gs: Seq<PackGroup>) -> bool {
    forall|j: int| 0 <= j < gs.len() ==> wf_group(items, #[trigger] gs[j])
}

/// Groups sorted by stability, most stable first.
pub open spec fn sorted_by_stability_desc(gs: Seq<PackGroup>) -> bool {
    forall|p: int, q: int| 0 <= p < q < gs.len() ==> gs[p].stability >= gs[q].stability
}

/// The expected value destroyed by merging groups `a` and `b`, scaled by
/// `STABILITY_SCALE^2` so that it is an exact integer:
/// `EV(a) + EV(b) - EV(a+b)` with `EV(g) = size * stability / SCALE`.
pub open spec fn spec_loss(a: PackGroup, b: PackGroup) -> int {
    a.size * a.stability * (STABILITY_SCALE - b.stability) + b.size * b.stability * (
    STABILITY_SCALE - a.stability)
}

proof fn lemma_occ_in_concat(a: Seq<usize>, b: Seq<usize>, v: int)
    ensures
        occ_in(a + b, v) == occ_in(a, v) + occ_in(b, v),
    decreases b.len(),
{
    if b.len() == 0 {
        assert(a + b =~= a);
    } else {
        assert((a + b).drop_last() =~= a + b.drop_last());
        assert((a + b).last() == b.last());
        lemma_occ_in_concat(a, b.drop_last(), v);
    }
}

proof fn lemma_occurrences_remove(gs: Seq<PackGroup>, k: int, v: int)
    requires
        0 <= k < gs.len(),
    ensures
        occurrences(gs.remove(k), v) + occ_in(gs[k].indices@, v) == occurrences(gs, v),
    decreases gs.len(),
{
    if k == gs.len() - 1 {
        assert(gs.remove(k) =~= gs.drop_last());
    } else {
        assert(gs.remove(k).drop_last() =~= gs.drop_last().remove(k));
        assert(gs.remove(k).last() == gs.last());
        lemma_occurrences_remove(gs.drop_last(), k, v);
    }
}

proof fn lemma_total_size_remove(gs: Seq<PackGroup>, k: int)
    requires
        0 <= k < gs.len(),
    ensures
        total_group_size(gs.remove(k)) + gs[k].size == total_group_size(gs),
    decreases gs.len(),
{
    if k == gs.len() - 1 {
        assert(gs.remove(k) =~= gs.drop_last());
    } else {
        assert(gs.remove(k).drop_last() =~= gs.drop_last().remove(k));
        assert(gs.remove(k).last() == gs.last());
        lemma_total_size_remove(gs.drop_last(), k);
    }
}

proof fn lemma_sum_index_concat(items: Seq<PackItem>, a: Seq<usize>, b: Seq<usize>)
    ensures
        sum_index_sizes(items, a + b) == sum_index_sizes(items, a) + sum_index_sizes(items, b),
    decreases b.len(),
{
    if b.len() == 0 {
        assert(a + b =~= a);
    } else {
        assert((a + b).drop_last() =~= a + b.drop_last());
        assert((a + b).last() == b.last());
        lemma_sum_index_concat(items, a, b.drop_last());
    }
}

proof fn lemma_size_le_total(gs: Seq<PackGroup>, i: int)
    requires
        0 <= i < gs.len(),
    ensures
        gs[i].size <= total_group_size(gs),
    decreases gs.len(),
{
    if i == gs.len() - 1 {
        lemma_total_size_nonneg(gs.drop_last());
    } else {
        lemma_size_le_total(gs.drop_last(), i);
    }
}

proof fn lemma_total_size_nonneg(gs: Seq<PackGroup>)
    ensures
        total_group_size(gs) >= 0,
    decreases gs.len(),
{
    if gs.len() > 0 {
        lemma_total_size_nonneg(gs.drop_last());
    }
}

proof fn lemma_pair_size_le_total(gs: Seq<PackGroup>, i: int, j: int)
    requires
        0 <= i < gs.len(),
        0 <= j < gs.len(),
        i != j,
    ensures
        gs[i].size + gs[j].size <= total_group_size(gs),
    decreases gs.len(),
{
    if j == gs.len() - 1 {
        lemma_size_le_total(gs.drop_last(), i);
    } else if i == gs.len() - 1 {
        lemma_size_le_total(gs.drop_last(), j);
    } else {
        lemma_pair_size_le_total(gs.drop_last(), i, j);
    }
}

/// An index counted once somewhere sits in some group at some slot.
pub proof fn lemma_occurrence_witness(gs: Seq<PackGroup>, v: int)
    requires
        occurrences(gs, v) > 0,
    ensures
        exists|g: int, q: int|
            0 <= g < gs.len() && 0 <= q < gs[g].indices@.len() && #[trigger] gs[g].indices@[
            q] as int == v,
    decreases gs.len(),
{
    if occurrences(gs.drop_last(), v) > 0 {
        lemma_occurrence_witness(gs.drop_last(), v);
        let (g, q) = choose|g: int, q: int|
            0 <= g < gs.drop_last().len() && 0 <= q < gs.drop_last()[g].indices@.len()
                && #[trigger] gs.drop_last()[g].indices@[q] as int == v;
        assert(gs[g] == gs.drop_last()[g]);
        assert(0 <= g < gs.len() && 0 <= q < gs[g].indices@.len() && gs[g].indices@[q] as int
            == v);
    } else {
        lemma_occ_in_witness(gs.last().indices@, v);
        let q = choose|q: int|
            0 <= q < gs.last().indices@.len() && gs.last().indices@[q] as int == v;
        let g = gs.len() - 1;
        assert(0 <= g < gs.len() && 0 <= q < gs[g].indices@.len() && gs[g].indices@[q] as int
            == v);
    }
}

proof fn lemma_occ_in_witness(s: Seq<usize>, v: int)
    requires
        occ_in(s, v) > 0,
    ensures
        exists|q: int| 0 <= q < s.len() && s[q] as int == v,
    decreases s.len(),
{
    if s.len() > 0 {
        if s.last() as int == v {
            assert(s[s.len() - 1] as int == v);
        } else {
            lemma_occ_in_witness(s.drop_last(), v);
            let q = choose|q: int| 0 <= q < s.drop_last().len() && s.drop_last()[q] as int == v;
            assert(s[q] as int == v);
        }
    }
}

/// The loss of merging two groups, exactly `spec_loss`.
fn loss_of(a: &PackGroup, b: &PackGroup) -> (r: u128)
    requires
        a.stability <= STABILITY_SCALE,
        b.stability <= STABILITY_SCALE,
        a.size + b.size <= u64::MAX,
    ensures
        r == spec_loss(*a, *b),
{
    proof {
        assert(a.size * a.stability <= u64::MAX as int * STABILITY_SCALE as int)
            by (nonlinear_arith)
            requires
                a.stability <= STABILITY_SCALE,
                a.size <= u64::MAX,
        ;
        assert(b.size * b.stability <= u64::MAX as int * STABILITY_SCALE as int)
            by (nonlinear_arith)
            requires
                b.stability <= STABILITY_SCALE,
                b.size <= u64::MAX,
        ;
        assert(a.size * a.stability * (STABILITY_SCALE - b.stability) <= u64::MAX as int
            * STABILITY_SCALE as int * STABILITY_SCALE as int) by (nonlinear_arith)
            requires
                a.stability <= STABILITY_SCALE,
                b.stability <= STABILITY_SCALE,
                a.size <= u64::MAX,
        ;
        assert(b.size * b.stability * (STABILITY_SCALE - a.stability) <= u64::MAX as int
            * STABILITY_SCALE as int * STABILITY_SCALE as int) by (nonlinear_arith)
            requires
                a.stability <= STABILITY_SCALE,
                b.stability <= STABILITY_SCALE,
                b.size <= u64::MAX,
        ;
        assert(a.size * a.stability * (STABILITY_SCALE - b.stability) >= 0) by (nonlinear_arith)
            requires
                b.stability <= STABILITY_SCALE,
        ;
        assert(b.size * b.stability * (STABILITY_SCALE - a.stability) >= 0) by (nonlinear_arith)
            requires
                a.stability <= STABILITY_SCALE,
        ;
    }
    let ta: u128 = (a.size as u128) * (a.stability as u128) * ((STABILITY_SCALE - b.stability)
        as u128);
    let tb: u128 = (b.size as u128) * (b.stability as u128) * ((STABILITY_SCALE - a.stability)
        as u128);
    ta + tb
}

/// The pair of distinct group indices whose merge loses the least
/// expected value; the first index is the smaller one.
///
/// A full pairwise scan per merge: cubic over the component count in
/// the worst case, where a priority queue of candidates would be
/// `O(N^2 log N)`. Component counts are small (hundreds to a few
/// thousand), and the scan needs no staleness bookkeeping.
fn best_pair(groups: &Vec<PackGroup>) -> (r: (usize, usize))
    requires
        groups@.len() >= 2,
        forall|k: int|
            0 <= k < groups@.len() ==> (#[trigger] groups@[k]).stability <= STABILITY_SCALE,
        total_group_size(groups@) <= u64::MAX,
    ensures
        r.0 < r.1 < groups@.len(),
        forall|p: int, q: int|
            0 <= p < q < groups@.len() ==> spec_loss(groups@[r.0 as int], groups@[r.1 as int])
                <= #[trigger] spec_loss(groups@[p], groups@[q]),
{
    let n = groups.len();
    let mut bi: usize = 0;
    let mut bj: usize = 1;
    proof {
        lemma_pair_size_le_total(groups@, 0, 1);
    }
    let mut best: u128 = loss_of(&groups[0], &groups[1]);
    let mut i: usize = 0;
    while i < n
        invariant
            n == groups@.len() >= 2,
            forall|k: int|
                0 <= k < groups@.len() ==> (#[trigger] groups@[k]).stability <= STABILITY_SCALE,
            total_group_size(groups@) <= u64::MAX,
            i <= n,
            bi < bj < n,
            best == spec_loss(groups@[bi as int], groups@[bj as int]),
            forall|p: int, q: int|
                0 <= p < q < n && p < i ==> best <= #[trigger] spec_loss(groups@[p], groups@[q]),
        decreases n - i,
    {
        let mut j = i + 1;
        while j < n
            invariant
                n == groups@.len() >= 2,
                forall|k: int|
                    0 <= k < groups@.len() ==> (#[trigger] groups@[k]).stability
                        <= STABILITY_SCALE,
                total_group_size(groups@) <= u64::MAX,
                i < n,
                i < j <= n,
                bi < bj < n,
                best == spec_loss(groups@[bi as int], groups@[bj as int]),
                forall|p: int, q: int|
                    0 <= p < q < n && p < i ==> best <= #[trigger] spec_loss(
                        groups@[p],
                        groups@[q],
                    ),
                forall|q: int|
                    i < q < j ==> best <= #[trigger] spec_loss(groups@[i as int], groups@[q]),
            decreases n - j,
        {
            proof {
                lemma_pair_size_le_total(groups@, i as int, j as int);
            }
            let loss = loss_of(&groups[i], &groups[j]);
            if loss < best {
                best = loss;
                bi = i;
                bj = j;
            }
            j = j + 1;
        }
        i = i + 1;
    }
    (bi, bj)
}

/// Merge two groups: sizes add, stabilities multiply (in fixed point),
/// index lists concatenate.
fn merge_groups(a: PackGroup, b: PackGroup, items: &Vec<PackItem>) -> (r: PackGroup)
    requires
        wf_group(items@, a),
        wf_group(items@, b),
        a.size + b.size <= u64::MAX,
        forall|k: int|
            0 <= k < items@.len() ==> (#[trigger] items@[k]).stability <= STABILITY_SCALE,
    ensures
        wf_group(items@, r),
        r.indices@ == a.indices@ + b.indices@,
        r.size == a.size + b.size,
{
    let ghost merged_idxs = a.indices@ + b.indices@;
    proof {
        lemma_sum_index_concat(items@, a.indices@, b.indices@);
        assert(a.indices@ + b.indices@.subrange(0, 0) =~= a.indices@);
    }
    // The merged stability is the fixed-point product over the combined
    // member list: continue the fold from the left group's product.
    let mut st: u64 = a.stability;
    let nb = b.indices.len();
    let mut k: usize = 0;
    while k < nb
        invariant
            k <= nb,
            nb == b.indices@.len(),
            wf_group(items@, a),
            wf_group(items@, b),
            forall|q: int|
                0 <= q < items@.len() ==> (#[trigger] items@[q]).stability <= STABILITY_SCALE,
            st <= STABILITY_SCALE,
            st as int == spec_prod(items@, a.indices@ + b.indices@.subrange(0, k as int)),
        decreases nb - k,
    {
        let idx = b.indices[k];
        let si = items[idx].stability;
        proof {
            let sc_i = STABILITY_SCALE as int;
            assert(0 <= st * si <= sc_i * sc_i) by (nonlinear_arith)
                requires
                    0 <= st <= sc_i,
                    0 <= si <= sc_i,
            ;
            vstd::arithmetic::div_mod::lemma_div_is_ordered(
                st as int * si as int,
                sc_i * sc_i,
                sc_i,
            );
            vstd::arithmetic::div_mod::lemma_div_by_multiple(sc_i, sc_i);
            vstd::arithmetic::div_mod::lemma_div_pos_is_pos(st as int * si as int, sc_i);
            let pre = a.indices@ + b.indices@.subrange(0, k as int);
            let post = a.indices@ + b.indices@.subrange(0, k + 1);
            assert(post.drop_last() =~= pre);
            assert(post.last() == b.indices@[k as int]);
        }
        st = ((st as u128 * si as u128) / (STABILITY_SCALE as u128)) as u64;
        k = k + 1;
    }
    proof {
        assert(a.indices@ + b.indices@.subrange(0, nb as int) =~= merged_idxs);
    }
    let mut indices = a.indices;
    let mut b_indices = b.indices;
    indices.append(&mut b_indices);
    let g = PackGroup { indices, size: a.size + b.size, stability: st };
    proof {
        assert(g.indices@ == merged_idxs);
        assert forall|k2: int| 0 <= k2 < g.indices@.len() implies (g.indices@[k2] as int)
            < items@.len() by {
            if k2 < a.indices@.len() {
                assert(g.indices@[k2] == a.indices@[k2]);
            } else {
                assert(g.indices@[k2] == b.indices@[k2 - a.indices@.len()]);
            }
        }
        assert forall|k2: int|
            0 <= k2 < g.indices@.len() implies g.stability <= items@[g.indices@[
        k2] as int].stability by {
            lemma_spec_prod_le_member(items@, g.indices@, k2);
        }
    }
    g
}

/// Sort groups by stability, most stable first. Only reorders: every group
/// of the input appears in the output, index occurrences and the total
/// size are unchanged.
fn sort_by_stability_desc(groups: Vec<PackGroup>) -> (r: Vec<PackGroup>)
    ensures
        r@.len() == groups@.len(),
        sorted_by_stability_desc(r@),
        forall|v: int| occurrences(r@, v) == occurrences(groups@, v),
        total_group_size(r@) == total_group_size(groups@),
        forall|j: int| 0 <= j < r@.len() ==> groups@.contains(#[trigger] r@[j]),
{
    let ghost orig = groups@;
    let mut rem = groups;
    let mut result: Vec<PackGroup> = Vec::new();
    while rem.len() > 0
        invariant
            forall|v: int|
                occurrences(result@, v) + occurrences(rem@, v) == occurrences(orig, v),
            total_group_size(result@) + total_group_size(rem@) == total_group_size(orig),
            result@.len() + rem@.len() == orig.len(),
            sorted_by_stability_desc(result@),
            forall|p: int, q: int|
                0 <= p < result@.len() && 0 <= q < rem@.len() ==> result@[p].stability
                    >= rem@[q].stability,
            forall|j: int| 0 <= j < result@.len() ==> orig.contains(#[trigger] result@[j]),
            forall|j: int| 0 <= j < rem@.len() ==> orig.contains(#[trigger] rem@[j]),
        decreases rem.len(),
    {
        // Index of the most stable remaining group.
        let mut m: usize = 0;
        let mut k: usize = 1;
        while k < rem.len()
            invariant
                rem@.len() > 0,
                m < k <= rem@.len(),
                forall|q: int| 0 <= q < k ==> rem@[m as int].stability >= rem@[q].stability,
            decreases rem.len() - k,
        {
            if rem[k].stability > rem[m].stability {
                m = k;
            }
            k = k + 1;
        }
        let ghost pre_rem = rem@;
        let ghost pre_res = result@;
        let g = rem.remove(m);
        result.push(g);
        proof {
            assert forall|v: int| occurrences(result@, v) + occurrences(rem@, v) == occurrences(
                orig,
                v,
            ) by {
                lemma_occurrences_remove(pre_rem, m as int, v);
                assert(result@.drop_last() =~= pre_res);
            }
            lemma_total_size_remove(pre_rem, m as int);
            assert(result@.drop_last() =~= pre_res);
            assert forall|j: int| 0 <= j < rem@.len() implies orig.contains(
                #[trigger] rem@[j],
            ) by {
                if j < m {
                    assert(rem@[j] == pre_rem[j]);
                } else {
                    assert(rem@[j] == pre_rem[j + 1]);
                }
            }
            assert(orig.contains(g)) by {
                assert(pre_rem[m as int] == g);
            }
            assert forall|p: int, q: int|
                0 <= p < result@.len() && 0 <= q < rem@.len() implies result@[p].stability
                >= rem@[q].stability by {
                if q < m {
                    assert(rem@[q] == pre_rem[q]);
                } else {
                    assert(rem@[q] == pre_rem[q + 1]);
                }
                if p < result@.len() - 1 {
                    assert(result@[p] == pre_res[p]);
                } else {
                    assert(result@[p] == g);
                }
            }
            assert forall|p: int, q: int| 0 <= p < q < result@.len() implies result@[p].stability
                >= result@[q].stability by {
                if q < result@.len() - 1 {
                    assert(result@[p] == pre_res[p] && result@[q] == pre_res[q]);
                } else {
                    assert(result@[q] == g);
                    if p < result@.len() - 1 {
                        assert(result@[p] == pre_res[p]);
                        assert(pre_res[p].stability >= pre_rem[m as int].stability);
                    }
                }
            }
        }
    }
    result
}

/// Pack `items` into at most `max_groups` groups, greedily merging the
/// pair with the least expected-value loss until within the limit.
///
/// The result partitions the input: every input index appears in exactly
/// one group, and no group is empty. Groups come sorted by stability,
/// most stable first. When the input already fits (`N <= max_groups`),
/// the result is exactly one single-element group per item.
pub fn calculate_packing(items: &Vec<PackItem>, max_groups: usize) -> (result: Vec<PackGroup>)
    requires
        forall|k: int|
            0 <= k < items@.len() ==> (#[trigger] items@[k]).stability <= STABILITY_SCALE,
        total_item_size(items@) <= u64::MAX,
    ensures
        items@.len() == 0 || max_groups == 0 ==> result@.len() == 0,
        items@.len() > 0 && max_groups > 0 ==> result@.len() == if items@.len() <= max_groups {
            items@.len() as int
        } else {
            max_groups as int
        },
        sorted_by_stability_desc(result@),
        wf_groups(items@, result@),
        max_groups > 0 ==> forall|v: int| 0 <= v < items@.len() ==> occurrences(result@, v)
            == 1,
        forall|v: int| !(0 <= v < items@.len()) ==> occurrences(result@, v) == 0,
        total_group_size(result@) == if max_groups == 0 {
            0int
        } else {
            total_item_size(items@)
        },
        items@.len() <= max_groups ==> forall|j: int|
            0 <= j < result@.len() ==> (#[trigger] result@[j]).indices@.len() == 1
                && result@[j].size == items@[result@[j].indices@[0] as int].size
                && result@[j].stability == items@[result@[j].indices@[0] as int].stability,
{
    let n = items.len();
    if n == 0 || max_groups == 0 {
        let result: Vec<PackGroup> = Vec::new();
        return result;
    }

    // Seed one group per item.
    let mut groups: Vec<PackGroup> = Vec::new();
    let mut i: usize = 0;
    while i < n
        invariant
            n == items@.len(),
            i <= n,
            groups@.len() == i,
            forall|j: int|
                0 <= j < i ==> (#[trigger] groups@[j]).indices@ =~= seq![j as usize]
                    && groups@[j].size == items@[j].size && groups@[j].stability
                    == items@[j].stability,
            forall|v: int| 0 <= v < i ==> occurrences(groups@, v) == 1,
            forall|v: int| !(0 <= v < i) ==> occurrences(groups@, v) == 0,
            total_group_size(groups@) == total_item_size(items@.subrange(0, i as int)),
        decreases n - i,
    {
        let ghost pre = groups@;
        let mut idx_list: Vec<usize> = Vec::new();
        idx_list.push(i);
        let g = PackGroup {
            indices: idx_list,
            size: items[i].size,
            stability: items[i].stability,
        };
        groups.push(g);
        proof {
            assert(groups@.drop_last() =~= pre);
            assert(groups@.last() == g);
            assert(g.indices@ =~= seq![i as usize]);
            assert(g.indices@.drop_last() =~= Seq::<usize>::empty());
            assert(g.indices@.last() == i);
            assert forall|v: int| occurrences(groups@, v) == occurrences(pre, v) + occ_in(
                g.indices@,
                v,
            ) by {
                assert(occurrences(groups@, v) == occurrences(groups@.drop_last(), v) + occ_in(
                    groups@.last().indices@,
                    v,
                ));
            }
            assert forall|v: int|
                occ_in(g.indices@, v) == if v == i as int {
                    1nat
                } else {
                    0nat
                } by {
                assert(occ_in(g.indices@, v) == occ_in(g.indices@.drop_last(), v) + if g.indices@
                    .last() as int == v {
                    1nat
                } else {
                    0nat
                });
                assert(occ_in(Seq::<usize>::empty(), v) == 0);
            }
            assert(items@.subrange(0, i + 1).drop_last() =~= items@.subrange(0, i as int));
        }
        i = i + 1;
    }
    proof {
        assert(items@.subrange(0, n as int) =~= items@);
        assert(wf_groups(items@, groups@)) by {
            assert forall|j: int| 0 <= j < groups@.len() implies wf_group(
                items@,
                #[trigger] groups@[j],
            ) by {
                let s = groups@[j].indices@;
                assert(s =~= seq![j as usize]);
                assert(s.drop_last() =~= Seq::<usize>::empty());
                assert(s.last() == j as usize);
                assert(sum_index_sizes(items@, Seq::<usize>::empty()) == 0);
                assert(sum_index_sizes(items@, s) == sum_index_sizes(items@, s.drop_last())
                    + items@[s.last() as int].size);
                assert(spec_prod(items@, Seq::<usize>::empty()) == STABILITY_SCALE as int);
                assert(spec_prod(items@, s) == spec_prod(items@, s.drop_last()) * items@[
                    s.last() as int].stability / (STABILITY_SCALE as int));
                vstd::arithmetic::div_mod::lemma_div_by_multiple(
                    items@[j].stability as int,
                    STABILITY_SCALE as int,
                );
            }
        }
    }

    // Merge the cheapest pair until within the limit.
    while groups.len() > max_groups
        invariant
            n == items@.len(),
            max_groups >= 1,
            groups@.len() >= 1,
            groups@.len() <= n,
            wf_groups(items@, groups@),
            forall|v: int| 0 <= v < n ==> occurrences(groups@, v) == 1,
            forall|v: int| !(0 <= v < n) ==> occurrences(groups@, v) == 0,
            total_group_size(groups@) == total_item_size(items@),
            n <= max_groups ==> groups@.len() == n,
            n >= max_groups ==> groups@.len() >= max_groups,
            n <= max_groups ==> forall|j: int|
                0 <= j < groups@.len() ==> (#[trigger] groups@[j]).indices@ =~= seq![j as usize]
                    && groups@[j].size == items@[j].size && groups@[j].stability
                    == items@[j].stability,
            forall|k: int|
                0 <= k < items@.len() ==> (#[trigger] items@[k]).stability <= STABILITY_SCALE,
            total_item_size(items@) <= u64::MAX,
        decreases groups.len(),
    {
        let (bi, bj) = best_pair(&groups);
        proof {
            lemma_pair_size_le_total(groups@, bi as int, bj as int);
            lemma_total_size_nonneg(groups@);
        }
        let ghost pre = groups@;
        let b = groups.remove(bj);
        let a = groups.remove(bi);
        proof {
            assert(b == pre[bj as int]);
            assert(groups@ =~= pre.remove(bj as int).remove(bi as int));
            assert(pre.remove(bj as int)[bi as int] == pre[bi as int]);
            assert(a == pre[bi as int]);
        }
        let merged = merge_groups(a, b, items);
        groups.push(merged);
        proof {
            let ghost mid1 = pre.remove(bj as int);
            let ghost mid2 = mid1.remove(bi as int);
            assert(groups@.drop_last() =~= mid2);
            assert(groups@.last() == merged);
            assert(mid1[bi as int] == pre[bi as int]);
            assert forall|v: int| occurrences(groups@, v) == occurrences(pre, v) by {
                lemma_occurrences_remove(pre, bj as int, v);
                lemma_occurrences_remove(mid1, bi as int, v);
                lemma_occ_in_concat(a.indices@, b.indices@, v);
                assert(occurrences(groups@, v) == occurrences(groups@.drop_last(), v) + occ_in(
                    groups@.last().indices@,
                    v,
                ));
            }
            assert forall|v: int| 0 <= v < n implies occurrences(groups@, v) == 1 by {
                assert(occurrences(groups@, v) == occurrences(pre, v));
                assert(occurrences(pre, v) == 1);
            }
            assert forall|v: int| !(0 <= v < n) implies occurrences(groups@, v) == 0 by {
                assert(occurrences(groups@, v) == occurrences(pre, v));
                assert(occurrences(pre, v) == 0);
            }
            lemma_total_size_remove(pre, bj as int);
            lemma_total_size_remove(mid1, bi as int);
            assert(wf_groups(items@, groups@)) by {
                assert forall|j: int| 0 <= j < groups@.len() implies wf_group(
                    items@,
                    #[trigger] groups@[j],
                ) by {
                    if j < groups@.len() - 1 {
                        assert(groups@[j] == mid2[j]);
                        if j < bi {
                            assert(mid2[j] == pre[j]);
                        } else if j + 1 < bj {
                            assert(mid2[j] == pre[j + 1]);
                        } else {
                            assert(mid2[j] == pre[j + 2]);
                        }
                    } else {
                        assert(groups@[j] == merged);
                    }
                }
            }
        }
    }

    let ghost pre_sort = groups@;
    let result = sort_by_stability_desc(groups);
    proof {
        assert(wf_groups(items@, result@)) by {
            assert forall|j: int| 0 <= j < result@.len() implies wf_group(
                items@,
                #[trigger] result@[j],
            ) by {
                let w = choose|w: int| 0 <= w < pre_sort.len() && pre_sort[w] == result@[j];
                assert(wf_group(items@, pre_sort[w]));
            }
        }
        if n <= max_groups {
            assert forall|j: int| 0 <= j < result@.len() implies (
            #[trigger] result@[j]).indices@.len() == 1 && result@[j].size
                == items@[result@[j].indices@[0] as int].size && result@[j].stability
                == items@[result@[j].indices@[0] as int].stability by {
                let w = choose|w: int| 0 <= w < pre_sort.len() && pre_sort[w] == result@[j];
            }
        }
    }
    result
}

} // verus!
