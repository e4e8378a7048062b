//! Laws that tie access, rank and select together. Every bit vector of the
//! crate answers its queries as the model in `model` says, so these laws
//! hold of the answers of every one of them. Two more live beside the
//! model: `lemma_count_range_as_ranks` (a range count is a difference of
//! ranks) and `lemma_rank_mono` (rank never decreases).
use vstd::prelude::*;

use crate::model::{
    bit_value, count_val, is_select, lemma_count_range_complement,
    lemma_count_single, lemma_count_split, lemma_nth_unique, lemma_select_in_range, rank,
    select_result,
};

verus! {

/// The sum of the bits of `s` before position `i`, each counted as 0 or 1.
pub open spec fn prefix_sum(s: Seq<bool>, i: int) -> nat
    decreases i,
{
    if i <= 0 {
        0
    } else {
        prefix_sum(s, i - 1) + bit_value(s[i - 1])
    }
}

/// `rank1(i)` is the sum of the bits before `i`.
pub proof fn lemma_rank_is_prefix_sum(s: Seq<bool>, i: int)
    requires
        0 <= i <= s.len(),
    ensures
        rank(s, true, i) == prefix_sum(s, i),
    decreases i,
{
    if i == 0 {
        assert(s.subrange(0, 0) =~= Seq::<bool>::empty());
    } else {
        lemma_rank_is_prefix_sum(s, i - 1);
        lemma_count_split(s, true, 0, i - 1, i);
        lemma_count_single(s, true, i - 1);
    }
}

/// `rank_v` grows by 0 or 1 from one position to the next, so it never
/// decreases; and `rank0(i) + rank1(i) == i`.
pub proof fn lemma_rank_steps(s: Seq<bool>, v: bool, i: int)
    requires
        0 <= i < s.len(),
    ensures
        rank(s, v, i) <= rank(s, v, i + 1) <= rank(s, v, i) + 1,
        rank(s, false, i) + rank(s, true, i) == i,
{
    lemma_count_split(s, v, 0, i, i + 1);
    lemma_count_single(s, v, i);
    lemma_count_range_complement(s, 0, i);
}

/// `rank0(i) + rank1(i) == i` for every `i` up to the length, `i == n`
/// included.
pub proof fn lemma_rank_sum(s: Seq<bool>, i: int)
    requires
        0 <= i <= s.len(),
    ensures
        rank(s, false, i) + rank(s, true, i) == i,
{
    lemma_count_range_complement(s, 0, i);
}

/// For `k` in `[1, count_v]`, `select_v(k)` finds a `v` with `k - 1`
/// occurrences of `v` before it.
pub proof fn lemma_select_then_rank(s: Seq<bool>, v: bool, k: int, r: Option<usize>)
    requires
        select_result(s, v, k, r),
        1 <= k <= count_val(s, v),
    ensures
        r is Some,
        rank(s, v, r->0 as int) == k - 1,
        s[r->0 as int] == v,
{
}

/// A position `p` holding `v` is what `select_v(rank_v(p) + 1)` finds.
pub proof fn lemma_rank_then_select(s: Seq<bool>, v: bool, p: usize, r: Option<usize>)
    requires
        p < s.len(),
        s[p as int] == v,
        select_result(s, v, rank(s, v, p as int) + 1int, r),
    ensures
        r == Some(p),
{
    let k = rank(s, v, p as int) + 1int;
    assert(is_select(s, v, k, p as int));
    lemma_select_in_range(s, v, k, p as int);
    if let Some(q) = r {
        lemma_nth_unique(s, v, 0, k, p as int, q as int);
    }
}

/// `select_v(0)` and `select_v(count_v + 1)` find nothing.
pub proof fn lemma_select_out_of_range(
    s: Seq<bool>,
    v: bool,
    none_below: Option<usize>,
    none_above: Option<usize>,
)
    requires
        select_result(s, v, 0, none_below),
        select_result(s, v, count_val(s, v) + 1int, none_above),
    ensures
        none_below is None,
        none_above is None,
{
    if let Some(p) = none_below {
        lemma_select_in_range(s, v, 0, p as int);
    }
    if let Some(p) = none_above {
        lemma_select_in_range(s, v, count_val(s, v) + 1int, p as int);
    }
}

/// `access(i) == rank1(i + 1) - rank1(i)`.
pub proof fn lemma_access_is_rank_step(s: Seq<bool>, i: int)
    requires
        0 <= i < s.len(),
    ensures
        bit_value(s[i]) == rank(s, true, i + 1) - rank(s, true, i),
{
    lemma_count_split(s, true, 0, i, i + 1);
    lemma_count_single(s, true, i);
}

} // verus!
