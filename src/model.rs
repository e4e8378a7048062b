//! The mathematical model: a bit vector is a `Seq<bool>`, and rank and select
//! are defined over it by counting.
use vstd::prelude::*;

verus! {

/// Number of entries of `s` equal to `v`.
pub open spec fn count_val(s: Seq<bool>, v: bool) -> nat
    decreases s.len(),
{
    if s.len() == 0 {
        0
    } else {
        count_val(s.drop_last(), v) + if s.last() == v {
            1nat
        } else {
            0nat
        }
    }
}

/// Occurrences of `v` among the positions `[l, r)` of `s`.
pub open spec fn count_range(s: Seq<bool>, v: bool, l: int, r: int) -> nat {
    count_val(s.subrange(l, r), v)
}

/// `rank_v(i)`: occurrences of `v` in the prefix `[0, i)`.
pub open spec fn rank(s: Seq<bool>, v: bool, i: int) -> nat {
    count_range(s, v, 0, i)
}

/// `p` holds the `k`-th (counting from 1) occurrence of `v` at or after `start`.
pub open spec fn is_nth_from(s: Seq<bool>, v: bool, start: int, k: int, p: int) -> bool {
    &&& 0 <= start <= p < s.len()
    &&& s[p] == v
    &&& count_range(s, v, start, p) == k - 1
}

/// `p` holds the `k`-th occurrence of `v` in `s`: the answer of `select_v(k)`.
pub open spec fn is_select(s: Seq<bool>, v: bool, k: int, p: int) -> bool {
    is_nth_from(s, v, 0, k, p)
}

/// The number a bit contributes to a count of ones.
pub open spec fn bit_value(b: bool) -> nat {
    if b {
        1
    } else {
        0
    }
}

pub proof fn lemma_count_append(a: Seq<bool>, b: Seq<bool>, v: bool)
    ensures
        count_val(a + b, v) == count_val(a, v) + count_val(b, v),
    decreases b.len(),
{
    if b.len() == 0 {
        assert(a + b =~= a);
    } else {
        lemma_count_append(a, b.drop_last(), v);
        assert((a + b).drop_last() =~= a + b.drop_last());
    }
}

pub proof fn lemma_count_le_len(s: Seq<bool>, v: bool)
    ensures
        count_val(s, v) <= s.len(),
    decreases s.len(),
{
    if s.len() > 0 {
        lemma_count_le_len(s.drop_last(), v);
    }
}

pub proof fn lemma_count_complement(s: Seq<bool>)
    ensures
        count_val(s, true) + count_val(s, false) == s.len(),
    decreases s.len(),
{
    if s.len() > 0 {
        lemma_count_complement(s.drop_last());
    }
}

/// A sequence that holds no `v` counts none of them.
pub proof fn lemma_count_none(s: Seq<bool>, v: bool)
    requires
        forall|i: int| 0 <= i < s.len() ==> s[i] != v,
    ensures
        count_val(s, v) == 0,
    decreases s.len(),
{
    if s.len() > 0 {
        lemma_count_none(s.drop_last(), v);
    }
}

/// Counting over `[l, r)` splits at any `m` in between.
pub proof fn lemma_count_split(s: Seq<bool>, v: bool, l: int, m: int, r: int)
    requires
        0 <= l <= m <= r <= s.len(),
    ensures
        count_range(s, v, l, r) == count_range(s, v, l, m) + count_range(s, v, m, r),
{
    assert(s.subrange(l, r) =~= s.subrange(l, m) + s.subrange(m, r));
    lemma_count_append(s.subrange(l, m), s.subrange(m, r), v);
}

pub proof fn lemma_count_single(s: Seq<bool>, v: bool, i: int)
    requires
        0 <= i < s.len(),
    ensures
        count_range(s, v, i, i + 1) == if s[i] == v {
            1nat
        } else {
            0nat
        },
{
    let t = s.subrange(i, i + 1);
    assert(t.drop_last() =~= Seq::<bool>::empty());
    assert(count_val(t.drop_last(), v) == 0);
    assert(t.last() == s[i]);
}

pub proof fn lemma_count_range_le(s: Seq<bool>, v: bool, l: int, r: int)
    requires
        0 <= l <= r <= s.len(),
    ensures
        count_range(s, v, l, r) <= r - l,
{
    lemma_count_le_len(s.subrange(l, r), v);
}

/// Ones and zeros over a range add up to its length.
pub proof fn lemma_count_range_complement(s: Seq<bool>, l: int, r: int)
    requires
        0 <= l <= r <= s.len(),
    ensures
        count_range(s, true, l, r) + count_range(s, false, l, r) == r - l,
{
    lemma_count_complement(s.subrange(l, r));
}

/// Prefix ranks only grow.
pub proof fn lemma_rank_mono(s: Seq<bool>, v: bool, i: int, j: int)
    requires
        0 <= i <= j <= s.len(),
    ensures
        rank(s, v, i) <= rank(s, v, j),
{
    lemma_count_split(s, v, 0, i, j);
}

/// The count over `[l, r)` is the difference of two prefix ranks.
pub proof fn lemma_count_range_as_ranks(s: Seq<bool>, v: bool, l: int, r: int)
    requires
        0 <= l <= r <= s.len(),
    ensures
        count_range(s, v, l, r) == rank(s, v, r) - rank(s, v, l),
{
    lemma_count_split(s, v, 0, l, r);
}

/// At most one position holds the `k`-th occurrence of `v` from `start`.
pub proof fn lemma_nth_unique(s: Seq<bool>, v: bool, start: int, k: int, p: int, q: int)
    requires
        is_nth_from(s, v, start, k, p),
        is_nth_from(s, v, start, k, q),
    ensures
        p == q,
{
    if p < q {
        lemma_count_split(s, v, start, p, q);
        lemma_count_split(s, v, p, p + 1, q);
        lemma_count_single(s, v, p);
    } else if q < p {
        lemma_count_split(s, v, start, q, p);
        lemma_count_split(s, v, q, q + 1, p);
        lemma_count_single(s, v, q);
    }
}


/// Two sequences that agree position by position, where `a[i]` says whether
/// `b[i]` is `v`, count the same.
pub proof fn lemma_count_match(a: Seq<bool>, b: Seq<bool>, v: bool)
    requires
        a.len() == b.len(),
        forall|i: int| 0 <= i < a.len() ==> a[i] == (b[i] == v),
    ensures
        count_val(a, true) == count_val(b, v),
    decreases a.len(),
{
    if a.len() > 0 {
        lemma_count_match(a.drop_last(), b.drop_last(), v);
    }
}

/// The outcome of `select_v(k)` on `s`: the position of the `k`-th `v`, or
/// `None` exactly when there is no such occurrence.
pub open spec fn select_result(s: Seq<bool>, v: bool, k: int, r: Option<usize>) -> bool {
    match r {
        Some(p) => is_select(s, v, k, p as int),
        None => !(1 <= k <= count_val(s, v)),
    }
}


pub proof fn lemma_count_full(s: Seq<bool>, v: bool)
    ensures
        count_range(s, v, 0, s.len() as int) == count_val(s, v),
        rank(s, v, s.len() as int) == count_val(s, v),
{
    assert(s.subrange(0, s.len() as int) =~= s);
}


/// A select answer counts `k` among the occurrences that exist.
pub proof fn lemma_select_in_range(s: Seq<bool>, v: bool, k: int, p: int)
    requires
        is_select(s, v, k, p),
    ensures
        1 <= k <= count_val(s, v),
{
    lemma_count_split(s, v, 0, p, p + 1);
    lemma_count_single(s, v, p);
    lemma_count_split(s, v, 0, p + 1, s.len() as int);
    lemma_count_full(s, v);
}

/// The answer a select query reports: the position, or `usize::MAX` when
/// there is none.
pub open spec fn select_answer(s: Seq<bool>, v: bool, k: int) -> int {
    if 1 <= k <= count_val(s, v) {
        choose|p: int| is_select(s, v, k, p)
    } else {
        usize::MAX as int
    }
}

/// A select result, reported as a number, is the model's answer.
pub proof fn lemma_select_answer(s: Seq<bool>, v: bool, k: int, r: Option<usize>)
    requires
        select_result(s, v, k, r),
    ensures
        match r {
            Some(p) => p == select_answer(s, v, k),
            None => usize::MAX == select_answer(s, v, k),
        },
{
    if let Some(p) = r {
        lemma_select_in_range(s, v, k, p as int);
        let q = choose|q: int| is_select(s, v, k, q);
        lemma_nth_unique(s, v, 0, k, p as int, q);
    }
}

} // verus!
