//! A reference bit vector: one `bool` per bit, answering every query by a
//! plain scan.
use vstd::prelude::*;

use crate::bvec::{BitVector, RankSelectVector};
use crate::model::{
    count_range, lemma_count_full, lemma_count_range_le, lemma_count_single,
    lemma_count_split, rank, select_result,
};

verus! {

pub struct NaiveBitVector {
    bits: Vec<bool>,
}

impl NaiveBitVector {
    /// Position of the `k`-th occurrence of `v`, scanning from the start.
    fn select_value(&self, k: usize, v: bool) -> (r: Option<usize>)
        ensures
            select_result(self.bits@, v, k as int, r),
    {
        let ghost s = self.bits@;
        proof {
            lemma_count_full(s, v);
            assert(s.subrange(0, 0) =~= Seq::<bool>::empty());
        }
        if k == 0 {
            return None;
        }
        let mut count: usize = 0;
        let mut j: usize = 0;
        while j < self.bits.len()
            invariant
                s == self.bits@,
                j <= s.len(),
                1 <= k,
                count == count_range(s, v, 0, j as int),
                count < k,
            decreases s.len() - j,
        {
            proof {
                lemma_count_split(s, v, 0, j as int, j + 1);
                lemma_count_single(s, v, j as int);
            }
            if self.bits[j] == v {
                count = count + 1;
                if count == k {
                    return Some(j);
                }
            }
            j = j + 1;
        }
        None
    }
}

impl RankSelectVector for NaiveBitVector {
    closed spec fn bit_seq(&self) -> Seq<bool> {
        self.bits@
    }

    closed spec fn well_formed(&self) -> bool {
        true
    }

    closed spec fn max_len() -> nat {
        usize::MAX as nat
    }

    /// Unpacks every bit.
    fn new(bits: BitVector) -> (r: Self) {
        let n = bits.size();
        let mut v: Vec<bool> = Vec::new();
        let mut i: usize = 0;
        while i < n
            invariant
                bits.wf(),
                n == bits@.len(),
                i <= n,
                v@ == bits@.subrange(0, i as int),
            decreases n - i,
        {
            v.push(bits.get_nth(i) == 1);
            i = i + 1;
            assert(v@ =~= bits@.subrange(0, i as int));
        }
        assert(v@ =~= bits@);
        NaiveBitVector { bits: v }
    }

    fn select1(&self, i: usize) -> (r: Option<usize>) {
        self.select_value(i, true)
    }

    fn select0(&self, i: usize) -> (r: Option<usize>) {
        self.select_value(i, false)
    }

    fn rank(&self, i: usize) -> (r: usize) {
        let ghost s = self.bits@;
        let mut count: usize = 0;
        let mut j: usize = 0;
        while j < i
            invariant
                s == self.bits@,
                j <= i <= s.len(),
                count == rank(s, true, j as int),
            decreases i - j,
        {
            proof {
                lemma_count_split(s, true, 0, j as int, j + 1);
                lemma_count_single(s, true, j as int);
                lemma_count_range_le(s, true, 0, j + 1);
            }
            if self.bits[j] {
                count = count + 1;
            }
            j = j + 1;
        }
        count
    }

    fn access(&self, i: usize) -> (r: u32) {
        if self.bits[i] {
            1
        } else {
            0
        }
    }
}

} // verus!
