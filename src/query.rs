//! Queries against a bit vector, and their answers as numbers.
use vstd::prelude::*;
use vstd::string::StringSliceAdditionalSpecFns;

use crate::bvec::{bits_of_text, BitVector, RankSelectVector};
use crate::model::{
    bit_value, lemma_count_range_complement, lemma_count_range_le, lemma_select_answer, rank,
    select_answer,
};

verus! {

/// One query; `Select*` count from 1, the others take a position.
#[derive(Clone, Copy, Debug, PartialEq, Eq, Structural)]
pub enum Query {
    Access(usize),
    Select1(usize),
    Select0(usize),
    Rank1(usize),
    Rank0(usize),
}

/// The query's position lies within a vector of `n` bits: below `n` for
/// access, at most `n` for rank. Select takes any count.
pub open spec fn query_in_range(q: Query, n: int) -> bool {
    match q {
        Query::Access(i) => i < n,
        Query::Rank1(i) => i <= n,
        Query::Rank0(i) => i <= n,
        _ => true,
    }
}

/// The answer to `q` on the bits `s`; a select with no answer reports
/// `usize::MAX`.
pub open spec fn query_answer(q: Query, s: Seq<bool>) -> int {
    match q {
        Query::Access(i) => bit_value(s[i as int]) as int,
        Query::Select1(k) => select_answer(s, true, k as int),
        Query::Select0(k) => select_answer(s, false, k as int),
        Query::Rank1(i) => rank(s, true, i as int) as int,
        Query::Rank0(i) => rank(s, false, i as int) as int,
    }
}

/// Whether `q` can be asked of a vector of `n` bits.
pub fn query_fits(q: &Query, n: usize) -> (r: bool)
    ensures
        r == query_in_range(*q, n as int),
{
    match q {
        Query::Access(i) => *i < n,
        Query::Rank1(i) => *i <= n,
        Query::Rank0(i) => *i <= n,
        _ => true,
    }
}

/// Answers one query. Its position must lie within the vector (see
/// `query_fits`); a caller holding an unchecked query tests it first.
pub fn exec_one_query<T: RankSelectVector>(q: &Query, b: &T) -> (r: usize)
    requires
        b.well_formed(),
        query_in_range(*q, b.bit_seq().len() as int),
    ensures
        r == query_answer(*q, b.bit_seq()),
{
    let ghost s = b.bit_seq();
    match q {
        Query::Access(i) => b.access(*i) as usize,
        Query::Select1(i) => {
            let r = b.select1(*i);
            proof {
                lemma_select_answer(s, true, *i as int, r);
            }
            match r {
                Some(p) => p,
                None => usize::MAX,
            }
        },
        Query::Select0(i) => {
            let r = b.select0(*i);
            proof {
                lemma_select_answer(s, false, *i as int, r);
            }
            match r {
                Some(p) => p,
                None => usize::MAX,
            }
        },
        Query::Rank1(i) => b.rank(*i),
        Query::Rank0(i) => {
            proof {
                lemma_count_range_complement(s, 0, *i as int);
                lemma_count_range_le(s, true, 0, *i as int);
            }
            *i - b.rank(*i)
        },
    }
}

/// Answering a whole list of queries in order.
pub trait ExecQueries {
    /// The queries, in order.
    spec fn query_seq(&self) -> Seq<Query>;

    fn exec_queries<T: RankSelectVector>(&self, b: &T) -> (r: Vec<usize>)
        requires
            b.well_formed(),
            forall|j: int|
                0 <= j < self.query_seq().len() ==> query_in_range(
                    #[trigger] self.query_seq()[j],
                    b.bit_seq().len() as int,
                ),
        ensures
            r@.len() == self.query_seq().len(),
            forall|j: int|
                0 <= j < r@.len() ==> #[trigger] r@[j] == query_answer(
                    self.query_seq()[j],
                    b.bit_seq(),
                ),
    ;
}

impl ExecQueries for Vec<Query> {
    open spec fn query_seq(&self) -> Seq<Query> {
        self@
    }

    fn exec_queries<T: RankSelectVector>(&self, b: &T) -> (r: Vec<usize>) {
        let mut answers: Vec<usize> = Vec::new();
        let mut j: usize = 0;
        while j < self.len()
            invariant
                b.well_formed(),
                forall|t: int|
                    0 <= t < self.query_seq().len() ==> query_in_range(
                        #[trigger] self.query_seq()[t],
                        b.bit_seq().len() as int,
                    ),
                self.query_seq() == self@,
                j <= self@.len(),
                answers@.len() == j,
                forall|t: int|
                    0 <= t < j ==> #[trigger] answers@[t] == query_answer(self@[t], b.bit_seq()),
            decreases self@.len() - j,
        {
            let a = exec_one_query(&self[j], b);
            answers.push(a);
            j = j + 1;
        }
        answers
    }
}

/// Whether `answers` holds exactly the answers to `qs`, in order.
pub fn check_answers<T: RankSelectVector>(b: &T, qs: &Vec<Query>, answers: &Vec<usize>) -> (r:
    bool)
    requires
        b.well_formed(),
        forall|j: int|
            0 <= j < qs@.len() ==> query_in_range(#[trigger] qs@[j], b.bit_seq().len() as int),
    ensures
        r == (answers@.len() == qs@.len() && forall|j: int|
            0 <= j < qs@.len() ==> #[trigger] answers@[j] == query_answer(qs@[j], b.bit_seq())),
{
    let vals = qs.exec_queries(b);
    if vals.len() != answers.len() {
        return false;
    }
    let mut idx: usize = 0;
    while idx < vals.len()
        invariant
            vals@.len() == qs@.len(),
            answers@.len() == qs@.len(),
            forall|j: int|
                0 <= j < vals@.len() ==> #[trigger] vals@[j] == query_answer(qs@[j], b.bit_seq()),
            idx <= vals@.len(),
            forall|j: int| 0 <= j < idx ==> #[trigger] answers@[j] == vals@[j],
        decreases vals@.len() - idx,
    {
        if vals[idx] != answers[idx] {
            return false;
        }
        idx = idx + 1;
    }
    true
}

/// The sample bits `001110110101010111111111`.
pub open spec fn sample_bits() -> Seq<bool> {
    bits_of_text("001110110101010111111111".spec_bytes())
}

/// The sample queries with their expected answers all hold of `s`.
pub open spec fn sample_holds(s: Seq<bool>) -> bool {
    &&& query_answer(Query::Access(4), s) == 1
    &&& query_answer(Query::Rank0(10), s) == 4
    &&& query_answer(Query::Select1(14), s) == 20
    &&& query_answer(Query::Rank1(10), s) == 6
    &&& query_answer(Query::Select0(3), s) == 5
    &&& query_answer(Query::Access(5), s) == 0
}

/// Builds a `T` on the sample bits and checks six queries against their
/// known answers.
pub fn test_sample<T: RankSelectVector>() -> (r: bool)
    requires
        T::max_len() >= 24,
    ensures
        r == sample_holds(sample_bits()),
{
    let text = "001110110101010111111111";
    let bits = BitVector::new_from_string(text);
    proof {
        reveal_strlit("001110110101010111111111");
        assert(text@.len() == 24);
        assert(vstd::string::is_ascii(text));
        broadcast use vstd::string::is_ascii_spec_bytes;
        assert(text.spec_bytes().len() == 24);
    }
    assert(bits@.len() == 24);
    let b = T::new(bits);
    let qs = vec![
        Query::Access(4),
        Query::Rank0(10),
        Query::Select1(14),
        Query::Rank1(10),
        Query::Select0(3),
        Query::Access(5),
    ];
    let expected: Vec<usize> = vec![1, 4, 20, 6, 5, 0];
    check_answers(&b, &qs, &expected)
}

} // verus!
