//! Seeded random query lists, for exercising a bit vector against another.
use rand::{Rng, SeedableRng};
use rand_xoshiro::Xoshiro256Plus;
use vstd::prelude::*;

use crate::query::Query;

verus! {

/// Declares `rand_xoshiro::Xoshiro256Plus`, the seeded generator, so that it
/// can be held and handed to the wrappers below; nothing inside it is read.
#[verifier::external_type_specification]
#[verifier::external_body]
pub struct ExXoshiro256Plus(Xoshiro256Plus);

/// Relies on `SeedableRng::seed_from_u64` for `Xoshiro256Plus`: a generator
/// whose whole output is fixed by `seed`.
#[verifier::external_body]
fn seeded_rng(seed: u64) -> Xoshiro256Plus {
    Xoshiro256Plus::seed_from_u64(seed)
}

/// Relies on `Rng::gen_range` over `0..bound`: a value in `[0, bound)`; it
/// panics on an empty range, which `bound > 0` rules out.
#[verifier::external_body]
fn gen_below(rng: &mut Xoshiro256Plus, bound: usize) -> (r: usize)
    requires
        bound > 0,
    ensures
        r < bound,
{
    rng.gen_range(0..bound)
}

/// `q` is a query drawn for a vector of `n` bits of which `ones` are set and
/// `zeros` are clear: positions below `n`, select counts below `ones` or
/// `zeros`.
pub open spec fn query_drawn(q: Query, n: int, ones: int, zeros: int) -> bool {
    match q {
        Query::Access(i) => i < n,
        Query::Select1(k) => k < ones,
        Query::Select0(k) => k < zeros,
        Query::Rank1(i) => i < n,
        Query::Rank0(i) => i < n,
    }
}

/// `nr_queries` queries of uniformly chosen kinds, from a generator seeded
/// with `seed`. Without `count1`, select counts range below `n`.
pub fn generate_random_queries(nr_queries: usize, seed: u64, n: usize, count1: Option<usize>) -> (r:
    Vec<Query>)
    requires
        count1 matches Some(c) ==> c <= n,
        nr_queries > 0 ==> n > 0,
        nr_queries > 0 ==> (count1 matches Some(c) ==> 0 < c < n),
    ensures
        r@.len() == nr_queries,
        forall|j: int|
            0 <= j < r@.len() ==> query_drawn(
                #[trigger] r@[j],
                n as int,
                match count1 {
                    Some(c) => c as int,
                    None => n as int,
                },
                match count1 {
                    Some(c) => n - c,
                    None => n as int,
                },
            ),
{
    let ones = match count1 {
        Some(c) => c,
        None => n,
    };
    let zeros = match count1 {
        Some(c) => n - c,
        None => n,
    };
    let mut rng = seeded_rng(seed);
    let mut queries: Vec<Query> = Vec::new();
    let mut j: usize = 0;
    while j < nr_queries
        invariant
            j <= nr_queries,
            nr_queries > 0 ==> n > 0 && ones > 0 && zeros > 0,
            queries@.len() == j,
            forall|t: int|
                0 <= t < j ==> query_drawn(#[trigger] queries@[t], n as int, ones as int, zeros as int),
        decreases nr_queries - j,
    {
        let qtype = gen_below(&mut rng, 5);
        let q = if qtype == 0 {
            Query::Access(gen_below(&mut rng, n))
        } else if qtype == 1 {
            Query::Select1(gen_below(&mut rng, ones))
        } else if qtype == 2 {
            Query::Select0(gen_below(&mut rng, zeros))
        } else if qtype == 3 {
            Query::Rank1(gen_below(&mut rng, n))
        } else {
            Query::Rank0(gen_below(&mut rng, n))
        };
        queries.push(q);
        j = j + 1;
    }
    queries
}

} // verus!
