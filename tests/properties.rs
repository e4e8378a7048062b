use rand::{Rng, SeedableRng};
use rand_xoshiro::Xoshiro256Plus;
use rank_select::bvec::{BitVector, RankSelectVector};
use rank_select::fast_bvec::FastRASBVec;
use rank_select::input::{is_bit_text, parse_number, parse_query_line, trim_bounds};
use rank_select::naive_bvec::NaiveBitVector;
use rank_select::params::{BigRASB, DefaultRASB, SmallRASB};
use rank_select::query::{check_answers, exec_one_query, query_fits, ExecQueries, Query};
use rank_select::record::RankSuperblock;
use rank_select::sampling::generate_random_queries;

const NONE: usize = usize::MAX;

/// Reference answers computed from plain prefix counts and position lists.
struct Naive {
    bits: Vec<bool>,
    ones_before: Vec<usize>,
    ones_at: Vec<usize>,
    zeros_at: Vec<usize>,
}

impl Naive {
    fn new(text: &str) -> Naive {
        let bits: Vec<bool> = text.bytes().map(|b| b == b'1').collect();
        let mut ones_before = vec![0];
        let mut ones_at = vec![];
        let mut zeros_at = vec![];
        for (i, b) in bits.iter().enumerate() {
            ones_before.push(ones_before[i] + *b as usize);
            if *b {
                ones_at.push(i);
            } else {
                zeros_at.push(i);
            }
        }
        Naive { bits, ones_before, ones_at, zeros_at }
    }

    fn select(&self, value: bool, k: usize) -> usize {
        let at = if value { &self.ones_at } else { &self.zeros_at };
        if k == 0 || k > at.len() {
            NONE
        } else {
            at[k - 1]
        }
    }

    fn answer(&self, q: &Query) -> usize {
        match q {
            Query::Access(i) => self.bits[*i] as usize,
            Query::Select1(k) => self.select(true, *k),
            Query::Select0(k) => self.select(false, *k),
            Query::Rank1(i) => self.ones_before[*i],
            Query::Rank0(i) => *i - self.ones_before[*i],
        }
    }
}

fn bernoulli_bits(len: usize, seed: u64, p_one: f64) -> String {
    let mut rng = Xoshiro256Plus::seed_from_u64(seed);
    (0..len).map(|_| if rng.gen_bool(p_one) { '1' } else { '0' }).collect()
}

fn all_queries(n: usize, ones: usize) -> Vec<Query> {
    let mut qs = vec![];
    for i in 0..n {
        qs.push(Query::Access(i));
    }
    for i in 0..=n {
        qs.push(Query::Rank1(i));
        qs.push(Query::Rank0(i));
    }
    for k in 0..=ones + 1 {
        qs.push(Query::Select1(k));
    }
    for k in 0..=(n - ones) + 1 {
        qs.push(Query::Select0(k));
    }
    qs
}

fn agrees_with_naive<T: RankSelectVector>(text: &str) {
    let naive = Naive::new(text);
    let b = T::new(BitVector::new_from_string(text));
    let qs = all_queries(text.len(), naive.ones_at.len());
    for q in &qs {
        assert_eq!(exec_one_query(q, &b), naive.answer(q), "query {:?} on {}", q, text);
    }
}

#[test]
fn sample_scenario_on_every_layout() {
    let text = "001110110101010111111111";
    let qs = vec![
        Query::Access(4),
        Query::Rank0(10),
        Query::Select1(14),
        Query::Rank1(10),
        Query::Select0(3),
        Query::Access(5),
    ];
    let expected = vec![1, 4, 20, 6, 5, 0];
    let fast = FastRASBVec::<DefaultRASB>::new(BitVector::new_from_string(text));
    assert_eq!(qs.exec_queries(&fast), expected);
    assert!(check_answers(&fast, &qs, &expected));
    assert!(!check_answers(&fast, &qs, &vec![1, 4, 20, 6, 5, 1]));
    assert!(!check_answers(&fast, &qs, &vec![1, 4, 20]));
    let small = FastRASBVec::<SmallRASB>::new(BitVector::new_from_string(text));
    assert_eq!(qs.exec_queries(&small), expected);
}

fn all_ones_holds<T: RankSelectVector>() {
    let text = "1111111111111111111111";
    let b = T::new(BitVector::new_from_string(text));
    for i in 0..=22 {
        assert_eq!(exec_one_query(&Query::Rank1(i), &b), i);
        assert_eq!(exec_one_query(&Query::Rank0(i), &b), 0);
    }
    for k in 1..=22 {
        assert_eq!(b.select1(k), Some(k - 1));
    }
    assert_eq!(b.select0(1), None);
    assert_eq!(exec_one_query(&Query::Select0(1), &b), NONE);
    assert_eq!(b.select1(23), None);
}

#[test]
fn all_ones_scenario() {
    all_ones_holds::<FastRASBVec<SmallRASB>>();
    all_ones_holds::<FastRASBVec<BigRASB>>();
    all_ones_holds::<FastRASBVec<DefaultRASB>>();
    all_ones_holds::<BitVector>();
}

fn mixed_select_holds<T: RankSelectVector>() {
    let text = "1111111111011111111110011111111110";
    let b = T::new(BitVector::new_from_string(text));
    let (mut c0, mut c1) = (0, 0);
    for (p, ch) in text.chars().enumerate() {
        if ch == '1' {
            c1 += 1;
            assert_eq!(b.select1(c1), Some(p));
        } else {
            c0 += 1;
            assert_eq!(b.select0(c0), Some(p));
        }
    }
    assert_eq!(b.select1(c1 + 1), None);
    assert_eq!(b.select0(c0 + 1), None);
}

#[test]
fn mixed_select_scenario() {
    mixed_select_holds::<FastRASBVec<SmallRASB>>();
    mixed_select_holds::<FastRASBVec<BigRASB>>();
    mixed_select_holds::<FastRASBVec<DefaultRASB>>();
}

#[test]
fn random_dense_agrees_with_naive() {
    let n = 1 << 20;
    let text = bernoulli_bits(n, 1, 0.5);
    let naive = Naive::new(&text);
    let fast = FastRASBVec::<DefaultRASB>::new(BitVector::new_from_string(&text));
    let ones = naive.ones_at.len();
    let queries = generate_random_queries(4 << 20, 1, n, Some(ones));
    for q in &queries {
        assert_eq!(exec_one_query(q, &fast), naive.answer(q), "query {:?}", q);
    }
}

#[test]
fn random_sparse_select_agrees_with_naive() {
    let n = 1 << 20;
    let text = bernoulli_bits(n, 7, 0.01);
    let naive = Naive::new(&text);
    let fast = FastRASBVec::<DefaultRASB>::new(BitVector::new_from_string(&text));
    let ones = naive.ones_at.len();
    let zeros = n - ones;
    let mut rng = Xoshiro256Plus::seed_from_u64(11);
    for _ in 0..(1 << 18) {
        let k1 = rng.gen_range(1..=ones);
        assert_eq!(fast.select1(k1), Some(naive.select(true, k1)));
        let k0 = rng.gen_range(1..=zeros);
        assert_eq!(fast.select0(k0), Some(naive.select(false, k0)));
    }
}

#[test]
fn single_bit_vectors() {
    for text in ["0", "1"] {
        agrees_with_naive::<FastRASBVec<SmallRASB>>(text);
        agrees_with_naive::<FastRASBVec<DefaultRASB>>(text);
        agrees_with_naive::<BitVector>(text);
    }
    let zero = FastRASBVec::<SmallRASB>::new(BitVector::new_from_string("0"));
    assert_eq!(zero.access(0), 0);
    assert_eq!(zero.rank(1), 0);
    assert_eq!(zero.select0(1), Some(0));
    assert_eq!(zero.select0(2), None);
    assert_eq!(zero.select1(1), None);
    let one = FastRASBVec::<SmallRASB>::new(BitVector::new_from_string("1"));
    assert_eq!(one.access(0), 1);
    assert_eq!(one.rank(1), 1);
    assert_eq!(one.select1(1), Some(0));
    assert_eq!(one.select1(2), None);
    assert_eq!(exec_one_query(&Query::Select1(2), &one), NONE);
}

#[test]
fn empty_vector() {
    let empty = FastRASBVec::<SmallRASB>::new_empty();
    assert_eq!(empty.size(), 0);
    assert_eq!(empty.rank(0), 0);
    assert_eq!(empty.select1(1), None);
    assert_eq!(empty.select0(1), None);
    let built = FastRASBVec::<BigRASB>::new(BitVector::new_from_string(""));
    assert_eq!(built.rank(0), 0);
    assert_eq!(built.select0(0), None);
}

#[test]
fn initialize_replaces_the_bits() {
    let mut v = FastRASBVec::<SmallRASB>::new_empty();
    v.initialize_for(BitVector::new_from_string("0110"));
    assert_eq!(v.size(), 4);
    assert_eq!(v.rank(4), 2);
    assert_eq!(v.select0(2), Some(3));
}

#[test]
fn superblock_boundaries_agree_with_naive() {
    for len in [7, 8, 9, 15, 16, 17, 63, 64, 65, 127, 128, 129, 1023, 1024, 1025] {
        let text = bernoulli_bits(len, len as u64, 0.5);
        agrees_with_naive::<FastRASBVec<SmallRASB>>(&text);
        agrees_with_naive::<FastRASBVec<BigRASB>>(&text);
    }
    let long = bernoulli_bits(3 * 32768 + 4096 + 5, 5, 0.5);
    agrees_with_naive::<FastRASBVec<DefaultRASB>>(&long);
}

#[test]
fn rank_laws_on_random_bits() {
    let text = bernoulli_bits(3000, 21, 0.4);
    let b = FastRASBVec::<SmallRASB>::new(BitVector::new_from_string(&text));
    let bits = BitVector::new_from_string(&text);
    let mut prev = 0;
    let mut sum = 0;
    for i in 0..=3000 {
        let r1 = b.rank(i);
        let r0 = exec_one_query(&Query::Rank0(i), &b);
        assert_eq!(r1, sum);
        assert!(r1 == prev || r1 == prev + 1);
        assert_eq!(r0 + r1, i);
        if i < 3000 {
            assert_eq!(b.access(i) as usize, b.rank(i + 1) - r1);
            sum += b.access(i) as usize;
        }
        prev = r1;
    }
    for l in (0..=3000).step_by(37) {
        for r in (l..=3000).step_by(101) {
            assert_eq!(bits.count_ones(l, r), b.rank(r) - b.rank(l));
        }
    }
}

#[test]
fn select_laws_on_random_bits() {
    let text = bernoulli_bits(2500, 22, 0.3);
    let b = FastRASBVec::<BigRASB>::new(BitVector::new_from_string(&text));
    let ones = b.rank(2500);
    let zeros = 2500 - ones;
    for k in 1..=ones {
        let p = b.select1(k).unwrap();
        assert_eq!(b.rank(p), k - 1);
        assert_eq!(b.access(p), 1);
    }
    for k in 1..=zeros {
        let p = b.select0(k).unwrap();
        assert_eq!(p - b.rank(p), k - 1);
        assert_eq!(b.access(p), 0);
    }
    for p in 0..2500 {
        if b.access(p) == 1 {
            assert_eq!(b.select1(b.rank(p) + 1), Some(p));
        } else {
            assert_eq!(b.select0(p - b.rank(p) + 1), Some(p));
        }
    }
    assert_eq!(b.select1(0), None);
    assert_eq!(b.select0(0), None);
    assert_eq!(b.select1(ones + 1), None);
    assert_eq!(b.select0(zeros + 1), None);
}

#[test]
fn record_round_trip_default_layout() {
    let mut rng = Xoshiro256Plus::seed_from_u64(99);
    for _ in 0..50 {
        let mut rec = RankSuperblock::<DefaultRASB>::new();
        let before: usize = rng.gen_range(0..(1usize << 48));
        rec.set_super(before);
        let mut blocks = [0u32; 8];
        for (j, slot) in blocks.iter_mut().enumerate() {
            let v: u32 = rng.gen_range(0..(1 << 16));
            rec.set_block(j, v);
            *slot = v;
        }
        assert_eq!(rec.superblock(), before);
        for (j, v) in blocks.iter().enumerate() {
            assert_eq!(rec.block(j), *v);
        }
    }
}

#[test]
fn record_round_trip_extreme_values() {
    let mut rec = RankSuperblock::<BigRASB>::new();
    rec.set_super(usize::MAX);
    rec.set_block(0, 0);
    rec.set_block(1, 2047);
    rec.set_block(2, 1);
    rec.set_block(3, 1024);
    assert_eq!(rec.superblock(), usize::MAX);
    assert_eq!(rec.block(0), 0);
    assert_eq!(rec.block(1), 2047);
    assert_eq!(rec.block(2), 1);
    assert_eq!(rec.block(3), 1024);
}

#[test]
fn memory_usage_counts_records_and_samples() {
    let text = bernoulli_bits(4863, 3, 0.5);
    let big = FastRASBVec::<BigRASB>::new(BitVector::new_from_string(&text));
    assert_eq!(big.get_memory_usage(), 8 + 5 * 14);
    let dense = FastRASBVec::<DefaultRASB>::new(BitVector::new_from_string(&bernoulli_bits(1 << 20, 4, 0.5)));
    assert_eq!(dense.get_memory_usage(), 8 + 32 * 22);
    let small = FastRASBVec::<SmallRASB>::new(BitVector::new_from_string(&bernoulli_bits(200, 4, 0.5)));
    assert_eq!(small.get_memory_usage(), 2 * 8 + 25 * 9);
}

#[test]
fn count_ones_exact_values() {
    let b = BitVector::new_from_string("001110110101010111111111");
    assert_eq!(b.count_ones(0, 24), 17);
    assert_eq!(b.count_ones(0, 10), 6);
    assert_eq!(b.count_ones(5, 5), 0);
    let ones = BitVector::new_from_string(&"1".repeat(128));
    assert_eq!(ones.count_ones(0, 128), 128);
    assert_eq!(ones.count_ones(64, 128), 64);
    assert_eq!(ones.count_ones(128, 128), 0);
    assert_eq!(ones.count_ones(3, 125), 122);
}

#[test]
fn find_nth_x_edges() {
    let b = BitVector::new_from_string("1111111111");
    assert_eq!(b.find_nth_x(0, 0, 1), None);
    assert_eq!(b.find_nth_x(0, 1, 0), None);
    assert_eq!(b.find_nth_x(3, 7, 1), Some(9));
    assert_eq!(b.find_nth_x(3, 8, 1), None);
    assert_eq!(b.find_nth_x(10, 1, 1), None);
    let c = BitVector::new_from_string(&format!("{}1", "0".repeat(64)));
    assert_eq!(c.find_nth_x(0, 1, 1), Some(64));
    assert_eq!(c.find_nth_x(0, 64, 0), Some(63));
    assert_eq!(c.find_nth_x(0, 65, 0), None);
    assert_eq!(c.find_nth_x(65, 1, 0), None);
    assert_eq!(c.find_nth_x(5, 3, 0), Some(7));
}

#[test]
fn text_other_than_one_is_a_clear_bit() {
    let b = BitVector::new_from_string("1x1 ");
    assert_eq!(b.size(), 4);
    assert_eq!(b.get_nth(0), 1);
    assert_eq!(b.get_nth(1), 0);
    assert_eq!(b.get_nth(2), 1);
    assert_eq!(b.get_nth(3), 0);
}

#[test]
fn query_range_checks() {
    assert!(query_fits(&Query::Access(3), 4));
    assert!(!query_fits(&Query::Access(4), 4));
    assert!(query_fits(&Query::Rank1(4), 4));
    assert!(!query_fits(&Query::Rank0(5), 4));
    assert!(query_fits(&Query::Select1(100), 4));
    assert!(query_fits(&Query::Select0(0), 0));
}

#[test]
fn random_queries_stay_in_range() {
    let qs = generate_random_queries(5000, 3, 100, Some(30));
    assert_eq!(qs.len(), 5000);
    let mut kinds = [false; 5];
    for q in &qs {
        match q {
            Query::Access(i) => {
                assert!(*i < 100);
                kinds[0] = true;
            }
            Query::Select1(k) => {
                assert!(*k < 30);
                kinds[1] = true;
            }
            Query::Select0(k) => {
                assert!(*k < 70);
                kinds[2] = true;
            }
            Query::Rank1(i) => {
                assert!(*i < 100);
                kinds[3] = true;
            }
            Query::Rank0(i) => {
                assert!(*i < 100);
                kinds[4] = true;
            }
        }
    }
    assert!(kinds.iter().all(|k| *k));
    assert_eq!(generate_random_queries(0, 3, 0, None).len(), 0);
}

#[test]
fn naive_vector_agrees_with_reference() {
    for (len, seed) in [(1, 1), (40, 2), (333, 3)] {
        let text = bernoulli_bits(len, seed, 0.5);
        agrees_with_naive::<NaiveBitVector>(&text);
    }
    assert!(test_sample_naive());
}

fn test_sample_naive() -> bool {
    rank_select::query::test_sample::<NaiveBitVector>()
}

#[test]
fn query_lines_parse() {
    assert_eq!(parse_query_line(b"access 4"), Some(Query::Access(4)));
    assert_eq!(parse_query_line(b"  rank 0 10  "), Some(Query::Rank0(10)));
    assert_eq!(parse_query_line(b"rank 1 10\r"), Some(Query::Rank1(10)));
    assert_eq!(parse_query_line(b"\tselect 1 14"), Some(Query::Select1(14)));
    assert_eq!(parse_query_line(b"select 0 3"), Some(Query::Select0(3)));
    assert_eq!(parse_query_line(b"access 007"), Some(Query::Access(7)));
    assert_eq!(
        parse_query_line(b"access 18446744073709551615"),
        Some(Query::Access(usize::MAX))
    );
}

#[test]
fn malformed_query_lines_are_rejected() {
    for line in [
        &b""[..],
        b"   ",
        b"acces 4",
        b"access",
        b"access ",
        b"access  4",
        b"access 4 5",
        b"access -1",
        b"access 18446744073709551616",
        b"rank 2 3",
        b"rank 1",
        b"rank 1 x",
        b"select 1 +1",
        b"select 01 1",
        b"query 1 1",
    ] {
        assert_eq!(parse_query_line(line), None, "{:?}", String::from_utf8_lossy(line));
    }
}

#[test]
fn numbers_and_blanks() {
    assert_eq!(parse_number(b"x007y", 1, 4), Some(7));
    assert_eq!(parse_number(b"12a", 0, 3), None);
    assert_eq!(parse_number(b"12", 1, 1), None);
    assert_eq!(parse_number(b"99999999999999999999", 0, 20), None);
    assert_eq!(trim_bounds(b"  ab \t"), (2, 4));
    assert_eq!(trim_bounds(b" \r\n"), (3, 3));
    assert_eq!(trim_bounds(b"ab"), (0, 2));
}

#[test]
fn bit_text_check() {
    assert!(is_bit_text(b"0101"));
    assert!(is_bit_text(b"1"));
    assert!(!is_bit_text(b""));
    assert!(!is_bit_text(b"01a"));
    assert!(!is_bit_text(b"01 "));
}
