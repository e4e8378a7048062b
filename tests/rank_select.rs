use rand::{Rng, SeedableRng};
use rand_xoshiro::Xoshiro256Plus;
use rank_select::bvec::{BitVector, RankSelectVector};
use rank_select::fast_bvec::FastRASBVec;
use rank_select::params::{BigRASB, RASBVecParameters, RankBitTestParams, SmallRASB};
use rank_select::query::{test_sample, ExecQueries};
use rank_select::record::RankSuperblock;
use rank_select::sampling::generate_random_queries;

struct SectionDescription {
    weight0: f32,
    section_len: usize,
    probability: f32,
}

fn generate_random_bits_in_sections(
    section_description: &[SectionDescription],
    nr_sections: usize,
    seed: u64,
) -> String {
    let mut rng = Xoshiro256Plus::seed_from_u64(seed);
    let mut result = String::new();
    let weight_sum = section_description.iter().map(|s| s.probability).sum::<f32>();
    for _ in 0..nr_sections {
        let mut choice = rng.gen_range(0.0..weight_sum);
        let mut section = section_description.last().unwrap();
        for s in section_description {
            if choice < s.probability {
                section = s;
                break;
            } else {
                choice -= s.probability;
            }
        }
        for _ in 0..section.section_len {
            result.push(if rng.gen_range(0.0..1.0) < section.weight0 { '0' } else { '1' });
        }
    }
    result
}

fn generate_random_bits_string(length: usize, seed: u64, weight0: f32) -> String {
    let desc = [SectionDescription { weight0, section_len: length, probability: 1.0 }];
    generate_random_bits_in_sections(&desc, 1, seed)
}

fn simple_select_holds<T: RankSelectVector>() {
    let bits = "1111111111011111111110011111111110";
    let rasb = T::new(BitVector::new_from_string(bits));
    let mut count0 = 0;
    let mut count1 = 0;
    for i in 0..bits.len() {
        if rasb.access(i) == 0 {
            count0 += 1;
            let sel = rasb.select0(count0);
            assert!(sel == Some(i), "select0({}) = {:?} (should be {})", count0, sel, i);
        } else {
            count1 += 1;
            let sel = rasb.select1(count1);
            assert!(sel == Some(i), "select1({}) = {:?} (should be {})", count1, sel, i);
        }
    }
}

fn test_generic<P: RASBVecParameters>(size: usize, nr_queries: usize, seed: u64) {
    let bits = generate_random_bits_string(size, seed, 0.5);
    let rasb = FastRASBVec::<P>::new(BitVector::new_from_string(bits.as_str()));
    let slowb = BitVector::new_from_string(bits.as_str());
    let queries = generate_random_queries(nr_queries, 1, size, None);
    let answers_fast = queries.exec_queries(&rasb);
    let answers_slow = queries.exec_queries(&slowb);
    assert_eq!(answers_fast.len(), answers_slow.len());
    for ((a, b), q) in answers_fast.iter().zip(answers_slow.iter()).zip(queries.iter()) {
        assert_eq!(a, b, "got {}, expected {} for query {:?}", a, b, q);
    }
}

#[test]
fn test() {
    let str = generate_random_bits_string(3 * 128 + 15, 0, 0.5);
    let bv = BitVector::new_from_string(str.as_str());
    assert_eq!(bv.size(), str.len());
    for i in 0..str.len() {
        assert_eq!(bv.get_nth(i), str.chars().nth(i).unwrap() as u32 - '0' as u32);
    }
}

#[test]
fn test_count_ones() {
    let n = 3 * 128 + 15;
    let str = generate_random_bits_string(n, 0, 0.5);
    let bv = BitVector::new_from_string(str.as_str());
    for i in 0..n {
        for j in (i + 1)..n {
            let mut ans = 0;
            for k in i..j {
                ans += str.as_bytes()[k] as usize - '0' as usize;
            }
            let actual = bv.count_ones(i, j);
            assert_eq!(ans, actual, "i = {}, j = {} ans = {} actual = {}", i, j, ans, actual);
        }
    }
}

#[test]
fn find_nth_x() {
    let n = 3 * 128 + 15;
    let str = generate_random_bits_string(n, 0, 0.5);
    let bv = BitVector::new_from_string(str.as_str());
    for i in 0..n {
        let mut count0 = 0;
        let mut count1 = 0;
        for j in i..n {
            if bv.get_nth(j) == 0 {
                count0 += 1;
                assert_eq!(Some(j), bv.find_nth_x(i, count0, 0), "i = {}, j = {}, count0 = {}", i, j, count0);
            } else {
                count1 += 1;
                assert_eq!(Some(j), bv.find_nth_x(i, count1, 1), "i = {}, j = {}, count1 = {}", i, j, count1);
            }
        }
    }
}

#[test]
fn bvec_test() {
    assert!(test_sample::<BitVector>());
}

#[test]
fn select() {
    simple_select_holds::<BitVector>();
}

#[test]
fn rank_superblock_test() {
    for test in 0..10 {
        let mut bfield = RankSuperblock::<RankBitTestParams>::new();
        let mut rng = Xoshiro256Plus::seed_from_u64(233 * test);
        let sblock: usize = rng.gen_range(0..(1 << 19));
        bfield.set_super(sblock);
        let mut blocks = [0u32; 10];
        for i in 0..10 {
            let block: u32 = rng.gen_range(0..(1 << 13));
            bfield.set_block(i, block);
            blocks[i] = block;
        }
        assert_eq!(bfield.superblock(), sblock, "superblock not ok");
        for i in 0..10 {
            assert_eq!(bfield.block(i), blocks[i], "block {} not ok", i);
        }
    }
}

#[test]
fn rank_simple() {
    let bits = "1111111111111111111111";
    let rasb = FastRASBVec::<SmallRASB>::new(BitVector::new_from_string(bits));
    for i in 0..bits.len() {
        assert_eq!(rasb.rank(i), i);
    }
}

#[test]
fn select_simple() {
    simple_select_holds::<FastRASBVec<SmallRASB>>();
}

#[test]
fn test_small() {
    test_generic::<SmallRASB>(35, 30, 1);
}

#[test]
fn test_big() {
    let n = BigRASB::SUPERBLOCK_SIZE * 4 + 3 * BigRASB::BLOCK_SIZE - 1;
    let q = n * 2;
    test_generic::<BigRASB>(n, q, 3);
}

#[test]
fn sample_1() {
    assert!(test_sample::<FastRASBVec<BigRASB>>());
}

#[test]
fn sample_2() {
    assert!(test_sample::<FastRASBVec<SmallRASB>>());
}
