//! The accelerated bit vector: the packed bits plus a rank directory of
//! cache-line sized superblock records and a megablock sample, answering
//! rank in constant time and select with a short search.
use vstd::arithmetic::power2::pow2;
use vstd::prelude::*;

use crate::bvec::{BitVector, RankSelectVector};
use crate::model::{
    count_range, count_val, lemma_count_full,
    lemma_count_range_as_ranks, lemma_count_range_complement, lemma_count_range_le,
    lemma_count_split, lemma_rank_mono, rank, select_result,
};
use crate::params::{lemma_block_offsets, lemma_field_starts, RASBVecParameters, RankLayout};
use crate::record::{
    field_value, lemma_field_other, lemma_field_written, range_clear,
    RankSuperblock,
};

verus! {

/// The smaller of two integers.
pub open spec fn min_int(a: int, b: int) -> int {
    if a < b {
        a
    } else {
        b
    }
}

/// Set bits of `s` from the start of superblock `i` to the start of its
/// block `j` (cut off at the end of `s`).
pub open spec fn block_count(s: Seq<bool>, lay: RankLayout, i: int, j: int) -> int {
    rank(s, true, min_int(i * lay.superblock_size + j * lay.block_size, s.len() as int)) - rank(
        s,
        true,
        i * lay.superblock_size,
    )
}

/// Record `rec` is the correct record of superblock `i` of `s`.
pub open spec fn record_ok(rec: Seq<bool>, lay: RankLayout, s: Seq<bool>, i: int) -> bool {
    &&& rec.len() == lay.record_bits()
    &&& field_value(rec, 0, lay.superblock_bits as int) == rank(s, true, i * lay.superblock_size)
    &&& forall|j: int|
        0 <= j < lay.blocks() ==> #[trigger] field_value(
            rec,
            lay.block_field_start(j),
            lay.block_field_start(j + 1),
        ) == block_count(s, lay, i, j)
}

/// `a / b`, rounded up.
pub open spec fn ceil_div(a: int, b: int) -> int {
    a / b + if a % b == 0 {
        0int
    } else {
        1int
    }
}

/// Bytes of the rank directory and the megablock sample over `n` bits: one
/// record per superblock and one 8-byte entry per megablock.
pub open spec fn index_bytes(lay: RankLayout, n: int) -> int {
    let supers = ceil_div(n, lay.superblock_size as int);
    supers * lay.cacheline_size + 8 * ceil_div(supers, lay.megablock_factor as int)
}

/// `k` pieces of size `unit` cover `n` with less than one piece to spare.
pub open spec fn covers(k: int, unit: int, n: int) -> bool {
    &&& k * unit >= n
    &&& k == 0 || (k - 1) * unit < n
}

/// A bit vector with a rank directory and a select sample.
pub struct FastRASBVec<Parameters: RASBVecParameters> {
    bits: BitVector,
    superblocks: Vec<RankSuperblock<Parameters>>,
    megablocks: Vec<usize>,
    count0: usize,
    count1: usize,
}

impl<Parameters: RASBVecParameters> FastRASBVec<Parameters> {
    /// The directory, the sample and the totals describe the bits `s`.
    spec fn index_ok(&self, s: Seq<bool>) -> bool {
        let lay = Parameters::spec_layout();
        &&& lay.wf()
        &&& s.len() <= lay.max_len()
        &&& covers(self.superblocks.len() as int, lay.superblock_size as int, s.len() as int)
        &&& forall|i: int|
            #![trigger self.superblocks@[i]]
            0 <= i < self.superblocks.len() ==> self.superblocks@[i].wf() && record_ok(
                self.superblocks@[i]@,
                lay,
                s,
                i,
            )
        &&& covers(
            self.megablocks.len() as int,
            lay.megablock_factor as int,
            self.superblocks.len() as int,
        )
        &&& forall|m: int|
            0 <= m < self.megablocks.len() ==> #[trigger] self.megablocks@[m] == rank(
                s,
                true,
                m * lay.megablock_factor * lay.superblock_size,
            )
        &&& self.count1 == count_val(s, true)
        &&& self.count0 == count_val(s, false)
    }

    spec fn wf(&self) -> bool {
        &&& self.bits.wf()
        &&& self.index_ok(self.bits@)
    }

    pub fn size(&self) -> (r: usize)
        ensures
            r == self.bit_seq().len(),
    {
        self.bits.size()
    }

    pub fn blocks_per_superblock() -> (r: usize)
        ensures
            r == Parameters::spec_layout().blocks(),
    {
        let lay = Parameters::layout();
        lay.superblock_size / lay.block_size
    }

    /// Superblock `i` starts before the end of the bits.
    proof fn lemma_superblock_start(&self, i: int)
        requires
            self.wf(),
            0 <= i < self.superblocks.len(),
        ensures
            0 <= i * Parameters::spec_layout().superblock_size < self.bits@.len(),
            self.bits@.len() <= usize::MAX,
    {
        self.bits.lemma_len_fits();
        let lay = Parameters::spec_layout();
        let k = self.superblocks.len() as int;
        assert(0 <= i * lay.superblock_size <= (k - 1) * lay.superblock_size) by (nonlinear_arith)
            requires
                0 <= i < k,
                lay.superblock_size > 0,
        ;
    }

    /// Occurrences of `value` before superblock `b`.
    fn value_count_before_sblock(&self, b: usize, value: u32) -> (r: usize)
        requires
            self.wf(),
            b < self.superblocks.len(),
            value <= 1,
        ensures
            r == rank(self.bits@, value == 1, b * Parameters::spec_layout().superblock_size),
    {
        let lay = Parameters::layout();
        proof {
            self.lemma_superblock_start(b as int);
            assert(record_ok(self.superblocks@[b as int]@, lay, self.bits@, b as int));
            lemma_count_range_le(self.bits@, true, 0, b * lay.superblock_size);
        }
        let ones = self.superblocks[b].superblock();
        proof {
            let p = b * lay.superblock_size;
            lemma_count_range_le(self.bits@, true, 0, p);
            lemma_count_range_complement(self.bits@, 0, p);
        }
        if value == 1 {
            ones
        } else {
            b * lay.superblock_size - ones
        }
    }

    /// Occurrences of `value` in superblock `sb` before its block `b`. Where
    /// that block starts past the end of the bits, the count for 0 also
    /// counts the missing positions, so it is at least the real count.
    fn value_count_before_block(&self, sb: usize, b: usize, value: u32) -> (r: usize)
        requires
            self.wf(),
            sb < self.superblocks.len(),
            b < Parameters::spec_layout().blocks(),
            value <= 1,
        ensures
            ({
                let lay = Parameters::spec_layout();
                let base = sb * lay.superblock_size;
                let p = base + b * lay.block_size;
                &&& p <= self.bits@.len() ==> r == count_range(self.bits@, value == 1, base, p)
                &&& p > self.bits@.len() ==> r >= count_range(
                    self.bits@,
                    value == 1,
                    base,
                    self.bits@.len() as int,
                )
            }),
    {
        let lay = Parameters::layout();
        let ghost s = self.bits@;
        let ghost n = s.len() as int;
        let ghost base = sb * lay.superblock_size;
        let ghost p = base + b * lay.block_size;
        proof {
            self.lemma_superblock_start(sb as int);
            lemma_block_offsets(lay, b as int);
            lemma_field_starts(lay, b as int + 1, lay.blocks());
            let e = min_int(p, n);
            lemma_count_range_as_ranks(s, true, base, e);
            lemma_count_range_le(s, true, base, e);
            lemma_count_range_complement(s, base, e);
            assert(b * lay.block_size <= lay.superblock_size);
        }
        let ones = self.superblocks[sb].block(b) as usize;
        if value == 1 {
            ones
        } else {
            b * lay.block_size - ones
        }
    }

    /// Number of set bits among the positions `[0, i)`.
    fn _rank1(&self, i: usize) -> (r: usize)
        requires
            self.wf(),
            i <= self.bits@.len(),
        ensures
            r == rank(self.bits@, true, i as int),
    {
        let lay = Parameters::layout();
        let ghost s = self.bits@;
        let super_idx = i / lay.superblock_size;
        let super_rem = i % lay.superblock_size;
        let block_idx = super_rem / lay.block_size;
        let block_rem = super_rem % lay.block_size;
        proof {
            vstd::arithmetic::div_mod::lemma_fundamental_div_mod(
                i as int,
                lay.superblock_size as int,
            );
            vstd::arithmetic::div_mod::lemma_fundamental_div_mod(
                super_rem as int,
                lay.block_size as int,
            );
            lemma_count_full(s, true);
        }
        if super_idx == self.superblocks.len() {
            proof {
                let k = super_idx as int;
                assert(k * lay.superblock_size <= i) by (nonlinear_arith)
                    requires
                        i == lay.superblock_size * k + super_rem,
                        super_rem >= 0,
                ;
            }
            return self.count1;
        }
        proof {
            let k = self.superblocks.len() as int;
            assert(super_idx < k) by (nonlinear_arith)
                requires
                    i == lay.superblock_size * super_idx + super_rem,
                    0 <= super_rem,
                    i <= k * lay.superblock_size,
                    super_idx != k,
                    lay.superblock_size > 0,
            ;
            assert(block_idx < lay.blocks()) by (nonlinear_arith)
                requires
                    super_rem == lay.block_size * block_idx + block_rem,
                    0 <= block_rem,
                    super_rem < lay.superblock_size,
                    lay.blocks() == lay.superblock_size as int / lay.block_size as int,
                    lay.superblock_size % lay.block_size == 0,
                    lay.block_size > 0,
            ;
            self.lemma_superblock_start(super_idx as int);
            lemma_field_starts(lay, block_idx as int + 1, lay.blocks());
            assert(super_idx * lay.superblock_size + block_idx * lay.block_size == i - block_rem)
                by (nonlinear_arith)
                requires
                    i == lay.superblock_size * super_idx + super_rem,
                    super_rem == lay.block_size * block_idx + block_rem,
            ;
            assert(self.superblocks@[super_idx as int].wf() && record_ok(
                self.superblocks@[super_idx as int]@,
                lay,
                s,
                super_idx as int,
            ));
            lemma_rank_mono(s, true, super_idx * lay.superblock_size, i - block_rem);
            lemma_count_range_as_ranks(s, true, (i - block_rem) as int, i as int);
            lemma_count_range_le(s, true, 0, i as int);
        }
        let mut r = self.superblocks[super_idx].superblock();
        r = r + self.superblocks[super_idx].block(block_idx) as usize;
        r = r + self.bits.count_ones(i - block_rem, i);
        r
    }

    /// Occurrences of `value` among the positions `[0, i)`.
    fn generic_rank(&self, i: usize, value: u32) -> (r: usize)
        requires
            self.wf(),
            i <= self.bits@.len(),
            value <= 1,
        ensures
            r == rank(self.bits@, value == 1, i as int),
    {
        let r = self._rank1(i);
        proof {
            lemma_count_range_complement(self.bits@, 0, i as int);
        }
        if value == 1 {
            r
        } else {
            i - r
        }
    }

    /// Bits `[0, n)` split into pieces of size `unit` take `n / unit` pieces,
    /// plus one for a partial piece.
    proof fn lemma_piece_count(n: int, unit: int)
        requires
            n >= 0,
            unit > 0,
        ensures
            covers(ceil_div(n, unit), unit, n),
    {
        vstd::arithmetic::div_mod::lemma_fundamental_div_mod(n, unit);
        let q = n / unit;
        let r = n % unit;
        let k = q + if r == 0 {
            0int
        } else {
            1int
        };
        assert(k * unit >= n && (k == 0 || (k - 1) * unit < n)) by (nonlinear_arith)
            requires
                n == unit * q + r,
                0 <= r < unit,
                q >= 0,
                k == q + if r == 0 {
                    0int
                } else {
                    1int
                },
        ;
    }

    /// Only one piece count covers `n` with less than one piece to spare.
    proof fn lemma_covers_unique(a: int, b: int, unit: int, n: int)
        requires
            unit > 0,
            a >= 0,
            b >= 0,
            covers(a, unit, n),
            covers(b, unit, n),
        ensures
            a == b,
    {
        if a < b {
            vstd::arithmetic::mul::lemma_mul_inequality(a, b - 1, unit);
        } else if b < a {
            vstd::arithmetic::mul::lemma_mul_inequality(b, a - 1, unit);
        }
    }

    /// Counting pieces one position further: a new piece starts exactly
    /// where the position is a multiple of the piece size.
    proof fn lemma_covers_step(k: int, unit: int, i: int)
        requires
            unit > 0,
            i >= 0,
            k >= 0,
            covers(k, unit, i),
        ensures
            i % unit == 0 ==> k * unit == i && covers(k + 1, unit, i + 1),
            i % unit != 0 ==> covers(k, unit, i + 1),
    {
        vstd::arithmetic::div_mod::lemma_fundamental_div_mod(i, unit);
        let q = i / unit;
        let r = i % unit;
        if r == 0 {
            vstd::arithmetic::mul::lemma_mul_is_commutative(unit, q);
            if k < q {
                vstd::arithmetic::mul::lemma_mul_strict_inequality(k, q, unit);
            }
            if k > q {
                vstd::arithmetic::mul::lemma_mul_inequality(q, k - 1, unit);
            }
            assert(k == q);
            assert((k + 1) * unit == k * unit + unit) by (nonlinear_arith);
        } else {
            assert(k * unit >= i + 1) by (nonlinear_arith)
                requires
                    i == unit * q + r,
                    0 < r < unit,
                    k * unit >= i,
            ;
        }
    }

    /// A position `i * unit` with `i` below a covering count lies below `n`.
    proof fn lemma_covered_start(k: int, unit: int, n: int, i: int)
        requires
            unit > 0,
            covers(k, unit, n),
            0 <= i < k,
        ensures
            0 <= i * unit < n,
    {
        assert(0 <= i * unit <= (k - 1) * unit) by (nonlinear_arith)
            requires
                0 <= i < k,
                unit > 0,
        ;
    }

    /// Builds the rank directory, the select sample and the totals of `bits`.
    fn init_rank(&mut self, bits: &BitVector)
        requires
            bits.wf(),
            bits@.len() <= Parameters::spec_layout().max_len(),
        ensures
            final(self).index_ok(bits@),
            final(self).bits == old(self).bits,
    {
        let lay = Parameters::layout();
        let ghost s = bits@;
        let n = bits.size();
        let sz = lay.superblock_size;
        proof {
            bits.lemma_len_fits();
            crate::params::lemma_blocks_fill(lay);
            assert(n / sz <= n) by (nonlinear_arith)
                requires
                    sz >= 1,
                    n >= 0,
            ;
        }
        let n_super = n / sz + if n % sz == 0 {
            0
        } else {
            1
        };
        proof {
            Self::lemma_piece_count(n as int, sz as int);
            bits.lemma_len_fits();
            crate::params::lemma_blocks_fill(lay);
            assert(n / sz <= n) by (nonlinear_arith)
                requires
                    sz >= 1,
                    n >= 0,
            ;
        }
        let bps = Self::blocks_per_superblock();
        let mut superblocks: Vec<RankSuperblock<Parameters>> = Vec::new();
        let mut megablocks: Vec<usize> = Vec::new();
        let mut total_count: usize = 0;
        let mut i: usize = 0;
        while i < n_super
            invariant
                lay == Parameters::spec_layout(),
                lay.wf(),
                s == bits@,
                bits.wf(),
                n == s.len(),
                n <= lay.max_len(),
                n + sz <= usize::MAX,
                n < pow2(lay.superblock_bits as nat),
                lay.blocks() * lay.block_size == lay.superblock_size,
                sz == lay.superblock_size,
                bps == lay.blocks(),
                covers(n_super as int, sz as int, n as int),
                i <= n_super,
                superblocks.len() == i,
                forall|t: int|
                    #![trigger superblocks@[t]]
                    0 <= t < i ==> superblocks@[t].wf() && record_ok(superblocks@[t]@, lay, s, t),
                total_count == rank(s, true, min_int(i * sz, n as int)),
                covers(megablocks.len() as int, lay.megablock_factor as int, i as int),
                forall|m: int|
                    0 <= m < megablocks.len() ==> #[trigger] megablocks@[m] == rank(
                        s,
                        true,
                        m * lay.megablock_factor * lay.superblock_size,
                    ),
            decreases n_super - i,
        {
            proof {
                Self::lemma_covered_start(n_super as int, sz as int, n as int, i as int);
                Self::lemma_covers_step(
                    megablocks.len() as int,
                    lay.megablock_factor as int,
                    i as int,
                );
            }
            let base = i * sz;
            if i % lay.megablock_factor == 0 {
                megablocks.push(total_count);
            }
            let mut rec = RankSuperblock::<Parameters>::new();
            let ghost clear = rec@;
            proof {
                lemma_count_range_le(s, true, 0, base as int);
                rec.lemma_len();
            }
            rec.set_super(total_count);
            proof {
                rec.lemma_len();
                lemma_field_written(clear, 0, lay.superblock_bits as int, total_count as u64);
                lemma_field_other(
                    clear,
                    0,
                    lay.superblock_bits as int,
                    total_count as u64,
                    lay.superblock_bits as int,
                    lay.record_bits(),
                );
                lemma_field_starts(lay, 0, lay.blocks());
                vstd::arithmetic::power2::lemma2_to64();
                if lay.block_bits < 32 {
                    vstd::arithmetic::power2::lemma_pow2_strictly_increases(lay.block_bits as nat, 32);
                }
            }
            let mut sblock_count: u32 = 0;
            let mut j: usize = 0;
            while j < bps
                invariant
                    lay == Parameters::spec_layout(),
                    lay.wf(),
                    s == bits@,
                    bits.wf(),
                    n == s.len(),
                    n <= lay.max_len(),
                    n + sz <= usize::MAX,
                    lay.blocks() * lay.block_size == lay.superblock_size,
                    sz == lay.superblock_size,
                    bps == lay.blocks(),
                    base == i * sz,
                    base < n,
                    total_count == rank(s, true, base as int),
                    j <= bps,
                    rec.wf(),
                    rec@.len() == lay.record_bits(),
                    lay.superblock_size < pow2(lay.block_bits as nat) <= 0x1_0000_0000,
                    field_value(rec@, 0, lay.superblock_bits as int) == total_count,
                    forall|t: int|
                        0 <= t < j ==> #[trigger] field_value(
                            rec@,
                            lay.block_field_start(t),
                            lay.block_field_start(t + 1),
                        ) == block_count(s, lay, i as int, t),
                    range_clear(rec@, lay.block_field_start(j as int), lay.record_bits()),
                    sblock_count == block_count(s, lay, i as int, j as int),
                    0 <= block_count(s, lay, i as int, j as int) <= j * lay.block_size,
                decreases bps - j,
            {
                let ghost r0 = rec@;
                proof {
                    lemma_block_offsets(lay, j as int);
                    lemma_field_starts(lay, j as int, j as int + 1);
                    lemma_field_starts(lay, j as int + 1, lay.blocks());
                }
                rec.set_block(j, sblock_count);
                proof {
                    rec.lemma_len();
                    let a = lay.block_field_start(j as int);
                    let b = lay.block_field_start(j + 1);
                    lemma_field_written(r0, a, b, sblock_count as u64);
                    lemma_field_other(r0, a, b, sblock_count as u64, 0, lay.superblock_bits as int);
                    lemma_field_other(r0, a, b, sblock_count as u64, b, lay.record_bits());
                    assert forall|t: int| 0 <= t < j + 1 implies #[trigger] field_value(
                        rec@,
                        lay.block_field_start(t),
                        lay.block_field_start(t + 1),
                    ) == block_count(s, lay, i as int, t) by {
                        if t < j {
                            lemma_field_starts(lay, t + 1, j as int);
                            lemma_field_starts(lay, t, t + 1);
                            lemma_field_other(
                                r0,
                                a,
                                b,
                                sblock_count as u64,
                                lay.block_field_start(t),
                                lay.block_field_start(t + 1),
                            );
                        }
                    }
                }
                let block_start = base + j * lay.block_size;
                if block_start < n {
                    let block_end = if block_start + lay.block_size < n {
                        block_start + lay.block_size
                    } else {
                        n
                    };
                    let c = bits.count_ones(block_start, block_end);
                    proof {
                        lemma_count_range_as_ranks(s, true, block_start as int, block_end as int);
                        lemma_count_range_le(s, true, block_start as int, block_end as int);
                        lemma_rank_mono(s, true, base as int, block_start as int);
                    }
                    sblock_count = sblock_count + c as u32;
                }
                proof {
                    let e = min_int(base + (j + 1) * lay.block_size, n as int);
                    lemma_rank_mono(s, true, base as int, e);
                    lemma_count_range_as_ranks(s, true, base as int, e);
                    lemma_count_range_le(s, true, base as int, e);
                }
                j = j + 1;
            }
            proof {
                let e = min_int(base + sz, n as int);
                assert(base + lay.blocks() * lay.block_size == base + sz);
                assert(e == min_int((i + 1) * sz, n as int)) by (nonlinear_arith)
                    requires
                        base == i * sz,
                        e == min_int(base + sz, n as int),
                ;
                lemma_count_range_as_ranks(s, true, base as int, e);
                lemma_count_range_le(s, true, 0, e);
            }
            superblocks.push(rec);
            total_count = total_count + sblock_count as usize;
            i = i + 1;
        }
        proof {
            assert(n_super * sz >= n);
            lemma_count_full(s, true);
            lemma_count_full(s, false);
            lemma_count_range_complement(s, 0, n as int);
        }
        self.count1 = total_count;
        self.count0 = n - total_count;
        self.superblocks = superblocks;
        self.megablocks = megablocks;
    }

    /// The longest bit sequence this directory shape can index.
    pub fn max_size() -> (r: usize)
        ensures
            r == Parameters::spec_layout().max_len(),
    {
        let lay = Parameters::layout();
        let cap = usize::MAX - lay.superblock_size;
        let sb = lay.superblock_bits as u64;
        proof {
            crate::params::lemma_blocks_fill(lay);
        }
        if sb < 64 {
            proof {
                vstd::bits::lemma_u64_pow2_no_overflow(sb as nat);
                vstd::bits::lemma_u64_shl_is_mul(1, sb);
            }
            let full = (1u64 << sb) - 1;
            if full <= cap as u64 {
                return full as usize;
            }
        } else {
            proof {
                vstd::arithmetic::power2::lemma2_to64_rest();
            }
        }
        cap
    }

    /// A vector over no bits, with an empty directory.
    pub fn new_empty() -> (r: Self)
        ensures
            r.well_formed(),
            r.bit_seq() == Seq::<bool>::empty(),
    {
        let lay = Parameters::layout();
        proof {
            reveal_strlit("");
        }
        let bits = BitVector::new_from_string("");
        let r = FastRASBVec {
            bits,
            superblocks: Vec::new(),
            megablocks: Vec::new(),
            count0: 0,
            count1: 0,
        };
        proof {
            crate::params::lemma_blocks_fill(lay);
            assert(r.bits@ =~= Seq::<bool>::empty());
        }
        r
    }

    /// Takes `bits` and builds its directory, replacing what was there.
    pub fn initialize_for(&mut self, bits: BitVector)
        requires
            bits.wf(),
            bits@.len() <= Parameters::spec_layout().max_len(),
        ensures
            final(self).well_formed(),
            final(self).bit_seq() == bits@,
    {
        self.init_rank(&bits);
        self.bits = bits;
    }

    /// Position of the `i`-th occurrence of `value`: megablock binary
    /// search, superblock walk, block walk, then a scan of the bits.
    fn generic_select(&self, i: usize, value: u32) -> (r: Option<usize>)
        requires
            self.wf(),
            value <= 1,
        ensures
            select_result(self.bits@, value == 1, i as int, r),
    {
        let ghost s = self.bits@;
        let ghost v = value == 1;
        let ghost n = s.len() as int;
        proof {
            lemma_count_full(s, true);
            lemma_count_full(s, false);
        }
        if i == 0 {
            return None;
        }
        let total = if value == 0 {
            self.count0
        } else {
            self.count1
        };
        if i > total {
            return None;
        }
        let lay = Parameters::layout();
        let mf = lay.megablock_factor;
        let sz = lay.superblock_size;
        let n_super = self.superblocks.len();
        proof {
            lemma_count_range_le(s, v, 0, n);
            self.bits.lemma_len_fits();
            assert(n_super >= 1) by (nonlinear_arith)
                requires
                    n_super * sz >= n,
                    n >= 1,
            ;
            assert(self.megablocks.len() >= 1) by (nonlinear_arith)
                requires
                    self.megablocks.len() * mf >= n_super,
                    n_super >= 1,
            ;
        }
        // Step 1: binary search over the megablock sample.
        let mut mega_l: usize = 0;
        let mut mega_r = self.megablocks.len();
        proof {
            assert(s.subrange(0, 0) =~= Seq::<bool>::empty());
            assert(count_val(Seq::<bool>::empty(), v) == 0);
            assert(0 * mf * sz == 0) by (nonlinear_arith);
        }
        while mega_r - mega_l > 1
            invariant
                self.wf(),
                s == self.bits@,
                n == s.len(),
                v == (value == 1),
                lay == Parameters::spec_layout(),
                mf == lay.megablock_factor,
                sz == lay.superblock_size,
                n_super == self.superblocks.len(),
                n <= usize::MAX,
                value <= 1,
                mega_l < mega_r <= self.megablocks.len(),
                rank(s, v, mega_l * mf * sz) < i,
                mega_r < self.megablocks.len() ==> rank(s, v, mega_r * mf * sz) >= i,
            decreases mega_r - mega_l,
        {
            let mid = mega_l + (mega_r - mega_l) / 2;
            proof {
                Self::lemma_covered_start(self.megablocks.len() as int, mf as int, n_super as int, mid as int);
                Self::lemma_covered_start(n_super as int, sz as int, n, mid * mf);
                lemma_count_range_le(s, true, 0, mid * mf * sz);
                lemma_count_range_complement(s, 0, mid * mf * sz);
                assert(self.megablocks@[mid as int] == rank(s, true, mid * mf * sz));
            }
            let before = if value == 0 {
                mid * mf * sz - self.megablocks[mid]
            } else {
                self.megablocks[mid]
            };
            proof {
                if value == 0 {
                    assert(rank(s, false, mid * mf * sz) == count_range(s, false, 0, mid * mf * sz));
                    assert(before == rank(s, v, mid * mf * sz));
                } else {
                    assert(before == rank(s, v, mid * mf * sz));
                }
            }
            if before >= i {
                mega_r = mid;
            } else {
                mega_l = mid;
            }
        }
        proof {
            Self::lemma_covered_start(self.megablocks.len() as int, mf as int, n_super as int, mega_l as int);
        }
        let lsblock = mega_l * mf;
        proof {
            assert((mega_l + 1) * mf == mega_l * mf + mf) by (nonlinear_arith);
            if mega_r < self.megablocks.len() {
                Self::lemma_covered_start(self.megablocks.len() as int, mf as int, n_super as int, mega_r as int);
                Self::lemma_covered_start(n_super as int, sz as int, n, mega_r * mf);
            } else {
                assert(n_super * sz >= n);
            }
        }
        let mut rsblock = if n_super - lsblock < mf {
            n_super
        } else {
            lsblock + mf
        };
        // Step 2: walk left over the superblocks of that megablock.
        while self.value_count_before_sblock(rsblock - 1, value) >= i
            invariant
                self.wf(),
                s == self.bits@,
                n == s.len(),
                v == (value == 1),
                value <= 1,
                lay == Parameters::spec_layout(),
                sz == lay.superblock_size,
                n_super == self.superblocks.len(),
                lsblock < rsblock <= n_super,
                rank(s, v, lsblock * sz) < i,
                rank(s, v, min_int(rsblock * sz, n)) >= i,
            decreases rsblock,
        {
            proof {
                Self::lemma_covered_start(n_super as int, sz as int, n, rsblock - 1);
            }
            rsblock = rsblock - 1;
        }
        let start_sblock = rsblock - 1;
        proof {
            Self::lemma_covered_start(n_super as int, sz as int, n, start_sblock as int);
            assert(rsblock * sz == start_sblock * sz + sz) by (nonlinear_arith)
                requires
                    rsblock == start_sblock + 1,
            ;
        }
        let start = start_sblock * sz;
        let in_superblock = i - self.value_count_before_sblock(start_sblock, value);
        proof {
            let e = min_int(rsblock * sz, n);
            lemma_count_range_as_ranks(s, v, start as int, e);
            lemma_count_split(s, v, start as int, e, n);
            assert(s.subrange(start as int, start as int) =~= Seq::<bool>::empty());
        }
        // Step 3: walk the blocks of that superblock.
        let bps = Self::blocks_per_superblock();
        proof {
            crate::params::lemma_blocks_fill(lay);
        }
        let mut b: usize = 0;
        while b < bps - 1
            invariant
                self.wf(),
                s == self.bits@,
                n == s.len(),
                v == (value == 1),
                value <= 1,
                lay == Parameters::spec_layout(),
                sz == lay.superblock_size,
                bps == lay.blocks(),
                bps >= 1,
                start_sblock < self.superblocks.len(),
                start == start_sblock * sz,
                1 <= in_superblock <= count_range(s, v, start as int, n),
                b < bps,
                start + b * lay.block_size <= n,
                count_range(s, v, start as int, start + b * lay.block_size) < in_superblock,
            ensures
                b < bps,
                start + b * lay.block_size <= n,
                count_range(s, v, start as int, start + b * lay.block_size) < in_superblock,
            decreases bps - b,
        {
            let up_to_block = self.value_count_before_block(start_sblock, b + 1, value);
            if up_to_block >= in_superblock {
                break;
            }
            b = b + 1;
        }
        // Step 4: scan the bits from the start of that block.
        let ghost p = start + b * lay.block_size;
        proof {
            lemma_block_offsets(lay, b as int);
            lemma_count_range_le(s, v, start as int, p);
            lemma_count_split(s, v, 0, start as int, p);
            lemma_count_split(s, v, 0, p, n);
        }
        let block_start = start + b * lay.block_size;
        let found = self.bits.find_nth_x(
            block_start,
            in_superblock - self.value_count_before_block(start_sblock, b, value),
            value,
        );
        proof {
            if let Some(q) = found {
                lemma_count_split(s, v, 0, p, q as int);
            }
        }
        found
    }

    /// Bytes taken by the directory and the sample, or `usize::MAX` where
    /// that does not fit.
    pub fn get_memory_usage(&self) -> (r: usize)
        requires
            self.well_formed(),
        ensures
            r == if index_bytes(Parameters::spec_layout(), self.bit_seq().len() as int)
                <= usize::MAX {
                index_bytes(Parameters::spec_layout(), self.bit_seq().len() as int)
            } else {
                usize::MAX as int
            },
    {
        let lay = Parameters::layout();
        let ghost n = self.bits@.len() as int;
        let ghost sz = lay.superblock_size as int;
        let ghost mf = lay.megablock_factor as int;
        proof {
            Self::lemma_piece_count(n, sz);
            Self::lemma_covers_unique(self.superblocks.len() as int, ceil_div(n, sz), sz, n);
            let k = self.superblocks.len() as int;
            Self::lemma_piece_count(k, mf);
            Self::lemma_covers_unique(self.megablocks.len() as int, ceil_div(k, mf), mf, k);
            let a = self.megablocks.len() as int;
            let c = lay.cacheline_size as int;
            assert(a * 8 + k * c <= 0x1_0000_0000_0000_0000 * 8 + 0x1_0000_0000_0000_0000 * 4096)
                by (nonlinear_arith)
                requires
                    0 <= a <= 0x1_0000_0000_0000_0000,
                    0 <= k <= 0x1_0000_0000_0000_0000,
                    0 <= c <= 4096,
            ;
        }
        let total = (self.superblocks.len() as u128) * (lay.cacheline_size as u128)
            + (self.megablocks.len() as u128) * 8;
        if total > usize::MAX as u128 {
            usize::MAX
        } else {
            total as usize
        }
    }
}

impl<Parameters: RASBVecParameters> RankSelectVector for FastRASBVec<Parameters> {
    closed spec fn bit_seq(&self) -> Seq<bool> {
        self.bits@
    }

    closed spec fn well_formed(&self) -> bool {
        self.wf()
    }

    open spec fn max_len() -> nat {
        Parameters::spec_layout().max_len()
    }

    fn new(bits: BitVector) -> (r: Self) {
        let mut vec = Self::new_empty();
        vec.initialize_for(bits);
        vec
    }

    fn select1(&self, i: usize) -> (r: Option<usize>) {
        self.generic_select(i, 1)
    }

    fn select0(&self, i: usize) -> (r: Option<usize>) {
        self.generic_select(i, 0)
    }

    fn rank(&self, i: usize) -> (r: usize) {
        self.generic_rank(i, 1)
    }

    fn access(&self, i: usize) -> (r: u32) {
        self.bits.get_nth(i)
    }
}

} // verus!
