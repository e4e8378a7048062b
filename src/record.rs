//! A superblock record of the rank directory: one flat byte buffer, read as
//! little-endian bits, that holds a `before` counter followed by one counter
//! per block, each in a field of fixed bit width.
use core::marker::PhantomData;
use vstd::arithmetic::power2::{lemma_pow2_unfold, pow2};
use vstd::bits::lemma_u64_shr_is_div;
use vstd::prelude::*;

use crate::model::bit_value;
use crate::params::{RASBVecParameters, RankLayout};
use crate::word::{lemma_bit_lowest, lemma_bit_shr, word_bit};

verus! {

/// Bit `j` of byte `b`, counting from the least significant.
pub open spec fn byte_bit(b: u8, j: u8) -> bool {
    (b >> j) & 1u8 == 1u8
}

/// The bits of a byte buffer: byte `i / 8`, position `i % 8`.
pub open spec fn bytes_bits(data: Seq<u8>) -> Seq<bool> {
    Seq::new(data.len() * 8, |i: int| byte_bit(data[i / 8], (i % 8) as u8))
}

/// The number whose binary digits, least significant first, are `s`.
pub open spec fn bits_to_nat(s: Seq<bool>) -> nat
    decreases s.len(),
{
    if s.len() == 0 {
        0
    } else {
        bit_value(s[0]) + 2 * bits_to_nat(s.drop_first())
    }
}

/// The number held by the bits `[l, r)` of `s`.
pub open spec fn field_value(s: Seq<bool>, l: int, r: int) -> nat {
    bits_to_nat(s.subrange(l, r))
}

/// `s` with its bits `[l, r)` replaced by the low `r - l` bits of `v`.
pub open spec fn bits_written(s: Seq<bool>, l: int, r: int, v: u64) -> Seq<bool> {
    Seq::new(s.len(), |i: int| if l <= i < r { word_bit(v, (i - l) as u64) } else { s[i] })
}

/// No bit of `s` within `[l, r)` is set.
pub open spec fn range_clear(s: Seq<bool>, l: int, r: int) -> bool {
    forall|i: int| l <= i < r ==> !#[trigger] s[i]
}

/// A record of `lay` that starts clear, then gets `before` and the block
/// counters `blocks[0]`, `blocks[1]`, ... written in that order.
pub open spec fn record_filled(lay: RankLayout, before: u64, blocks: Seq<u64>) -> Seq<bool>
    decreases blocks.len(),
{
    if blocks.len() == 0 {
        bits_written(Seq::new(lay.record_bits() as nat, |i: int| false), 0, lay.superblock_bits as int, before)
    } else {
        let k = blocks.len() - 1;
        bits_written(
            record_filled(lay, before, blocks.drop_last()),
            lay.block_field_start(k),
            lay.block_field_start(k + 1),
            blocks[k],
        )
    }
}

proof fn lemma_byte_pos(i: int, t: int)
    requires
        0 <= i,
        0 <= t < 8,
    ensures
        (8 * i + t) / 8 == i,
        (8 * i + t) % 8 == t,
{
    vstd::arithmetic::div_mod::lemma_fundamental_div_mod_converse(8 * i + t, 8, i, t);
}

proof fn lemma_byte_shr_widen(b: u8, sl: u8, j: u64)
    by (bit_vector)
    requires
        sl < 8,
        j < 64,
    ensures
        word_bit((b >> sl) as u64, j) == (j + sl < 8 && byte_bit(b, (j + sl) as u8)),
{
}

proof fn lemma_or_shifted_byte(res: u64, b: u8, s: u64, j: u64)
    by (bit_vector)
    requires
        s < 64,
        j < 64,
    ensures
        word_bit(res | ((b as u64) << s), j) == (word_bit(res, j) || (s <= j && j < s + 8
            && byte_bit(b, (j - s) as u8))),
{
}

proof fn lemma_byte_mask(b: u8, x: u8, j: u8)
    by (bit_vector)
    requires
        0 < x <= 8,
        j < 8,
    ensures
        byte_bit(b & (0xffu8 >> ((8 - x) as u8)), j) == (j < x && byte_bit(b, j)),
{
}

proof fn lemma_byte_or_shl(b: u8, v: u64, sl: u64, j: u8)
    by (bit_vector)
    requires
        sl < 8,
        j < 8,
    ensures
        byte_bit(b | ((v << sl) as u8), j) == (byte_bit(b, j) || (j as u64 >= sl && word_bit(
            v,
            (j as u64 - sl) as u64,
        ))),
{
}

proof fn lemma_low_byte(b: u8, v: u64, j: u8)
    by (bit_vector)
    requires
        j < 8,
    ensures
        byte_bit((v & 0xffu64) as u8, j) == word_bit(v, j as u64),
        byte_bit(b | (v as u8), j) == (byte_bit(b, j) || word_bit(v, j as u64)),
{
}

proof fn lemma_byte_zero(j: u8)
    by (bit_vector)
    ensures
        !byte_bit(0u8, j),
{
}

/// A word with no set bit is zero.
proof fn lemma_clear_word_zero(x: u64)
    requires
        forall|j: u64| j < 64 ==> !#[trigger] word_bit(x, j),
    ensures
        x == 0,
    decreases x,
{
    if x != 0 {
        let y = x >> 1u64;
        assert(x != 0 ==> (x >> 1u64) < x) by (bit_vector);
        assert forall|j: u64| j < 64 implies !#[trigger] word_bit(y, j) by {
            lemma_bit_shr(x, 1, j);
        }
        lemma_clear_word_zero(y);
        lemma_bit_lowest(x);
        assert(x == (x & 1u64) + 2 * (x >> 1u64)) by (bit_vector);
    }
}

/// A word whose bits are `s` followed by clear bits has the value `s` spells.
proof fn lemma_word_value(x: u64, s: Seq<bool>)
    requires
        s.len() <= 64,
        forall|j: u64| j < 64 ==> #[trigger] word_bit(x, j) == (j < s.len() && s[j as int]),
    ensures
        x as nat == bits_to_nat(s),
    decreases s.len(),
{
    if s.len() == 0 {
        lemma_clear_word_zero(x);
    } else {
        let y = x >> 1u64;
        let t = s.drop_first();
        assert forall|j: u64| j < 64 implies #[trigger] word_bit(y, j) == (j < t.len() && t[j as int]) by {
            lemma_bit_shr(x, 1, j);
            if j + 1 < 64 {
                assert(word_bit(x, (j + 1) as u64) == ((j + 1) < s.len() && s[j + 1]));
            }
        }
        lemma_word_value(y, t);
        lemma_bit_lowest(x);
        assert(word_bit(x, 0) == s[0]);
        assert(x == (x & 1u64) + 2 * (x >> 1u64)) by (bit_vector);
    }
}

/// A value below `2^w` has no set bit at `w` or above.
proof fn lemma_fits_high_clear(v: u64, w: nat, t: u64)
    requires
        v < pow2(w),
        w <= t < 64,
    ensures
        !word_bit(v, t),
{
    let wu = w as u64;
    lemma_u64_shr_is_div(v, wu);
    vstd::arithmetic::div_mod::lemma_basic_div(v as int, pow2(w) as int);
    assert(v >> wu == 0u64 && wu <= t && t < 64 ==> !word_bit(v, t)) by (bit_vector);
}

/// A bit string of length `n` spells a number below `2^n`.
pub proof fn lemma_bits_to_nat_bound(s: Seq<bool>)
    ensures
        bits_to_nat(s) < pow2(s.len()),
    decreases s.len(),
{
    if s.len() == 0 {
        vstd::arithmetic::power2::lemma2_to64();
    } else {
        lemma_bits_to_nat_bound(s.drop_first());
        lemma_pow2_unfold(s.len());
    }
}

/// Reading back a field just written gives the value written.
pub proof fn lemma_field_written(s: Seq<bool>, l: int, r: int, v: u64)
    requires
        0 <= l <= r <= s.len(),
        r - l <= 64,
        v < pow2((r - l) as nat),
    ensures
        field_value(bits_written(s, l, r, v), l, r) == v,
{
    let t = bits_written(s, l, r, v).subrange(l, r);
    assert forall|j: u64| j < 64 implies #[trigger] word_bit(v, j) == (j < t.len() && t[j as int]) by {
        if j >= r - l {
            lemma_fits_high_clear(v, (r - l) as nat, j);
        }
    }
    lemma_word_value(v, t);
}

/// Writing a field leaves every field apart from it as it was.
pub proof fn lemma_field_other(s: Seq<bool>, l: int, r: int, v: u64, a: int, b: int)
    requires
        0 <= a <= b <= s.len(),
        b <= l || r <= a,
    ensures
        field_value(bits_written(s, l, r, v), a, b) == field_value(s, a, b),
        range_clear(s, a, b) ==> range_clear(bits_written(s, l, r, v), a, b),
{
    assert(bits_written(s, l, r, v).subrange(a, b) =~= s.subrange(a, b));
}

/// A record filled with a `before` counter that fits its field and block
/// counters that fit theirs reads back every value that was written.
pub proof fn lemma_record_round_trip(lay: RankLayout, before: u64, blocks: Seq<u64>)
    requires
        lay.wf(),
        before < pow2(lay.superblock_bits as nat),
        lay.block_field_start(blocks.len() as int) <= lay.record_bits(),
        forall|j: int| 0 <= j < blocks.len() ==> #[trigger] blocks[j] < pow2(lay.block_bits as nat),
    ensures
        record_filled(lay, before, blocks).len() == lay.record_bits(),
        field_value(record_filled(lay, before, blocks), 0, lay.superblock_bits as int) == before,
        forall|j: int|
            0 <= j < blocks.len() ==> field_value(
                record_filled(lay, before, blocks),
                lay.block_field_start(j),
                lay.block_field_start(j + 1),
            ) == #[trigger] blocks[j],
    decreases blocks.len(),
{
    let sb = lay.superblock_bits as int;
    assert forall|j: int| 0 <= j <= blocks.len() implies #[trigger] lay.block_field_start(j) <= lay.block_field_start(blocks.len() as int)
        && lay.block_field_start(j + 1) == lay.block_field_start(j) + lay.block_bits && sb <= lay.block_field_start(j) by {
        assert(j * lay.block_bits <= blocks.len() * lay.block_bits) by (nonlinear_arith)
            requires
                0 <= j <= blocks.len(),
                lay.block_bits > 0,
        ;
        assert((j + 1) * lay.block_bits == j * lay.block_bits + lay.block_bits) by (nonlinear_arith);
        assert(0 <= j * lay.block_bits) by (nonlinear_arith)
            requires
                0 <= j,
                lay.block_bits > 0,
        ;
    }
    let clear = Seq::new(lay.record_bits() as nat, |i: int| false);
    if blocks.len() == 0 {
        lemma_field_written(clear, 0, sb, before);
    } else {
        let k = blocks.len() - 1;
        let prev = blocks.drop_last();
        lemma_record_round_trip(lay, before, prev);
        let s0 = record_filled(lay, before, prev);
        let a = lay.block_field_start(k);
        let b = lay.block_field_start(k + 1);
        lemma_field_written(s0, a, b, blocks[k]);
        lemma_field_other(s0, a, b, blocks[k], 0, sb);
        assert forall|j: int| 0 <= j < blocks.len() implies field_value(
            record_filled(lay, before, blocks),
            lay.block_field_start(j),
            lay.block_field_start(j + 1),
        ) == #[trigger] blocks[j] by {
            if j < k {
                assert(lay.block_field_start(j + 1) <= a);
                lemma_field_other(
                    s0,
                    a,
                    b,
                    blocks[k],
                    lay.block_field_start(j),
                    lay.block_field_start(j + 1),
                );
                assert(prev[j] == blocks[j]);
            }
        }
    }
}

/// One superblock record: `before` in the first `superblock_bits` bits, then
/// block counter `j` in the `block_bits` bits from `superblock_bits + j *
/// block_bits` on.
pub struct RankSuperblock<Parameters: RASBVecParameters> {
    data: Vec<u8>,
    pd: PhantomData<Parameters>,
}

impl<Parameters: RASBVecParameters> View for RankSuperblock<Parameters> {
    type V = Seq<bool>;

    closed spec fn view(&self) -> Seq<bool> {
        bytes_bits(self.data@)
    }
}

impl<Parameters: RASBVecParameters> RankSuperblock<Parameters> {
    /// The buffer is one record long.
    pub closed spec fn wf(&self) -> bool {
        self.data.len() == Parameters::spec_layout().cacheline_size
    }

    pub proof fn lemma_len(&self)
        requires
            self.wf(),
        ensures
            self@.len() == Parameters::spec_layout().record_bits(),
    {
    }

    /// A clear record.
    pub fn new() -> (r: Self)
        ensures
            r.wf(),
            r@ == Seq::new(Parameters::spec_layout().record_bits() as nat, |i: int| false),
    {
        let lay = Parameters::layout();
        let data: Vec<u8> = vec![0u8; lay.cacheline_size];
        let r = RankSuperblock { data, pd: PhantomData };
        assert forall|i: int| 0 <= i < r@.len() implies !r@[i] by {
            lemma_byte_zero((i % 8) as u8);
        }
        assert(r@ =~= Seq::new(lay.record_bits() as nat, |i: int| false));
        r
    }

    /// The byte whose lowest `x` bits are set, for `x <= 8`.
    fn mask_n_bits(x: usize) -> (r: u8)
        requires
            x <= 8,
        ensures
            x == 0 ==> r == 0,
            x > 0 ==> r == 0xffu8 >> ((8 - x) as u8),
            x == 8 ==> r == 0xffu8,
    {
        if x == 0 {
            return 0;
        }
        assert(0xffu8 >> 0u8 == 0xffu8) by (bit_vector);
        u8::MAX >> ((8 - x) as u8)
    }

    /// The number held in the bits `[l, r)`.
    fn extract_bits(&self, l: usize, r: usize) -> (res: u64)
        requires
            l <= r <= self@.len(),
            r - l <= 64,
        ensures
            res as nat == field_value(self@, l as int, r as int),
    {
        let ghost s = self@;
        if l == r {
            proof {
                assert forall|j: u64| j < 64 implies !#[trigger] word_bit(0u64, j) by {
                    crate::word::lemma_bit_zero(j);
                }
                lemma_word_value(0u64, s.subrange(l as int, r as int));
            }
            return 0;
        }
        let lb = l / 8;
        let shiftl = l % 8;
        let rb = r / 8;
        let shiftr = r % 8;
        if lb == rb {
            let m = Self::mask_n_bits(shiftr);
            let res = ((self.data[lb] & m) >> (shiftl as u8)) as u64;
            proof {
                assert forall|j: u64| j < 64 implies #[trigger] word_bit(res, j) == (j < r - l
                    && s[l + j]) by {
                    lemma_byte_shr_widen(self.data[lb as int] & m, shiftl as u8, j);
                    if j + shiftl < 8 {
                        lemma_byte_mask(self.data[lb as int], shiftr as u8, (j + shiftl) as u8);
                        lemma_byte_pos(lb as int, j + shiftl);
                    }
                }
                lemma_word_value(res, s.subrange(l as int, r as int));
            }
            return res;
        }
        let mut result: u64 = (self.data[lb] >> (shiftl as u8)) as u64;
        let mut shift: usize = 8 - shiftl;
        let mut i = lb + 1;
        proof {
            assert forall|j: u64| j < 64 implies #[trigger] word_bit(result, j) == (j < shift
                && s[l + j]) by {
                lemma_byte_shr_widen(self.data[lb as int], shiftl as u8, j);
                if j + shiftl < 8 {
                    lemma_byte_pos(lb as int, j + shiftl);
                }
            }
        }
        while i < rb
            invariant
                s == self@,
                s.len() == self.data.len() * 8,
                l < r <= s.len(),
                r - l <= 64,
                lb < i <= rb,
                rb == r / 8,
                shift == 8 * i - l,
                forall|j: u64| j < 64 ==> #[trigger] word_bit(result, j) == (j < shift && s[l + j]),
            decreases rb - i,
        {
            let ghost old_result = result;
            result = result | ((self.data[i] as u64) << (shift as u64));
            proof {
                assert forall|j: u64| j < 64 implies #[trigger] word_bit(result, j) == (j < shift + 8
                    && s[l + j]) by {
                    lemma_or_shifted_byte(old_result, self.data[i as int], shift as u64, j);
                    if shift <= j < shift + 8 {
                        lemma_byte_pos(i as int, j - shift);
                    }
                }
            }
            shift = shift + 8;
            i = i + 1;
        }
        if shiftr > 0 {
            let m = Self::mask_n_bits(shiftr);
            let ghost old_result = result;
            let byte = self.data[rb] & m;
            result = result | ((byte as u64) << (shift as u64));
            proof {
                assert forall|j: u64| j < 64 implies #[trigger] word_bit(result, j) == (j < r - l
                    && s[l + j]) by {
                    lemma_or_shifted_byte(old_result, byte, shift as u64, j);
                    if shift <= j < shift + 8 {
                        lemma_byte_mask(self.data[rb as int], shiftr as u8, (j - shift) as u8);
                        lemma_byte_pos(rb as int, j - shift);
                    }
                }
            }
        }
        proof {
            lemma_word_value(result, s.subrange(l as int, r as int));
        }
        result
    }

    /// Writes the low `r - l` bits of `value` into the clear bits `[l, r)`.
    fn write_bits(&mut self, l: usize, r: usize, value: u64)
        requires
            l <= r <= old(self)@.len(),
            r - l <= 64,
            value < pow2((r - l) as nat),
            range_clear(old(self)@, l as int, r as int),
        ensures
            final(self)@ == bits_written(old(self)@, l as int, r as int, value),
            final(self).data.len() == old(self).data.len(),
    {
        let ghost s0 = self@;
        if l == r {
            assert(self@ =~= bits_written(s0, l as int, r as int, value));
            return;
        }
        let lb = l / 8;
        let shiftl = l % 8;
        let rb = r / 8;
        let shiftr = r % 8;
        let ghost d0 = self.data@;
        proof {
            vstd::arithmetic::div_mod::lemma_fundamental_div_mod(l as int, 8);
            vstd::arithmetic::div_mod::lemma_fundamental_div_mod(r as int, 8);
        }
        let first = self.data[lb] | #[verifier::truncate] ((value << (shiftl as u64)) as u8);
        self.data.set(lb, first);
        proof {
            assert forall|p: int| 0 <= p < s0.len() && p < 8 * lb + 8 implies #[trigger] self@[p]
                == if l <= p < r {
                word_bit(value, (p - l) as u64)
            } else {
                s0[p]
            } by {
                if p >= 8 * lb {
                    let t = p - 8 * lb;
                    lemma_byte_pos(lb as int, t);
                    lemma_byte_or_shl(d0[lb as int], value, shiftl as u64, t as u8);
                    assert(self.data@[lb as int] == first);
                    assert(self@[p] == byte_bit(first, t as u8));
                    assert(s0[p] == byte_bit(d0[lb as int], t as u8));
                    assert(l == 8 * lb + shiftl);
                    if t >= shiftl && p >= r {
                        lemma_fits_high_clear(value, (r - l) as nat, (p - l) as u64);
                    }
                } else {
                    assert(self@[p] == bytes_bits(d0)[p]);
                }
            }
        }
        if lb == rb {
            assert(self@ =~= bits_written(s0, l as int, r as int, value));
            return;
        }
        let mut v = value >> ((8 - shiftl) as u64);
        let mut i = lb + 1;
        proof {
            assert forall|j: u64| j < 64 implies #[trigger] word_bit(v, j) == (j + (8 * i - l) < 64
                && word_bit(value, (j + (8 * i - l)) as u64)) by {
                lemma_bit_shr(value, (8 - shiftl) as u64, j);
            }
        }
        while i < rb
            invariant
                s0.len() == self@.len(),
                s0.len() == self.data.len() * 8,
                l < r <= s0.len(),
                r - l <= 64,
                value < pow2((r - l) as nat),
                range_clear(s0, l as int, r as int),
                lb < i <= rb,
                rb == r / 8,
                lb == l / 8,
                forall|j: u64|
                    j < 64 ==> #[trigger] word_bit(v, j) == (j + (8 * i - l) < 64 && word_bit(
                        value,
                        (j + (8 * i - l)) as u64,
                    )),
                forall|p: int|
                    0 <= p < s0.len() ==> #[trigger] self@[p] == if l <= p < 8 * i {
                        word_bit(value, (p - l) as u64)
                    } else {
                        s0[p]
                    },
            decreases rb - i,
        {
            let ghost di = self.data@;
            let ghost vi = v;
            let byte = #[verifier::truncate] ((v & (Self::mask_n_bits(8) as u64)) as u8);
            self.data.set(i, byte);
            proof {
                assert forall|p: int| 0 <= p < s0.len() implies #[trigger] self@[p] == if l <= p < 8
                    * i + 8 {
                    word_bit(value, (p - l) as u64)
                } else {
                    s0[p]
                } by {
                    if 8 * i <= p < 8 * i + 8 {
                        let t = p - 8 * i;
                        lemma_byte_pos(i as int, t);
                        lemma_low_byte(0u8, vi, t as u8);
                    } else {
                        assert(self@[p] == bytes_bits(di)[p]);
                    }
                }
            }
            v = v >> 8u64;
            proof {
                assert forall|j: u64| j < 64 implies #[trigger] word_bit(v, j) == (j + (8 * (i + 1)
                    - l) < 64 && word_bit(value, (j + (8 * (i + 1) - l)) as u64)) by {
                    lemma_bit_shr(vi, 8, j);
                }
            }
            i = i + 1;
        }
        if shiftr > 0 {
            let ghost dr = self.data@;
            let last = self.data[rb] | #[verifier::truncate] (v as u8);
            self.data.set(rb, last);
            proof {
                assert forall|p: int| 0 <= p < s0.len() implies #[trigger] self@[p] == if l <= p < r {
                    word_bit(value, (p - l) as u64)
                } else {
                    s0[p]
                } by {
                    if 8 * rb <= p < 8 * rb + 8 {
                        let t = p - 8 * rb;
                        lemma_byte_pos(rb as int, t);
                        lemma_low_byte(dr[rb as int], v, t as u8);
                        assert(self@[p] == byte_bit(last, t as u8));
                        assert(bytes_bits(dr)[p] == byte_bit(dr[rb as int], t as u8));
                        assert(bytes_bits(dr)[p] == s0[p]);
                        assert(word_bit(v, t as u64) == (t + (8 * rb - l) < 64 && word_bit(
                            value,
                            (t + (8 * rb - l)) as u64,
                        )));
                        if p >= r && p - l < 64 {
                            lemma_fits_high_clear(value, (r - l) as nat, (p - l) as u64);
                        }
                    } else {
                        assert(self@[p] == bytes_bits(dr)[p]);
                    }
                }
            }
        }
        assert(self@ =~= bits_written(s0, l as int, r as int, value));
    }

    /// The `before` counter.
    pub fn superblock(&self) -> (r: usize)
        requires
            self.wf(),
        ensures
            field_value(self@, 0, Parameters::spec_layout().superblock_bits as int) <= usize::MAX
                ==> r as nat == field_value(self@, 0, Parameters::spec_layout().superblock_bits as int),
    {
        let lay = Parameters::layout();
        #[verifier::truncate]
        (self.extract_bits(0, lay.superblock_bits) as usize)
    }

    /// Writes the `before` counter into its clear field.
    pub fn set_super(&mut self, value: usize)
        requires
            old(self).wf(),
            value < pow2(Parameters::spec_layout().superblock_bits as nat),
            range_clear(old(self)@, 0, Parameters::spec_layout().superblock_bits as int),
        ensures
            final(self).wf(),
            final(self)@ == bits_written(
                old(self)@,
                0,
                Parameters::spec_layout().superblock_bits as int,
                value as u64,
            ),
    {
        let lay = Parameters::layout();
        self.write_bits(0, lay.superblock_bits, value as u64);
    }

    /// Block counter `i`.
    pub fn block(&self, i: usize) -> (r: u32)
        requires
            self.wf(),
            Parameters::spec_layout().block_field_start(i + 1) <= Parameters::spec_layout().record_bits(),
        ensures
            r as nat == field_value(
                self@,
                Parameters::spec_layout().block_field_start(i as int),
                Parameters::spec_layout().block_field_start(i + 1),
            ),
    {
        let lay = Parameters::layout();
        proof {
            assert(lay.block_field_start(i + 1) == lay.block_field_start(i as int) + lay.block_bits)
                by (nonlinear_arith);
        }
        let start = lay.superblock_bits + i * lay.block_bits;
        let v = self.extract_bits(start, start + lay.block_bits);
        proof {
            lemma_bits_to_nat_bound(self@.subrange(start as int, start + lay.block_bits));
            if lay.block_bits < 32 {
                vstd::arithmetic::power2::lemma_pow2_strictly_increases(lay.block_bits as nat, 32);
            }
            vstd::arithmetic::power2::lemma2_to64();
        }
        v as u32
    }

    /// Writes block counter `i` into its clear field.
    pub fn set_block(&mut self, i: usize, value: u32)
        requires
            old(self).wf(),
            Parameters::spec_layout().block_field_start(i + 1) <= Parameters::spec_layout().record_bits(),
            value < pow2(Parameters::spec_layout().block_bits as nat),
            range_clear(
                old(self)@,
                Parameters::spec_layout().block_field_start(i as int),
                Parameters::spec_layout().block_field_start(i + 1),
            ),
        ensures
            final(self).wf(),
            final(self)@ == bits_written(
                old(self)@,
                Parameters::spec_layout().block_field_start(i as int),
                Parameters::spec_layout().block_field_start(i + 1),
                value as u64,
            ),
    {
        let lay = Parameters::layout();
        proof {
            assert(lay.block_field_start(i + 1) == lay.block_field_start(i as int) + lay.block_bits)
                by (nonlinear_arith);
        }
        let start = lay.superblock_bits + i * lay.block_bits;
        self.write_bits(start, start + lay.block_bits, value as u64);
    }
}

} // verus!
