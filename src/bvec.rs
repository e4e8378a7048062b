//! The packed bit store, with range counts and "find the k-th bit of a value"
//! search, and the `RankSelectVector` interface that every bit vector of this
//! crate offers.
use vstd::prelude::*;
use vstd::string::StringSliceAdditionalSpecFns;

use crate::model::{
    bit_value, count_range, is_nth_from, is_select, lemma_count_match,
    lemma_count_range_le, lemma_count_single, lemma_count_split,
    lemma_count_full, rank, select_result,
};
use crate::word::{
    lemma_bit_lowest, lemma_bit_not, lemma_bit_set, lemma_bit_shr, lemma_bit_zero,
    lemma_masked_count, low_mask, popcount, word_bit, word_bits,
    word_count_ones,
};

verus! {

/// Number of bits held by one storage word.
pub const BIT_CELL_SIZE: usize = 64;

/// The byte of the character `'1'`.
pub const ASCII_ONE: u8 = 49;

/// Bit `i` of a packed word array: word `i / 64`, position `i % 64`.
pub open spec fn packed_bit(words: Seq<u64>, i: int) -> bool {
    word_bit(words[i / 64], (i % 64) as u64)
}

/// Every bit of a packed word array, padding included.
pub open spec fn packed_bits(words: Seq<u64>) -> Seq<bool> {
    Seq::new(words.len() * 64, |i: int| packed_bit(words, i))
}

/// The bits that a text of `'0'`/`'1'` characters spells: a `'1'` is a set bit.
pub open spec fn bits_of_text(text: Seq<u8>) -> Seq<bool> {
    Seq::new(text.len(), |i: int| text[i] == ASCII_ONE)
}

/// An immutable sequence of bits, packed 64 to a word, little-endian within
/// each word.
pub struct BitVector {
    bits: Vec<u64>,
    size: usize,
}

impl View for BitVector {
    type V = Seq<bool>;

    closed spec fn view(&self) -> Seq<bool> {
        Seq::new(self.size as nat, |i: int| packed_bit(self.bits@, i))
    }
}

/// Word `c` covers the positions `[64 c, 64 c + 64)` of the packed bits.
proof fn lemma_word_in_packed(words: Seq<u64>, c: int, v: bool, a: int, b: int)
    requires
        0 <= c < words.len(),
        0 <= a <= b <= 64,
    ensures
        count_range(word_bits(words[c]), v, a, b) == count_range(
            packed_bits(words),
            v,
            64 * c + a,
            64 * c + b,
        ),
        forall|j: int|
            0 <= j < 64 ==> #[trigger] word_bits(words[c])[j] == packed_bits(words)[64 * c + j],
{
    assert forall|j: int| 0 <= j < 64 implies #[trigger] word_bits(words[c])[j] == packed_bits(
        words,
    )[64 * c + j] by {
        vstd::arithmetic::div_mod::lemma_fundamental_div_mod_converse(64 * c + j, 64, c, j);
    }
    assert(word_bits(words[c]).subrange(a, b) =~= packed_bits(words).subrange(
        64 * c + a,
        64 * c + b,
    ));
}

impl BitVector {
    /// The storage holds exactly the words the bits need, and the bits past
    /// the end are clear.
    pub closed spec fn wf(&self) -> bool {
        &&& self.size <= self.bits.len() * 64 < self.size + 64
        &&& forall|i: int|
            self.size <= i < self.bits.len() * 64 ==> !#[trigger] packed_bit(self.bits@, i)
    }

    proof fn lemma_view_is_prefix(&self)
        requires
            self.wf(),
        ensures
            self@ =~= packed_bits(self.bits@).subrange(0, self.size as int),
            forall|a: int, b: int, v: bool|
                0 <= a <= b <= self.size ==> #[trigger] count_range(self@, v, a, b)
                    == count_range(packed_bits(self.bits@), v, a, b),
    {
        assert forall|a: int, b: int, v: bool| 0 <= a <= b <= self.size implies #[trigger] count_range(
            self@,
            v,
            a,
            b,
        ) == count_range(packed_bits(self.bits@), v, a, b) by {
            assert(self@.subrange(a, b) =~= packed_bits(self.bits@).subrange(a, b));
        }
    }

    pub proof fn lemma_len_fits(&self)
        ensures
            self@.len() <= usize::MAX,
    {
    }

    pub fn size(&self) -> (r: usize)
        ensures
            r == self@.len(),
    {
        self.size
    }

    /// Reads a text of `'0'`/`'1'` characters; any byte other than `'1'`
    /// stands for a clear bit.
    pub fn new_from_string(bits: &str) -> (r: Self)
        ensures
            r.wf(),
            r@ == bits_of_text(bits.spec_bytes()),
    {
        let bytes = bits.as_bytes();
        let len = bytes.len();
        let n_cells = len / BIT_CELL_SIZE + if len % BIT_CELL_SIZE == 0 {
            0
        } else {
            1
        };
        let mut v: Vec<u64> = vec![0u64; n_cells];
        proof {
            assert forall|j: int| 0 <= j < v.len() * 64 implies !#[trigger] packed_bit(v@, j) by {
                lemma_bit_zero((j % 64) as u64);
            }
        }
        let mut i: usize = 0;
        while i < len
            invariant
                bytes@ == bits.spec_bytes(),
                len == bytes@.len(),
                v.len() == n_cells,
                len <= n_cells * 64 < len + 64,
                i <= len,
                forall|j: int|
                    0 <= j < v.len() * 64 ==> #[trigger] packed_bit(v@, j) == (j < i && bytes@[j]
                        == ASCII_ONE),
            decreases len - i,
        {
            if bytes[i] == ASCII_ONE {
                let c = i / BIT_CELL_SIZE;
                let o = (i % BIT_CELL_SIZE) as u64;
                let ghost old_v = v@;
                v.set(c, v[c] | (1u64 << o));
                proof {
                    assert forall|j: int| 0 <= j < v.len() * 64 implies #[trigger] packed_bit(v@, j)
                        == (j < i + 1 && bytes@[j] == ASCII_ONE) by {
                        if j / 64 == c {
                            lemma_bit_set(old_v[c as int], o, (j % 64) as u64);
                            assert(packed_bit(old_v, j) == (j < i && bytes@[j] == ASCII_ONE));
                        } else {
                            assert(packed_bit(old_v, j) == (j < i && bytes@[j] == ASCII_ONE));
                        }
                    }
                }
            }
            i += 1;
        }
        let r = BitVector { bits: v, size: len };
        assert(r@ =~= bits_of_text(bits.spec_bytes()));
        r
    }

    /// The bit at position `i`, as 0 or 1.
    pub fn get_nth(&self, i: usize) -> (r: u32)
        requires
            self.wf(),
            i < self@.len(),
        ensures
            r as nat == bit_value(self@[i as int]),
    {
        let w = self.bits[i / BIT_CELL_SIZE] >> ((i % BIT_CELL_SIZE) as u64);
        proof {
            lemma_bit_lowest(w);
            assert(w >> 0u64 == w) by (bit_vector);
        }
        (w & 1) as u32
    }

    /// Set bits of word `b` within its positions `[l, r)`.
    fn count_ones_bit_cell(&self, b: usize, l: usize, r: usize) -> (res: usize)
        requires
            b < self.bits.len(),
            l <= r <= 64,
            l < 64,
        ensures
            res == count_range(word_bits(self.bits@[b as int]), true, l as int, r as int),
            res <= r - l,
    {
        let mut v = self.bits[b];
        if r < BIT_CELL_SIZE {
            proof {
                lemma_masked_count(v, l as u64, r as u64);
                crate::word::lemma_bit_low_mask(v, r as u64, 0);
            }
            v = v & ((1u64 << (r as u64)) - 1);
        } else {
            proof {
                lemma_masked_count(v, l as u64, r as u64);
            }
        }
        v = v >> (l as u64);
        proof {
            lemma_count_range_le(word_bits(self.bits@[b as int]), true, l as int, r as int);
        }
        word_count_ones(v) as usize
    }

    /// Occurrences of `x` in word `b` within its positions `[l, r)`.
    fn count_x_in_bit_cell(&self, b: usize, l: usize, r: usize, x: u32) -> (res: usize)
        requires
            b < self.bits.len(),
            l <= r <= 64,
            l < 64,
            x <= 1,
        ensures
            res == count_range(word_bits(self.bits@[b as int]), x == 1, l as int, r as int),
    {
        if x == 1 {
            self.count_ones_bit_cell(b, l, r)
        } else {
            proof {
                crate::model::lemma_count_range_complement(
                    word_bits(self.bits@[b as int]),
                    l as int,
                    r as int,
                );
            }
            (r - l) - self.count_ones_bit_cell(b, l, r)
        }
    }

    /// Number of set bits among the positions `[l, r)`.
    pub fn count_ones(&self, l: usize, r: usize) -> (res: usize)
        requires
            self.wf(),
            l <= r <= self@.len(),
        ensures
            res == count_range(self@, true, l as int, r as int),
    {
        proof {
            self.lemma_view_is_prefix();
        }
        let ghost pb = packed_bits(self.bits@);
        if l == r {
            return 0;
        }
        let s_bit_cell = l / BIT_CELL_SIZE;
        let s_offset = l % BIT_CELL_SIZE;
        let e_bit_cell = r / BIT_CELL_SIZE;
        let e_offset = r % BIT_CELL_SIZE;
        if s_bit_cell == e_bit_cell {
            proof {
                lemma_word_in_packed(self.bits@, s_bit_cell as int, true, s_offset as int, e_offset as int);
            }
            return self.count_ones_bit_cell(s_bit_cell, s_offset, e_offset);
        }
        let mut count: usize = 0;
        let mut c = s_bit_cell;
        if s_offset != 0 {
            proof {
                lemma_word_in_packed(self.bits@, s_bit_cell as int, true, s_offset as int, 64);
            }
            count = self.count_ones_bit_cell(s_bit_cell, s_offset, BIT_CELL_SIZE);
            c = c + 1;
        }
        while c < e_bit_cell
            invariant
                self.wf(),
                pb == packed_bits(self.bits@),
                l <= c * 64 <= r,
                r <= self.size,
                e_bit_cell == r / 64,
                c <= e_bit_cell,
                count == count_range(pb, true, l as int, c * 64),
            decreases e_bit_cell - c,
        {
            proof {
                lemma_word_in_packed(self.bits@, c as int, true, 0, 64);
                assert(word_bits(self.bits@[c as int]).subrange(0, 64) =~= word_bits(self.bits@[c as int]));
                lemma_count_split(pb, true, l as int, c * 64, c * 64 + 64);
                lemma_count_range_le(pb, true, l as int, c * 64 + 64);
            }
            count = count + word_count_ones(self.bits[c]) as usize;
            c = c + 1;
        }
        if e_offset != 0 {
            proof {
                lemma_word_in_packed(self.bits@, e_bit_cell as int, true, 0, e_offset as int);
                lemma_count_split(pb, true, l as int, c * 64, r as int);
                lemma_count_range_le(pb, true, l as int, r as int);
            }
            count = count + self.count_ones_bit_cell(e_bit_cell, 0, e_offset);
        }
        count
    }

    /// Position of the `nth` (counting from 1) set bit of `bit_cell`, found by
    /// testing one bit after another.
    fn find_nth_set_bit_slow(&self, bit_cell: u64, nth: usize) -> (r: usize)
        requires
            1 <= nth <= popcount(bit_cell),
        ensures
            is_select(word_bits(bit_cell), true, nth as int, r as int),
    {
        let ghost bits = word_bits(bit_cell);
        let mut w = bit_cell;
        let mut rem = nth;
        let mut i: usize = 0;
        proof {
            assert(bit_cell >> 0u64 == bit_cell) by (bit_vector);
            assert(bits.subrange(0, 64) =~= bits);
        }
        while i < BIT_CELL_SIZE
            invariant
                bits == word_bits(bit_cell),
                i <= 64,
                i < 64 ==> w == bit_cell >> (i as u64),
                1 <= rem,
                count_range(bits, true, 0, i as int) + rem == nth,
                nth <= count_range(bits, true, 0, 64),
            decreases 64 - i,
        {
            proof {
                lemma_bit_lowest(w);
                lemma_bit_shr(bit_cell, i as u64, 0);
                lemma_count_split(bits, true, 0, i as int, i + 1);
                lemma_count_single(bits, true, i as int);
            }
            rem = rem - (w & 1) as usize;
            if rem == 0 {
                return i;
            }
            proof {
                if i + 1 < 64 {
                    let k = (i + 1) as u64;
                    let ii = i as u64;
                    assert((bit_cell >> ii) >> 1u64 == bit_cell >> k) by (bit_vector)
                        requires
                            k == ii + 1,
                            k < 64,
                    ;
                }
            }
            w = w >> 1;
            i = i + 1;
        }
        proof {
            assert(false);
        }
        0
    }

    /// Position of the `nth` (counting from 1) set bit of `bit_cell`, found by
    /// halving the candidate range with set-bit counts of its lower half.
    fn find_nth_set_bit(&self, bit_cell: u64, nth: usize) -> (r: usize)
        requires
            1 <= nth <= popcount(bit_cell),
        ensures
            is_select(word_bits(bit_cell), true, nth as int, r as int),
    {
        let ghost bits = word_bits(bit_cell);
        let mut w = bit_cell;
        let mut pos: u64 = 0;
        let mut rem: u64 = nth as u64;
        let mut span: u64 = 64;
        proof {
            assert(bits.subrange(0, 64) =~= bits);
            assert forall|j: u64| j < 64 implies #[trigger] word_bit(w, j) == (j + pos < 64
                && word_bit(bit_cell, (j + pos) as u64)) by {}
        }
        while span > 1
            invariant
                bits == word_bits(bit_cell),
                span == 64 || span == 32 || span == 16 || span == 8 || span == 4 || span == 2
                    || span == 1,
                pos + span <= 64,
                forall|j: u64|
                    j < 64 ==> #[trigger] word_bit(w, j) == (j + pos < 64 && word_bit(
                        bit_cell,
                        (j + pos) as u64,
                    )),
                1 <= rem <= count_range(bits, true, pos as int, (pos + span) as int),
                count_range(bits, true, 0, pos as int) + rem == nth,
            decreases span,
        {
            let half = span / 2;
            proof {
                crate::word::lemma_bit_low_mask(w, half, 0);
                lemma_masked_count(w, 0, half);
                assert((w & low_mask(half)) >> 0u64 == w & low_mask(half)) by (bit_vector);
                assert(word_bits(w).subrange(0, half as int) =~= bits.subrange(
                    pos as int,
                    (pos + half) as int,
                ));
                lemma_count_split(bits, true, pos as int, (pos + half) as int, (pos + span) as int);
                lemma_count_split(bits, true, 0, pos as int, (pos + half) as int);
            }
            let low = word_count_ones(w & ((1u64 << half) - 1)) as u64;
            if rem > low {
                rem = rem - low;
                let ghost w0 = w;
                w = w >> half;
                proof {
                    assert forall|j: u64| j < 64 implies #[trigger] word_bit(w, j) == (j + (pos
                        + half) < 64 && word_bit(bit_cell, (j + (pos + half)) as u64)) by {
                        lemma_bit_shr(w0, half, j);
                    }
                }
                pos = pos + half;
            }
            span = half;
        }
        proof {
            lemma_count_single(bits, true, pos as int);
        }
        pos as usize
    }

    /// Position within word `b` of the `nth` occurrence of `x` at or after
    /// position `l`; `None` when `nth` is 0.
    fn find_nth_x_in_bit_cell(&self, b: usize, l: usize, nth: usize, x: u32) -> (r: Option<
        usize,
    >)
        requires
            b < self.bits.len(),
            l < 64,
            x <= 1,
            nth <= count_range(word_bits(self.bits@[b as int]), x == 1, l as int, 64),
        ensures
            nth == 0 ==> r is None,
            nth > 0 ==> (r matches Some(p) && is_nth_from(
                word_bits(self.bits@[b as int]),
                x == 1,
                l as int,
                nth as int,
                p as int,
            )),
    {
        if nth == 0 {
            return None;
        }
        let ghost wb = word_bits(self.bits@[b as int]);
        let mut w = self.bits[b] >> (l as u64);
        let ghost ws = w;
        if x == 0 {
            w = !w;
        }
        let ghost m = (64 - l) as int;
        proof {
            assert forall|j: int| 0 <= j < 64 - l implies #[trigger] word_bits(w)[j] == (wb[j
                + l] == (x == 1)) by {
                lemma_bit_shr(self.bits@[b as int], l as u64, j as u64);
                lemma_bit_not(ws, j as u64);
            }
            lemma_count_match(
                word_bits(w).subrange(0, m),
                wb.subrange(l as int, 64),
                x == 1,
            );
            lemma_count_split(word_bits(w), true, 0, m, 64);
            assert(word_bits(w).subrange(0, 64) =~= word_bits(w));
        }
        let q = self.find_nth_set_bit(w, nth);
        proof {
            if q >= m {
                lemma_count_split(word_bits(w), true, 0, m, q as int);
            }
            lemma_count_match(
                word_bits(w).subrange(0, q as int),
                wb.subrange(l as int, q + l),
                x == 1,
            );
        }
        Some(q + l)
    }

    /// Position of the `nth` occurrence of the bit value `x` at or after
    /// `start`; `None` when `nth` is 0 or there are fewer than `nth` of them.
    pub fn find_nth_x(&self, start: usize, nth: usize, x: u32) -> (r: Option<usize>)
        requires
            self.wf(),
            start <= self@.len(),
            x <= 1,
        ensures
            match r {
                Some(p) => is_nth_from(self@, x == 1, start as int, nth as int, p as int),
                None => !(1 <= nth <= count_range(self@, x == 1, start as int, self@.len() as int)),
            },
    {
        proof {
            self.lemma_view_is_prefix();
        }
        let ghost pb = packed_bits(self.bits@);
        let ghost v = x == 1;
        if nth == 0 {
            return None;
        }
        let mut cur_bit_cell = start / BIT_CELL_SIZE;
        let mut cur_offset = start % BIT_CELL_SIZE;
        let mut rem = nth;
        while cur_bit_cell < self.bits.len()
            invariant
                self.wf(),
                pb == packed_bits(self.bits@),
                v == (x == 1),
                x <= 1,
                start <= self.size,
                cur_offset < 64,
                cur_bit_cell <= self.bits.len(),
                start <= cur_bit_cell * 64 + cur_offset,
                cur_offset != 0 ==> cur_bit_cell * 64 + cur_offset == start,
                cur_bit_cell == self.bits.len() ==> cur_offset == 0,
                1 <= rem,
                count_range(pb, v, start as int, cur_bit_cell * 64 + cur_offset) + rem == nth,
            decreases self.bits.len() - cur_bit_cell,
        {
            let cb = cur_bit_cell;
            proof {
                lemma_word_in_packed(self.bits@, cb as int, v, cur_offset as int, 64);
                lemma_count_split(pb, v, start as int, cb * 64 + cur_offset, cb * 64 + 64);
            }
            let in_cur_bit_cell_count = self.count_x_in_bit_cell(cb, cur_offset, BIT_CELL_SIZE, x);
            if rem <= in_cur_bit_cell_count {
                let found = self.find_nth_x_in_bit_cell(cb, cur_offset, rem, x);
                let q = match found {
                    Some(q) => q,
                    None => {
                        return None;
                    },
                };
                let base = cb * BIT_CELL_SIZE;
                proof {
                    lemma_word_in_packed(self.bits@, cb as int, v, cur_offset as int, q as int);
                    lemma_count_split(pb, v, start as int, cb * 64 + cur_offset, cb * 64 + q);
                }
                if q < self.size - base {
                    proof {
                        self.lemma_view_is_prefix();
                        assert(self@[base + q] == pb[base + q]);
                        assert(word_bits(self.bits@[cb as int])[q as int] == pb[64 * cb + q]);
                        assert(count_range(self@, v, start as int, base + q) == count_range(pb, v, start as int, base + q));
                    }
                    return Some(base + q);
                } else {
                    proof {
                        lemma_count_split(pb, v, start as int, self.size as int, cb * 64 + q);
                        self.lemma_view_is_prefix();
                        assert(count_range(self@, v, start as int, self.size as int) == count_range(pb, v, start as int, self.size as int));
                    }
                    return None;
                }
            }
            rem = rem - in_cur_bit_cell_count;
            cur_bit_cell = cur_bit_cell + 1;
            cur_offset = 0;
        }
        proof {
            lemma_count_split(pb, v, start as int, self.size as int, self.bits.len() * 64);
        }
        None
    }
}

/// A bit vector that answers access, rank and select queries.
pub trait RankSelectVector: Sized {
    /// The bits the vector answers queries on.
    spec fn bit_seq(&self) -> Seq<bool>;

    /// The vector's internal invariant.
    spec fn well_formed(&self) -> bool;

    /// The longest bit sequence this kind of vector can be built on.
    spec fn max_len() -> nat;

    fn new(bits: BitVector) -> (r: Self)
        requires
            bits.wf(),
            bits@.len() <= Self::max_len(),
        ensures
            r.well_formed(),
            r.bit_seq() == bits@,
    ;

    /// Position of the `i`-th set bit (counting from 1).
    fn select1(&self, i: usize) -> (r: Option<usize>)
        requires
            self.well_formed(),
        ensures
            select_result(self.bit_seq(), true, i as int, r),
    ;

    /// Position of the `i`-th clear bit (counting from 1).
    fn select0(&self, i: usize) -> (r: Option<usize>)
        requires
            self.well_formed(),
        ensures
            select_result(self.bit_seq(), false, i as int, r),
    ;

    /// Number of set bits among the positions `[0, i)`.
    fn rank(&self, i: usize) -> (r: usize)
        requires
            self.well_formed(),
            i <= self.bit_seq().len(),
        ensures
            r == rank(self.bit_seq(), true, i as int),
    ;

    /// The bit at position `i`, as 0 or 1.
    fn access(&self, i: usize) -> (r: u32)
        requires
            self.well_formed(),
            i < self.bit_seq().len(),
        ensures
            r as nat == bit_value(self.bit_seq()[i as int]),
    ;
}

impl RankSelectVector for BitVector {
    closed spec fn bit_seq(&self) -> Seq<bool> {
        self@
    }

    closed spec fn well_formed(&self) -> bool {
        self.wf()
    }

    closed spec fn max_len() -> nat {
        usize::MAX as nat
    }

    fn new(bits: BitVector) -> (r: Self) {
        bits
    }

    fn select1(&self, i: usize) -> (r: Option<usize>) {
        proof {
            lemma_count_full(self@, true);
        }
        self.find_nth_x(0, i, 1)
    }

    fn select0(&self, i: usize) -> (r: Option<usize>) {
        proof {
            lemma_count_full(self@, false);
        }
        self.find_nth_x(0, i, 0)
    }

    /// Counts bit by bit.
    fn rank(&self, i: usize) -> (r: usize) {
        let mut count: usize = 0;
        let mut j: usize = 0;
        while j < i
            invariant
                self.wf(),
                j <= i <= self@.len(),
                count == rank(self@, true, j as int),
            decreases i - j,
        {
            proof {
                lemma_count_split(self@, true, 0, j as int, j + 1);
                lemma_count_single(self@, true, j as int);
                lemma_count_range_le(self@, true, 0, j + 1);
            }
            if self.get_nth(j) == 1 {
                count = count + 1;
            }
            j = j + 1;
        }
        count
    }

    fn access(&self, i: usize) -> (r: u32) {
        self.get_nth(i)
    }
}

} // verus!
