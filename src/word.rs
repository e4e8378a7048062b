//! Facts about single 64-bit words: their bits, set-bit counts, and the
//! bits that survive masks and shifts.
use vstd::prelude::*;

use crate::model::{count_range, count_val, lemma_count_append, lemma_count_none};

verus! {

/// Bit `j` of `w`, counting from the least significant.
pub open spec fn word_bit(w: u64, j: u64) -> bool {
    (w >> j) & 1u64 == 1u64
}

/// The 64 bits of `w`, least significant first.
pub open spec fn word_bits(w: u64) -> Seq<bool> {
    Seq::new(64, |j: int| word_bit(w, j as u64))
}

/// Number of set bits of `w`.
pub open spec fn popcount(w: u64) -> nat {
    count_val(word_bits(w), true)
}

/// The word whose lowest `r` bits are set, for `r < 64`.
pub open spec fn low_mask(r: u64) -> u64 {
    ((1u64 << r) - 1u64) as u64
}

/// `n` clear bits.
pub open spec fn clear_bits(n: nat) -> Seq<bool> {
    Seq::new(n, |i: int| false)
}

/// Relies on `u64::count_ones`: the number of ones in the binary representation.
#[verifier::external_body]
pub(crate) fn word_count_ones(w: u64) -> (r: u32)
    ensures
        r as nat == popcount(w),
{
    w.count_ones()
}

pub proof fn lemma_bit_shr(w: u64, s: u64, j: u64)
    by (bit_vector)
    requires
        s < 64,
        j < 64,
    ensures
        word_bit(w >> s, j) == (j + s < 64 && word_bit(w, (j + s) as u64)),
{
}

pub proof fn lemma_bit_low_mask(w: u64, r: u64, j: u64)
    by (bit_vector)
    requires
        r < 64,
        j < 64,
    ensures
        word_bit(w & low_mask(r), j) == (j < r && word_bit(w, j)),
        1u64 << r >= 1u64,
{
}

pub proof fn lemma_bit_not(w: u64, j: u64)
    by (bit_vector)
    requires
        j < 64,
    ensures
        word_bit(!w, j) == !word_bit(w, j),
{
}

pub proof fn lemma_bit_set(w: u64, t: u64, j: u64)
    by (bit_vector)
    requires
        t < 64,
        j < 64,
    ensures
        word_bit(w | (1u64 << t), j) == (j == t || word_bit(w, j)),
{
}

pub proof fn lemma_bit_zero(j: u64)
    by (bit_vector)
    requires
        j < 64,
    ensures
        !word_bit(0u64, j),
{
}

pub proof fn lemma_bit_lowest(w: u64)
    by (bit_vector)
    ensures
        (w & 1u64 == 1u64) == word_bit(w, 0u64),
        w & 1u64 <= 1u64,
{
}

/// The bits of `w >> s` are those of `w` from `s` on, then clear bits.
pub proof fn lemma_bits_shr(w: u64, s: u64)
    requires
        s < 64,
    ensures
        word_bits(w >> s) =~= word_bits(w).subrange(s as int, 64) + clear_bits(s as nat),
{
    assert forall|j: int| 0 <= j < 64 implies word_bits(w >> s)[j] == (word_bits(w).subrange(
        s as int,
        64,
    ) + clear_bits(s as nat))[j] by {
        lemma_bit_shr(w, s, j as u64);
    }
}

/// Set bits of `w` within `[l, r)`, counted the way the bit store does: mask
/// below `r`, shift out what lies below `l`, count what is left.
pub proof fn lemma_masked_count(w: u64, l: u64, r: u64)
    requires
        l <= r <= 64,
        l < 64,
    ensures
        popcount(
            (if r < 64 {
                w & low_mask(r)
            } else {
                w
            }) >> l,
        ) == count_range(word_bits(w), true, l as int, r as int),
{
    let m = if r < 64 {
        w & low_mask(r)
    } else {
        w
    };
    let bits = word_bits(w).subrange(l as int, r as int) + clear_bits((64 - (r - l)) as nat);
    assert forall|j: int| 0 <= j < 64 implies word_bits(m >> l)[j] == bits[j] by {
        lemma_bit_shr(m, l, j as u64);
        if r < 64 && j + l < 64 {
            lemma_bit_low_mask(w, r, (j + l) as u64);
        }
    }
    assert(word_bits(m >> l) =~= bits);
    lemma_count_append(
        word_bits(w).subrange(l as int, r as int),
        clear_bits((64 - (r - l)) as nat),
        true,
    );
    lemma_count_none(clear_bits((64 - (r - l)) as nat), true);
}

} // verus!
