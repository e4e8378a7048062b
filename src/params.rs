//! Tuning of the rank directory: block and superblock sizes, the megablock
//! factor, and how a superblock record is packed into bytes.
use vstd::arithmetic::power2::{lemma2_to64, pow2};
use vstd::prelude::*;

verus! {

/// The shape of a rank directory.
#[derive(Clone, Copy)]
pub struct RankLayout {
    /// Bits per block.
    pub block_size: usize,
    /// Bits per superblock; a multiple of `block_size`.
    pub superblock_size: usize,
    /// Superblocks per megablock sample.
    pub megablock_factor: usize,
    /// Width of a record's `before` field.
    pub superblock_bits: usize,
    /// Width of each of a record's block fields.
    pub block_bits: usize,
    /// Bytes per superblock record.
    pub cacheline_size: usize,
}

impl RankLayout {
    /// Blocks per superblock.
    pub open spec fn blocks(&self) -> int {
        self.superblock_size as int / self.block_size as int
    }

    /// First bit of block field `j` within a record.
    pub open spec fn block_field_start(&self, j: int) -> int {
        self.superblock_bits + j * self.block_bits
    }

    /// Bits in a record.
    pub open spec fn record_bits(&self) -> int {
        self.cacheline_size * 8
    }

    /// The sizes fit together, the counters fit their fields, and all
    /// fields fit the record.
    pub open spec fn wf(&self) -> bool {
        &&& 0 < self.block_size <= self.superblock_size
        &&& self.superblock_size % self.block_size == 0
        &&& 0 < self.megablock_factor
        &&& 0 < self.superblock_bits <= 64
        &&& 0 < self.block_bits <= 32
        &&& self.superblock_size < pow2(self.block_bits as nat)
        &&& self.block_field_start(self.blocks()) <= self.record_bits()
        &&& self.cacheline_size <= 4096
    }

    /// The longest bit sequence a directory of this shape can index: its
    /// counts fit the `before` field and one more superblock fits a `usize`.
    pub open spec fn max_len(&self) -> nat {
        if pow2(self.superblock_bits as nat) - 1 <= usize::MAX - self.superblock_size {
            (pow2(self.superblock_bits as nat) - 1) as nat
        } else {
            (usize::MAX - self.superblock_size) as nat
        }
    }
}

/// A choice of rank directory shape, fixed per type.
pub trait RASBVecParameters {
    spec fn spec_layout() -> RankLayout;

    fn layout() -> (r: RankLayout)
        ensures
            r == Self::spec_layout(),
            r.wf(),
    ;
}

/// Tiny blocks and superblocks; exercises every code path on short inputs.
pub struct SmallRASB;

impl SmallRASB {
    pub const BLOCK_SIZE: usize = 4;

    pub const SUPERBLOCK_SIZE: usize = 8;
}

impl RASBVecParameters for SmallRASB {
    open spec fn spec_layout() -> RankLayout {
        RankLayout {
            block_size: 4,
            superblock_size: 8,
            megablock_factor: 24,
            superblock_bits: 64,
            block_bits: 4,
            cacheline_size: 9,
        }
    }

    fn layout() -> (r: RankLayout) {
        proof {
            lemma2_to64();
        }
        RankLayout {
            block_size: SmallRASB::BLOCK_SIZE,
            superblock_size: SmallRASB::SUPERBLOCK_SIZE,
            megablock_factor: 24,
            superblock_bits: 64,
            block_bits: 4,
            cacheline_size: 9,
        }
    }
}

/// Medium blocks and superblocks.
pub struct BigRASB;

impl BigRASB {
    pub const BLOCK_SIZE: usize = 256;

    pub const SUPERBLOCK_SIZE: usize = 1024;
}

impl RASBVecParameters for BigRASB {
    open spec fn spec_layout() -> RankLayout {
        RankLayout {
            block_size: 256,
            superblock_size: 1024,
            megablock_factor: 24,
            superblock_bits: 64,
            block_bits: 11,
            cacheline_size: 14,
        }
    }

    fn layout() -> (r: RankLayout) {
        proof {
            lemma2_to64();
        }
        RankLayout {
            block_size: BigRASB::BLOCK_SIZE,
            superblock_size: BigRASB::SUPERBLOCK_SIZE,
            megablock_factor: 24,
            superblock_bits: 64,
            block_bits: 11,
            cacheline_size: 14,
        }
    }
}

/// The production shape: 4096-bit blocks, 32768-bit superblocks, a sample
/// every 32 superblocks and 48-bit `before` counters, 22 bytes per record.
pub struct DefaultRASB;

impl RASBVecParameters for DefaultRASB {
    open spec fn spec_layout() -> RankLayout {
        RankLayout {
            block_size: 4096,
            superblock_size: 32768,
            megablock_factor: 32,
            superblock_bits: 48,
            block_bits: 16,
            cacheline_size: 22,
        }
    }

    fn layout() -> (r: RankLayout) {
        proof {
            lemma2_to64();
        }
        RankLayout {
            block_size: 4096,
            superblock_size: 32768,
            megablock_factor: 32,
            superblock_bits: 48,
            block_bits: 16,
            cacheline_size: 22,
        }
    }
}

/// Field widths that straddle bytes in every way: 19-bit `before`, 13-bit
/// blocks, and room for 55 block fields.
pub struct RankBitTestParams;

impl RASBVecParameters for RankBitTestParams {
    open spec fn spec_layout() -> RankLayout {
        RankLayout {
            block_size: 4,
            superblock_size: 8,
            megablock_factor: 24,
            superblock_bits: 19,
            block_bits: 13,
            cacheline_size: 92,
        }
    }

    fn layout() -> (r: RankLayout) {
        proof {
            lemma2_to64();
        }
        RankLayout {
            block_size: 4,
            superblock_size: 8,
            megablock_factor: 24,
            superblock_bits: 19,
            block_bits: 13,
            cacheline_size: 92,
        }
    }
}


/// Block fields lie one after another, in order, after the `before` field.
pub proof fn lemma_field_starts(lay: RankLayout, j: int, k: int)
    requires
        lay.wf(),
        0 <= j <= k,
    ensures
        lay.superblock_bits <= lay.block_field_start(j) <= lay.block_field_start(k),
        lay.block_field_start(j + 1) == lay.block_field_start(j) + lay.block_bits,
{
    assert(0 <= j * lay.block_bits <= k * lay.block_bits) by (nonlinear_arith)
        requires
            0 <= j <= k,
            lay.block_bits > 0,
    ;
    assert((j + 1) * lay.block_bits == j * lay.block_bits + lay.block_bits) by (nonlinear_arith);
}

/// Within a superblock, block `b` starts at `b * block_size`, and the blocks
/// before the last end no later than the superblock.
pub proof fn lemma_block_offsets(lay: RankLayout, b: int)
    requires
        lay.wf(),
        0 <= b < lay.blocks(),
    ensures
        lay.blocks() * lay.block_size == lay.superblock_size,
        0 <= b * lay.block_size,
        b * lay.block_size + lay.block_size <= lay.superblock_size,
        (b + 1) * lay.block_size == b * lay.block_size + lay.block_size,
        lay.blocks() >= 1,
{
    lemma_blocks_fill(lay);
    assert(0 <= b * lay.block_size && b * lay.block_size + lay.block_size <= lay.blocks() * lay.block_size
        && (b + 1) * lay.block_size == b * lay.block_size + lay.block_size) by (nonlinear_arith)
        requires
            0 <= b < lay.blocks(),
            lay.block_size > 0,
    ;
}

/// The blocks of a superblock fill it exactly, and there is at least one;
/// the longest indexable sequence leaves room for one more superblock and
/// its counts fit the `before` field.
pub proof fn lemma_blocks_fill(lay: RankLayout)
    requires
        lay.wf(),
    ensures
        lay.blocks() * lay.block_size == lay.superblock_size,
        lay.blocks() >= 1,
        lay.max_len() + lay.superblock_size <= usize::MAX,
        lay.max_len() < pow2(lay.superblock_bits as nat),
{
    vstd::arithmetic::div_mod::lemma_fundamental_div_mod(
        lay.superblock_size as int,
        lay.block_size as int,
    );
    assert(lay.blocks() * lay.block_size == lay.superblock_size) by (nonlinear_arith)
        requires
            lay.superblock_size == lay.block_size * (lay.superblock_size as int / lay.block_size as int),
            lay.blocks() == lay.superblock_size as int / lay.block_size as int,
    ;
    assert(lay.blocks() >= 1) by (nonlinear_arith)
        requires
            lay.blocks() * lay.block_size == lay.superblock_size,
            lay.superblock_size > 0,
    ;
    vstd::arithmetic::power2::lemma_pow2_pos(lay.superblock_bits as nat);
}

} // verus!
