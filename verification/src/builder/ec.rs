//! Splitting data codewords into error correction blocks.
use crate::ec::encoder::rs_remainder;
use crate::metadata::{lemma_normal_blocks, ECLevel, Version};
use vstd::prelude::*;

pub use crate::ec::encoder::ecc_per_block;

verus! {

/// Where block `i` starts in the data: the blocks of the first group, then those of the
/// second, one after another.
pub open spec fn block_start(blocks: (usize, usize, usize, usize), i: int) -> int {
    let (s1, c1, s2, c2) = blocks;
    if i < c1 {
        i * s1
    } else {
        c1 * s1 + (i - c1) * s2
    }
}

/// The length of block `i`.
pub open spec fn block_size(blocks: (usize, usize, usize, usize), i: int) -> int {
    let (s1, c1, s2, c2) = blocks;
    if i < c1 {
        s1 as int
    } else {
        s2 as int
    }
}

/// Block `i` lies inside the data.
pub proof fn lemma_block_bounds(bl: (usize, usize, usize, usize), i: int)
    requires
        0 <= i < bl.1 + bl.3,
        bl.0 * bl.1 + bl.2 * bl.3 <= 4096,
    ensures
        0 <= block_start(bl, i),
        block_start(bl, i) + block_size(bl, i) <= bl.0 * bl.1 + bl.2 * bl.3,
{
    let (s1, c1, s2, c2) = bl;
    if i < c1 {
        assert(0 <= i * s1) by (nonlinear_arith)
            requires
                0 <= i,
        ;
        assert(i * s1 + s1 <= s1 * c1) by (nonlinear_arith)
            requires
                i + 1 <= c1,
        ;
        assert(0 <= s2 * c2) by (nonlinear_arith);
    } else {
        assert(0 <= (i - c1) * s2) by (nonlinear_arith)
            requires
                i >= c1,
        ;
        assert(0 <= c1 * s1) by (nonlinear_arith);
        assert((i - c1) * s2 + s2 <= s2 * c2) by (nonlinear_arith)
            requires
                i - c1 + 1 <= c2,
        ;
        assert(c1 * s1 == s1 * c1) by (nonlinear_arith);
    }
}

/// The data codewords of `ver` at `ecl`, split into their blocks.
pub fn blockify<'a>(data: &'a [u8], version: Version, ec_level: ECLevel) -> (r: Vec<&'a [u8]>)
    requires
        version.valid(),
        version is Normal,
        data@.len() == version.spec_channel_bit_capacity(ec_level) / 8,
    ensures
        r@.len() == version.spec_blocks(ec_level).1 + version.spec_blocks(ec_level).3,
        forall|i: int|
            0 <= i < r@.len() ==> 0 <= block_start(version.spec_blocks(ec_level), i)
                && block_start(version.spec_blocks(ec_level), i) + block_size(
                version.spec_blocks(ec_level),
                i,
            ) <= data@.len() && (#[trigger] r@[i])@ == data@.subrange(
                block_start(version.spec_blocks(ec_level), i),
                block_start(version.spec_blocks(ec_level), i) + block_size(
                    version.spec_blocks(ec_level),
                    i,
                ),
            ),
{
    let (block1_size, block1_count, block2_size, block2_count) = version.data_codewords_per_block(
        ec_level,
    );
    proof {
        lemma_normal_blocks(version, ec_level);
    }
    let ghost bl = version.spec_blocks(ec_level);
    proof {
        crate::metadata::lemma_normal_capacity(version, ec_level);
    }
    let total_blocks = block1_count + block2_count;
    let mut data_blocks: Vec<&'a [u8]> = Vec::new();
    let mut i: usize = 0;
    proof {
        assert(bl.0 * bl.1 + bl.2 * bl.3 == data@.len());
    }
    while i < total_blocks
        invariant
            bl == (block1_size, block1_count, block2_size, block2_count),
            total_blocks == block1_count + block2_count <= 81,
            1 <= block1_size <= 256,
            block2_size == 0 <==> block2_count == 0,
            block2_size == 0 || block2_size == block1_size + 1,
            block1_size * block1_count + block2_size * block2_count == data@.len(),
            data@.len() <= 4096,
            i <= total_blocks,
            data_blocks@.len() == i,
            bl.0 * bl.1 + bl.2 * bl.3 == data@.len(),
            forall|t: int|
                0 <= t < i ==> (#[trigger] data_blocks@[t])@ == data@.subrange(
                    block_start(bl, t),
                    block_start(bl, t) + block_size(bl, t),
                ),
        decreases total_blocks - i,
    {
        let start: usize;
        let size: usize;
        if i < block1_count {
            proof {
                assert(i * block1_size + block1_size <= block1_size * block1_count) by (
                nonlinear_arith)
                    requires
                        i + 1 <= block1_count,
                ;
                assert(0 <= block2_size * block2_count) by (nonlinear_arith);
            }
            start = i * block1_size;
            size = block1_size;
        } else {
            proof {
                assert((i - block1_count) * block2_size + block2_size <= block2_size
                    * block2_count) by (nonlinear_arith)
                    requires
                        i - block1_count + 1 <= block2_count,
                ;
                assert(block1_count * block1_size == block1_size * block1_count) by (
                nonlinear_arith);
            }
            start = block1_count * block1_size + (i - block1_count) * block2_size;
            size = block2_size;
        }
        proof {
            lemma_block_bounds(bl, i as int);
            assert(block_start(bl, i as int) == start);
            assert(block_size(bl, i as int) == size);
        }
        let blk = &data[start..start + size];
        proof {
            assert(blk@ == data@.subrange(start as int, start + size));
        }
        let ghost old_blocks = data_blocks@;
        data_blocks.push(blk);
        i += 1;
        proof {
            assert forall|t: int| 0 <= t < i implies (#[trigger] data_blocks@[t])@ == data@.subrange(
                    block_start(bl, t),
                    block_start(bl, t) + block_size(bl, t),
                ) by {
                if t < i - 1 {
                    assert(data_blocks@[t] == old_blocks[t]);
                } else {
                    assert(t == i - 1);
                    assert(data_blocks@[t] == blk);
                }
            }
        }
    }
    proof {
        assert forall|t: int| 0 <= t < data_blocks@.len() implies 0 <= block_start(bl, t)
            && block_start(bl, t) + block_size(bl, t) <= data@.len() by {
            lemma_block_bounds(bl, t);
        }
    }
    data_blocks
}

/// The data blocks of `ver` at `ecl` and the error correction codewords of each.
pub fn ecc<'a>(data: &'a [u8], version: Version, ec_level: ECLevel) -> (r: (
    Vec<&'a [u8]>,
    Vec<Vec<u8>>,
))
    requires
        version.valid(),
        version is Normal,
        data@.len() == version.spec_channel_bit_capacity(ec_level) / 8,
    ensures
        r.0@.len() == version.spec_blocks(ec_level).1 + version.spec_blocks(ec_level).3,
        forall|i: int|
            0 <= i < r.0@.len() ==> 0 <= block_start(version.spec_blocks(ec_level), i)
                && block_start(version.spec_blocks(ec_level), i) + block_size(
                version.spec_blocks(ec_level),
                i,
            ) <= data@.len() && (#[trigger] r.0@[i])@ == data@.subrange(
                block_start(version.spec_blocks(ec_level), i),
                block_start(version.spec_blocks(ec_level), i) + block_size(
                    version.spec_blocks(ec_level),
                    i,
                ),
            ),
        r.1@.len() == r.0@.len(),
        forall|i: int|
            0 <= i < r.1@.len() ==> (#[trigger] r.1@[i])@ == rs_remainder(
                r.0@[i]@,
                version.spec_ecc_per_block(ec_level),
            ),
{
    let data_blocks = blockify(data, version, ec_level);
    let ecc_size_per_block = version.ecc_per_block(ec_level);
    proof {
        lemma_normal_blocks(version, ec_level);
        crate::metadata::lemma_normal_capacity(version, ec_level);
    }
    let ghost bl = version.spec_blocks(ec_level);
    let mut ecc_blocks: Vec<Vec<u8>> = Vec::new();
    let mut i: usize = 0;
    while i < data_blocks.len()
        invariant
            ecc_size_per_block == version.spec_ecc_per_block(ec_level) <= 30,
            data@.len() <= 4096,
            forall|t: int| 0 <= t < data_blocks@.len() ==> (#[trigger] data_blocks@[t])@.len() <= data@.len(),
            i <= data_blocks@.len(),
            ecc_blocks@.len() == i,
            forall|t: int|
                0 <= t < i ==> (#[trigger] ecc_blocks@[t])@ == rs_remainder(
                    data_blocks@[t]@,
                    ecc_size_per_block as nat,
                ),
        decreases data_blocks@.len() - i,
    {
        let b = ecc_per_block(data_blocks[i], ecc_size_per_block);
        ecc_blocks.push(b);
        i += 1;
    }
    proof {
        assert forall|t: int| 0 <= t < data_blocks@.len() implies 0 <= block_start(bl, t)
            && block_start(bl, t) + block_size(bl, t) <= data@.len() by {
            lemma_block_bounds(bl, t);
        }
    }
    (data_blocks, ecc_blocks)
}

/// The number of erroneous codewords the symbol can correct: half its error correction
/// codewords, less those the standard reserves for misdecode protection in the smallest
/// symbols.
pub fn error_correction_capacity(version: Version, ec_level: ECLevel) -> (r: usize)
    requires
        version.valid(),
        version is Normal,
    ensures
        r == ((version.spec_blocks(ec_level).1 + version.spec_blocks(ec_level).3)
            * version.spec_ecc_per_block(ec_level) - misdecode_reserve(version, ec_level)) / 2,
{
    let p: usize = misdecode_codewords(version, ec_level);
    let ec_bytes_per_block = version.ecc_per_block(ec_level);
    let (_, count1, _, count2) = version.data_codewords_per_block(ec_level);
    proof {
        lemma_normal_blocks(version, ec_level);
        assert((count1 + count2) * ec_bytes_per_block >= count1 + count2) by (nonlinear_arith)
            requires
                ec_bytes_per_block >= 1,
        ;
        assert((count1 + count2) * ec_bytes_per_block <= 81 * 30) by (nonlinear_arith)
            requires
                ec_bytes_per_block <= 30,
                count1 + count2 <= 81,
        ;
    }
    let ec_bytes = (count1 + count2) * ec_bytes_per_block;
    (ec_bytes - p) / 2
}

/// Codewords reserved for misdecode protection.
pub open spec fn misdecode_reserve(version: Version, ec_level: ECLevel) -> nat {
    match (version, ec_level) {
        (Version::Micro(2), ECLevel::L) | (Version::Normal(1), ECLevel::L) => 3,
        (Version::Micro(_), ECLevel::L) | (Version::Normal(2), ECLevel::L) | (
            Version::Micro(2),
            ECLevel::M,
        ) | (Version::Normal(1), ECLevel::M) => 2,
        (Version::Normal(1), _) | (Version::Normal(3), ECLevel::L) => 1,
        _ => 0,
    }
}

fn misdecode_codewords(version: Version, ec_level: ECLevel) -> (r: usize)
    ensures
        r == misdecode_reserve(version, ec_level),
{
    match (version, ec_level) {
        (Version::Micro(2), ECLevel::L) | (Version::Normal(1), ECLevel::L) => 3,
        (Version::Micro(_), ECLevel::L) | (Version::Normal(2), ECLevel::L) | (
            Version::Micro(2),
            ECLevel::M,
        ) | (Version::Normal(1), ECLevel::M) => 2,
        (Version::Normal(1), _) | (Version::Normal(3), ECLevel::L) => 1,
        _ => 0,
    }
}

} // verus!
