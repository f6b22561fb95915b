//! Building a symbol: encoding, error correction, placement and masking.
pub mod ec;
pub mod qr;
pub mod render;

use crate::bit_types::BitStream;
use crate::bits::int_bits;
use crate::builder::ec::{block_size, block_start, error_correction_capacity, misdecode_reserve};
use crate::ec::block::Block;
use crate::ec::encoder::rs_remainder;
use crate::error::push_decimal;
use crate::builder::qr::{
    function_grid, lemma_cell_div_mod, lemma_grid_ext, lemma_region_start_writable, masked_grid,
    unmasked_grid, Module, QR,
};
use crate::codec::encoder::{encode, encode_with_version, encodes, overflows};
use crate::error::{decimal, QRError, QRResult};
use crate::mask::{apply_best_mask, mask_penalty, total_penalty, MaskingPattern};
use crate::metadata::{lemma_normal_blocks, lemma_normal_capacity, ECLevel, Version};
use vstd::prelude::*;
use vstd::string::StringExecFns;

verus! {

/// The bits of `bytes`, each byte most significant bit first.
pub open spec fn bytes_bits(bytes: Seq<u8>) -> Seq<bool>
    decreases bytes.len(),
{
    if bytes.len() == 0 {
        Seq::empty()
    } else {
        bytes_bits(bytes.drop_last()) + int_bits(bytes.last() as nat, 8)
    }
}

/// Each block as its codewords and the number of them that are data.
pub open spec fn block_parts(blks: Seq<Block>) -> Seq<(Seq<u8>, nat)> {
    blks.map_values(|b: Block| (b.codeword(), b.dlen as nat))
}

/// Data codeword `i` of each of the first `n` blocks that has one.
pub open spec fn data_column(blocks: Seq<(Seq<u8>, nat)>, i: int, n: int) -> Seq<u8>
    decreases n,
{
    if n <= 0 {
        Seq::empty()
    } else {
        data_column(blocks, i, n - 1) + if i < blocks[n - 1].1 {
            seq![blocks[n - 1].0[i]]
        } else {
            Seq::empty()
        }
    }
}

/// Error correction codeword `i` of each of the first `n` blocks that has one.
pub open spec fn ecc_column(blocks: Seq<(Seq<u8>, nat)>, i: int, n: int) -> Seq<u8>
    decreases n,
{
    if n <= 0 {
        Seq::empty()
    } else {
        ecc_column(blocks, i, n - 1) + if i < blocks[n - 1].0.len() - blocks[n - 1].1 {
            seq![blocks[n - 1].0[blocks[n - 1].1 + i]]
        } else {
            Seq::empty()
        }
    }
}

/// The data columns `0..m`, one after another.
pub open spec fn data_rows(blocks: Seq<(Seq<u8>, nat)>, m: int) -> Seq<u8>
    decreases m,
{
    if m <= 0 {
        Seq::empty()
    } else {
        data_rows(blocks, m - 1) + data_column(blocks, m - 1, blocks.len() as int)
    }
}

/// The error correction columns `0..m`, one after another.
pub open spec fn ecc_rows(blocks: Seq<(Seq<u8>, nat)>, m: int) -> Seq<u8>
    decreases m,
{
    if m <= 0 {
        Seq::empty()
    } else {
        ecc_rows(blocks, m - 1) + ecc_column(blocks, m - 1, blocks.len() as int)
    }
}

/// The most data codewords among the first `n` blocks.
pub open spec fn max_dlen(blocks: Seq<(Seq<u8>, nat)>, n: int) -> nat
    decreases n,
{
    if n <= 0 {
        0
    } else if max_dlen(blocks, n - 1) < blocks[n - 1].1 {
        blocks[n - 1].1
    } else {
        max_dlen(blocks, n - 1)
    }
}

/// The codewords of the blocks interleaved: the first data codeword of every block, then
/// the second, and so on, then the error correction codewords in the same way, as many
/// columns of them as the first block has.
pub open spec fn interleaved(blocks: Seq<(Seq<u8>, nat)>) -> Seq<u8> {
    data_rows(blocks, max_dlen(blocks, blocks.len() as int) as int) + ecc_rows(
        blocks,
        blocks[0].0.len() - blocks[0].1,
    )
}

proof fn lemma_data_rows_grow(blocks: Seq<(Seq<u8>, nat)>, m1: int, m2: int)
    requires
        0 <= m1 <= m2,
    ensures
        data_rows(blocks, m1).len() <= data_rows(blocks, m2).len(),
    decreases m2,
{
    if m1 < m2 {
        lemma_data_rows_grow(blocks, m1, m2 - 1);
    }
}

proof fn lemma_ecc_rows_grow(blocks: Seq<(Seq<u8>, nat)>, m1: int, m2: int)
    requires
        0 <= m1 <= m2,
    ensures
        ecc_rows(blocks, m1).len() <= ecc_rows(blocks, m2).len(),
    decreases m2,
{
    if m1 < m2 {
        lemma_ecc_rows_grow(blocks, m1, m2 - 1);
    }
}

proof fn lemma_data_column_grow(blocks: Seq<(Seq<u8>, nat)>, i: int, n1: int, n2: int)
    requires
        0 <= n1 <= n2,
    ensures
        data_column(blocks, i, n1).len() <= data_column(blocks, i, n2).len(),
    decreases n2,
{
    if n1 < n2 {
        lemma_data_column_grow(blocks, i, n1, n2 - 1);
    }
}

proof fn lemma_ecc_column_grow(blocks: Seq<(Seq<u8>, nat)>, i: int, n1: int, n2: int)
    requires
        0 <= n1 <= n2,
    ensures
        ecc_column(blocks, i, n1).len() <= ecc_column(blocks, i, n2).len(),
    decreases n2,
{
    if n1 < n2 {
        lemma_ecc_column_grow(blocks, i, n1, n2 - 1);
    }
}

/// Appending bytes appends their bits.
proof fn lemma_bytes_bits_push(bytes: Seq<u8>, b: u8)
    ensures
        bytes_bits(bytes.push(b)) == bytes_bits(bytes) + int_bits(b as nat, 8),
{
    assert(bytes.push(b).drop_last() =~= bytes);
}

proof fn lemma_bytes_bits_len(bytes: Seq<u8>)
    ensures
        bytes_bits(bytes).len() == 8 * bytes.len(),
    decreases bytes.len(),
{
    if bytes.len() > 0 {
        lemma_bytes_bits_len(bytes.drop_last());
    }
}

// Counting interleaved codewords
//------------------------------------------------------------------------------
/// Codewords block `b` has to give: data, or error correction when `ecc`.
pub open spec fn avail(parts: Seq<(Seq<u8>, nat)>, b: int, ecc: bool) -> int {
    if ecc {
        parts[b].0.len() - parts[b].1
    } else {
        parts[b].1 as int
    }
}

/// Of the first `n` blocks, those that give a codeword in column `i`.
pub open spec fn givers(parts: Seq<(Seq<u8>, nat)>, i: int, n: int, ecc: bool) -> int
    decreases n,
{
    if n <= 0 {
        0
    } else {
        givers(parts, i, n - 1, ecc) + if i < avail(parts, n - 1, ecc) {
            1int
        } else {
            0
        }
    }
}

/// Codewords the first `n` blocks give to columns `0..m`.
pub open spec fn given(parts: Seq<(Seq<u8>, nat)>, m: int, n: int, ecc: bool) -> int
    decreases n,
{
    if n <= 0 {
        0
    } else {
        given(parts, m, n - 1, ecc) + if m < avail(parts, n - 1, ecc) {
            m
        } else {
            avail(parts, n - 1, ecc)
        }
    }
}

/// All the codewords of the first `n` blocks of one kind.
pub open spec fn avail_sum(parts: Seq<(Seq<u8>, nat)>, n: int, ecc: bool) -> int
    decreases n,
{
    if n <= 0 {
        0
    } else {
        avail_sum(parts, n - 1, ecc) + avail(parts, n - 1, ecc)
    }
}

proof fn lemma_column_len(parts: Seq<(Seq<u8>, nat)>, i: int, n: int)
    ensures
        data_column(parts, i, n).len() == givers(parts, i, n, false),
        ecc_column(parts, i, n).len() == givers(parts, i, n, true),
    decreases n,
{
    if n > 0 {
        lemma_column_len(parts, i, n - 1);
    }
}

proof fn lemma_given_step(parts: Seq<(Seq<u8>, nat)>, m: int, n: int, ecc: bool)
    requires
        m >= 0,
        forall|b: int| 0 <= b < n ==> avail(parts, b, ecc) >= 0,
    ensures
        given(parts, m + 1, n, ecc) == given(parts, m, n, ecc) + givers(parts, m, n, ecc),
    decreases n,
{
    if n > 0 {
        lemma_given_step(parts, m, n - 1, ecc);
    }
}

proof fn lemma_rows_len(parts: Seq<(Seq<u8>, nat)>, m: int, ecc: bool)
    requires
        m >= 0,
        forall|b: int| 0 <= b < parts.len() ==> avail(parts, b, ecc) >= 0,
    ensures
        !ecc ==> data_rows(parts, m).len() == given(parts, m, parts.len() as int, ecc),
        ecc ==> ecc_rows(parts, m).len() == given(parts, m, parts.len() as int, ecc),
    decreases m,
{
    if m > 0 {
        lemma_rows_len(parts, m - 1, ecc);
        lemma_column_len(parts, m - 1, parts.len() as int);
        lemma_given_step(parts, m - 1, parts.len() as int, ecc);
    } else {
        lemma_given_zero(parts, parts.len() as int, ecc);
    }
}

proof fn lemma_given_zero(parts: Seq<(Seq<u8>, nat)>, n: int, ecc: bool)
    requires
        forall|b: int| 0 <= b < n ==> avail(parts, b, ecc) >= 0,
    ensures
        given(parts, 0, n, ecc) == 0,
    decreases n,
{
    if n > 0 {
        lemma_given_zero(parts, n - 1, ecc);
    }
}

proof fn lemma_given_full(parts: Seq<(Seq<u8>, nat)>, m: int, n: int, ecc: bool)
    requires
        forall|b: int| 0 <= b < n ==> avail(parts, b, ecc) <= m,
    ensures
        given(parts, m, n, ecc) == avail_sum(parts, n, ecc),
    decreases n,
{
    if n > 0 {
        lemma_given_full(parts, m, n - 1, ecc);
    }
}

proof fn lemma_max_dlen(parts: Seq<(Seq<u8>, nat)>, n: int)
    ensures
        forall|b: int| 0 <= b < n ==> parts[b].1 <= max_dlen(parts, n),
    decreases n,
{
    if n > 0 {
        lemma_max_dlen(parts, n - 1);
    }
}

/// The interleaved codewords of blocks are all their codewords, when every block has as
/// many error correction codewords as the first.
proof fn lemma_interleaved_len(parts: Seq<(Seq<u8>, nat)>)
    requires
        parts.len() > 0,
        forall|b: int| 0 <= b < parts.len() ==> #[trigger] parts[b].1 <= parts[b].0.len(),
        forall|b: int|
            0 <= b < parts.len() ==> #[trigger] avail(parts, b, true) == avail(parts, 0, true),
    ensures
        interleaved(parts).len() == avail_sum(parts, parts.len() as int, false) + avail_sum(
            parts,
            parts.len() as int,
            true,
        ),
{
    let n = parts.len() as int;
    let m = max_dlen(parts, n) as int;
    let e = avail(parts, 0, true);
    assert forall|b: int| 0 <= b < n implies avail(parts, b, false) >= 0 && avail(parts, b, true)
        >= 0 by {
        assert(parts[b].1 <= parts[b].0.len());
    }
    lemma_rows_len(parts, m, false);
    lemma_rows_len(parts, e, true);
    lemma_max_dlen(parts, n);
    lemma_given_full(parts, m, n, false);
    lemma_given_full(parts, e, n, true);
}

/// Block `n + 1` starts where block `n` ends.
proof fn lemma_block_start_step(bl: (usize, usize, usize, usize), n: int)
    requires
        0 <= n,
    ensures
        block_start(bl, n + 1) == block_start(bl, n) + block_size(bl, n),
{
    let (s1, c1, s2, c2) = bl;
    if n + 1 < c1 {
        assert((n + 1) * s1 == n * s1 + s1) by (nonlinear_arith);
    } else if n + 1 == c1 {
        assert((n + 1) * s1 == n * s1 + s1) by (nonlinear_arith);
        assert(0 * s2 == 0) by (nonlinear_arith);
    } else {
        assert((n + 1 - c1) * s2 == (n - c1) * s2 + s2) by (nonlinear_arith);
    }
}

/// The blocks before block `k` hold the data up to where block `k` starts, and `ecc`
/// error correction codewords each.
proof fn lemma_channel_sums(chunk: Seq<u8>, ver: Version, ecl: ECLevel, k: int)
    requires
        ver.valid(),
        ver is Normal,
        chunk.len() == ver.spec_channel_bit_capacity(ecl) / 8,
        0 <= k <= channel_parts(chunk, ver, ecl).len(),
        forall|b: int|
            0 <= b < channel_parts(chunk, ver, ecl).len() ==> #[trigger] avail(
                channel_parts(chunk, ver, ecl),
                b,
                true,
            ) == ver.spec_ecc_per_block(ecl),
    ensures
        avail_sum(channel_parts(chunk, ver, ecl), k, false) == block_start(ver.spec_blocks(ecl), k),
        avail_sum(channel_parts(chunk, ver, ecl), k, true) == k * ver.spec_ecc_per_block(ecl),
    decreases k,
{
    let ecc = ver.spec_ecc_per_block(ecl);
    if k > 0 {
        lemma_channel_sums(chunk, ver, ecl, k - 1);
        lemma_block_start_step(ver.spec_blocks(ecl), k - 1);
        assert((k - 1) * ecc + ecc == k * ecc) by (nonlinear_arith);
    }
}

/// What the blocks of a channel hold: each its data and all the error correction
/// codewords, so that they hold all the channel's data and error correction codewords.
pub proof fn lemma_channel_parts(chunk: Seq<u8>, ver: Version, ecl: ECLevel)
    requires
        ver.valid(),
        ver is Normal,
        chunk.len() == ver.spec_channel_bit_capacity(ecl) / 8,
    ensures
        ({
            let parts = channel_parts(chunk, ver, ecl);
            let bl = ver.spec_blocks(ecl);
            &&& parts.len() == bl.1 + bl.3
            &&& parts.len() > 0
            &&& forall|b: int| 0 <= b < parts.len() ==> #[trigger] parts[b].1 <= parts[b].0.len()
            &&& forall|b: int|
                0 <= b < parts.len() ==> #[trigger] avail(parts, b, true)
                    == ver.spec_ecc_per_block(ecl)
            &&& avail_sum(parts, parts.len() as int, false) == bl.0 * bl.1 + bl.2 * bl.3
            &&& avail_sum(parts, parts.len() as int, true) == (bl.1 + bl.3)
                * ver.spec_ecc_per_block(ecl)
            &&& interleaved(parts).len() == ver.spec_channel_codewords()
        }),
{
    let parts = channel_parts(chunk, ver, ecl);
    let bl = ver.spec_blocks(ecl);
    let ecc = ver.spec_ecc_per_block(ecl);
    lemma_normal_blocks(ver, ecl);
    lemma_normal_capacity(ver, ecl);
    let n = parts.len() as int;
    assert forall|b: int| 0 <= b < n implies #[trigger] parts[b].1 <= parts[b].0.len() && avail(
        parts,
        b,
        true,
    ) == ecc by {
        crate::builder::ec::lemma_block_bounds(bl, b);
        let d = chunk.subrange(block_start(bl, b), block_start(bl, b) + block_size(bl, b));
        crate::ec::encoder::lemma_rs_remainder_len(d, ecc);
    }
    lemma_channel_sums(chunk, ver, ecl, n);
    assert(block_start(bl, n) == bl.1 * bl.0 + bl.3 * bl.2) by {
        assert(bl.1 * bl.0 == bl.0 * bl.1) by (nonlinear_arith);
        if bl.3 == 0 {
            assert(0 * bl.2 == 0) by (nonlinear_arith);
        }
    }
    assert(bl.1 * bl.0 + bl.3 * bl.2 == bl.0 * bl.1 + bl.2 * bl.3) by (nonlinear_arith);
    lemma_interleaved_len(parts);
}

// Builder
//------------------------------------------------------------------------------
/// The codewords of one channel's data codewords `chunk`: split into the blocks of `ver` at
/// `ecl`, each block followed by its error correction codewords.
pub open spec fn channel_parts(chunk: Seq<u8>, ver: Version, ecl: ECLevel) -> Seq<(Seq<u8>, nat)> {
    let bl = ver.spec_blocks(ecl);
    Seq::new(
        (bl.1 + bl.3) as nat,
        |k: int|
            {
                let d = chunk.subrange(block_start(bl, k), block_start(bl, k) + block_size(bl, k));
                (d + rs_remainder(d, ver.spec_ecc_per_block(ecl)), block_size(bl, k) as nat)
            },
    )
}

/// The codewords of the first `n` channels of `data`, each channel `cap` data codewords,
/// interleaved channel by channel.
pub open spec fn channels_codewords(
    data: Seq<u8>,
    ver: Version,
    ecl: ECLevel,
    cap: int,
    n: int,
) -> Seq<u8>
    decreases n,
{
    if n <= 0 {
        Seq::empty()
    } else {
        channels_codewords(data, ver, ecl, cap, n - 1) + interleaved(
            channel_parts(data.subrange((n - 1) * cap, n * cap), ver, ecl),
        )
    }
}

/// Settings for a symbol, and the means to build it.
pub struct QRBuilder<'a> {
    data: &'a [u8],
    ver: Option<Version>,
    ecl: ECLevel,
    hi_cap: bool,
    mask: Option<MaskingPattern>,
}

impl<'a> QRBuilder<'a> {
    pub closed spec fn spec_data(&self) -> Seq<u8> {
        self.data@
    }

    pub closed spec fn spec_ver(&self) -> Option<Version> {
        self.ver
    }

    pub closed spec fn spec_ecl(&self) -> ECLevel {
        self.ecl
    }

    pub closed spec fn spec_hi_cap(&self) -> bool {
        self.hi_cap
    }

    pub closed spec fn spec_mask(&self) -> Option<MaskingPattern> {
        self.mask
    }

    /// A builder for `data`: version chosen to fit, level M, one channel, mask chosen by
    /// penalty.
    pub fn new(data: &'a [u8]) -> (r: Self)
        ensures
            r.spec_data() == data@,
            r.spec_ver() == None::<Version>,
            r.spec_ecl() == ECLevel::M,
            r.spec_hi_cap() == false,
            r.spec_mask() == None::<MaskingPattern>,
    {
        Self { data, ver: None, ecl: ECLevel::M, hi_cap: false, mask: None }
    }

    pub fn data(&mut self, data: &'a [u8]) -> (r: &mut Self)
        ensures
            r.spec_data() == data@,
            r.spec_ver() == old(self).spec_ver(),
            r.spec_ecl() == old(self).spec_ecl(),
            r.spec_hi_cap() == old(self).spec_hi_cap(),
            r.spec_mask() == old(self).spec_mask(),
            *final(self) == *final(r),
    {
        self.data = data;
        self
    }

    pub fn version(&mut self, ver: Version) -> (r: &mut Self)
        ensures
            r.spec_data() == old(self).spec_data(),
            r.spec_ver() == Some(ver),
            r.spec_ecl() == old(self).spec_ecl(),
            r.spec_hi_cap() == old(self).spec_hi_cap(),
            r.spec_mask() == old(self).spec_mask(),
            *final(self) == *final(r),
    {
        self.ver = Some(ver);
        self
    }

    pub fn unset_version(&mut self) -> (r: &mut Self)
        ensures
            r.spec_data() == old(self).spec_data(),
            r.spec_ver() == None::<Version>,
            r.spec_ecl() == old(self).spec_ecl(),
            r.spec_hi_cap() == old(self).spec_hi_cap(),
            r.spec_mask() == old(self).spec_mask(),
            *final(self) == *final(r),
    {
        self.ver = None;
        self
    }

    pub fn ec_level(&mut self, ecl: ECLevel) -> (r: &mut Self)
        ensures
            r.spec_data() == old(self).spec_data(),
            r.spec_ver() == old(self).spec_ver(),
            r.spec_ecl() == ecl,
            r.spec_hi_cap() == old(self).spec_hi_cap(),
            r.spec_mask() == old(self).spec_mask(),
            *final(self) == *final(r),
    {
        self.ecl = ecl;
        self
    }

    /// Whether to carry three channels of data in colour.
    pub fn high_capacity(&mut self, enabled: bool) -> (r: &mut Self)
        ensures
            r.spec_data() == old(self).spec_data(),
            r.spec_ver() == old(self).spec_ver(),
            r.spec_ecl() == old(self).spec_ecl(),
            r.spec_hi_cap() == enabled,
            r.spec_mask() == old(self).spec_mask(),
            *final(self) == *final(r),
    {
        self.hi_cap = enabled;
        self
    }

    pub fn mask(&mut self, mask: MaskingPattern) -> (r: &mut Self)
        ensures
            r.spec_data() == old(self).spec_data(),
            r.spec_ver() == old(self).spec_ver(),
            r.spec_ecl() == old(self).spec_ecl(),
            r.spec_hi_cap() == old(self).spec_hi_cap(),
            r.spec_mask() == Some(mask),
            *final(self) == *final(r),
    {
        self.mask = Some(mask);
        self
    }
}

impl<'a> QRBuilder<'a> {
    /// Writes the codewords of `blks`, interleaved, to `out`.
    pub fn interleave_into(blks: &[Block], out: &mut BitStream)
        requires
            blks@.len() > 0,
            forall|k: int| 0 <= k < blks@.len() ==> (#[trigger] blks@[k]).wf(),
            old(out).wf(),
            old(out).tail_clear(),
            old(out).has_room(8 * interleaved(block_parts(blks@)).len()),
        ensures
            final(out).wf(),
            final(out).tail_clear(),
            final(out).bits() == old(out).bits() + bytes_bits(interleaved(block_parts(blks@))),
            final(out).spec_len() == old(out).spec_len() + 8 * interleaved(block_parts(blks@)).len(),
            final(out).spec_capacity() == old(out).spec_capacity(),
            final(out).spec_cursor() == old(out).spec_cursor(),
    {
        let ghost parts = block_parts(blks@);
        let ghost bits0 = out.bits();
        let ghost len0 = out.spec_len();
        let ghost total = interleaved(parts);
        let n = blks.len();
        let mut max_len: usize = 0;
        let mut k: usize = 0;
        while k < n
            invariant
                n == blks@.len(),
                parts == block_parts(blks@),
                forall|t: int| 0 <= t < blks@.len() ==> (#[trigger] blks@[t]).wf(),
                k <= n,
                max_len == max_dlen(parts, k as int),
                max_len <= 256,
            decreases n - k,
        {
            let d = blks[k].data_len();
            assert(blks@[k as int].wf());
            if max_len < d {
                max_len = d;
            }
            k += 1;
        }
        let ghost dm = max_len as int;
        let mut i: usize = 0;
        while i < max_len
            invariant
                n == blks@.len(),
                n > 0,
                parts == block_parts(blks@),
                total == interleaved(parts),
                dm == max_len,
                dm == max_dlen(parts, n as int),
                forall|t: int| 0 <= t < blks@.len() ==> (#[trigger] blks@[t]).wf(),
                i <= max_len,
                out.wf(),
                out.tail_clear(),
                out.bits() == bits0 + bytes_bits(data_rows(parts, i as int)),
                out.spec_len() == len0 + 8 * data_rows(parts, i as int).len(),
                len0 + 8 * total.len() <= out.spec_capacity(),
                len0 + 8 * total.len() <= 8 * crate::bit_types::MAX_PAYLOAD_SIZE,
                out.spec_capacity() == old(out).spec_capacity(),
                out.spec_cursor() == old(out).spec_cursor(),
            decreases max_len - i,
        {
            let mut b: usize = 0;
            while b < n
                invariant
                    n == blks@.len(),
                    n > 0,
                    parts == block_parts(blks@),
                    total == interleaved(parts),
                    dm == max_len,
                    dm == max_dlen(parts, n as int),
                    forall|t: int| 0 <= t < blks@.len() ==> (#[trigger] blks@[t]).wf(),
                    i < max_len,
                    b <= n,
                    out.wf(),
                    out.tail_clear(),
                    out.bits() == bits0 + bytes_bits(
                        data_rows(parts, i as int) + data_column(parts, i as int, b as int),
                    ),
                    out.spec_len() == len0 + 8 * (data_rows(parts, i as int).len() + data_column(
                        parts,
                        i as int,
                        b as int,
                    ).len()),
                    len0 + 8 * total.len() <= out.spec_capacity(),
                    len0 + 8 * total.len() <= 8 * crate::bit_types::MAX_PAYLOAD_SIZE,
                    out.spec_capacity() == old(out).spec_capacity(),
                    out.spec_cursor() == old(out).spec_cursor(),
                decreases n - b,
            {
                let ghost prefix = data_rows(parts, i as int) + data_column(parts, i as int, b as int);
                let bl = &blks[b];
                assert(blks@[b as int].wf());
                let dat = bl.data();
                if i < dat.len() {
                    proof {
                        lemma_data_column_grow(parts, i as int, b + 1, n as int);
                        lemma_data_rows_grow(parts, i + 1, dm);
                        lemma_ecc_rows_grow(parts, 0, parts[0].0.len() - parts[0].1);
                        assert(data_rows(parts, i + 1) == data_rows(parts, i as int) + data_column(
                            parts,
                            i as int,
                            n as int,
                        ));
                        assert(parts[b as int] == (bl.codeword(), bl.dlen as nat));
                    }
                    let byte = dat[i];
                    out.push_byte(byte);
                    proof {
                        lemma_bytes_bits_push(prefix, byte);
                        assert(data_column(parts, i as int, b + 1) =~= data_column(
                            parts,
                            i as int,
                            b as int,
                        ).push(byte));
                        assert(prefix.push(byte) =~= data_rows(parts, i as int) + data_column(
                            parts,
                            i as int,
                            b + 1,
                        ));
                        assert(bits0 + bytes_bits(prefix) + int_bits(byte as nat, 8) =~= bits0
                            + bytes_bits(prefix.push(byte)));
                    }
                } else {
                    proof {
                        assert(parts[b as int] == (bl.codeword(), bl.dlen as nat));
                        assert(data_column(parts, i as int, b + 1) =~= data_column(
                            parts,
                            i as int,
                            b as int,
                        ));
                    }
                }
                b += 1;
            }
            proof {
                assert(data_rows(parts, i + 1) =~= data_rows(parts, i as int) + data_column(
                    parts,
                    i as int,
                    n as int,
                ));
            }
            i += 1;
        }
        let ghost dpart = data_rows(parts, dm);
        let ec_len = blks[0].ec_len();
        assert(blks@[0].wf());
        proof {
            assert(parts[0] == (blks@[0].codeword(), blks@[0].dlen as nat));
            assert(dpart + ecc_rows(parts, 0) =~= dpart);
        }
        let mut i: usize = 0;
        while i < ec_len
            invariant
                n == blks@.len(),
                n > 0,
                parts == block_parts(blks@),
                total == interleaved(parts),
                dpart == data_rows(parts, dm),
                ec_len == parts[0].0.len() - parts[0].1,
                total == dpart + ecc_rows(parts, ec_len as int),
                forall|t: int| 0 <= t < blks@.len() ==> (#[trigger] blks@[t]).wf(),
                i <= ec_len,
                out.wf(),
                out.tail_clear(),
                out.bits() == bits0 + bytes_bits(dpart + ecc_rows(parts, i as int)),
                out.spec_len() == len0 + 8 * (dpart.len() + ecc_rows(parts, i as int).len()),
                len0 + 8 * total.len() <= out.spec_capacity(),
                len0 + 8 * total.len() <= 8 * crate::bit_types::MAX_PAYLOAD_SIZE,
                out.spec_capacity() == old(out).spec_capacity(),
                out.spec_cursor() == old(out).spec_cursor(),
            decreases ec_len - i,
        {
            let mut b: usize = 0;
            while b < n
                invariant
                    n == blks@.len(),
                    n > 0,
                    parts == block_parts(blks@),
                    total == interleaved(parts),
                    dpart == data_rows(parts, dm),
                    ec_len == parts[0].0.len() - parts[0].1,
                    total == dpart + ecc_rows(parts, ec_len as int),
                    forall|t: int| 0 <= t < blks@.len() ==> (#[trigger] blks@[t]).wf(),
                    i < ec_len,
                    b <= n,
                    out.wf(),
                    out.tail_clear(),
                    out.bits() == bits0 + bytes_bits(
                        dpart + ecc_rows(parts, i as int) + ecc_column(parts, i as int, b as int),
                    ),
                    out.spec_len() == len0 + 8 * (dpart.len() + ecc_rows(parts, i as int).len()
                        + ecc_column(parts, i as int, b as int).len()),
                    len0 + 8 * total.len() <= out.spec_capacity(),
                    len0 + 8 * total.len() <= 8 * crate::bit_types::MAX_PAYLOAD_SIZE,
                    out.spec_capacity() == old(out).spec_capacity(),
                    out.spec_cursor() == old(out).spec_cursor(),
                decreases n - b,
            {
                let ghost prefix = dpart + ecc_rows(parts, i as int) + ecc_column(
                    parts,
                    i as int,
                    b as int,
                );
                let bl = &blks[b];
                assert(blks@[b as int].wf());
                let ecc = bl.ecc();
                if i < ecc.len() {
                    proof {
                        lemma_ecc_column_grow(parts, i as int, b + 1, n as int);
                        lemma_ecc_rows_grow(parts, i + 1, ec_len as int);
                        assert(ecc_rows(parts, i + 1) == ecc_rows(parts, i as int) + ecc_column(
                            parts,
                            i as int,
                            n as int,
                        ));
                        assert(parts[b as int] == (bl.codeword(), bl.dlen as nat));
                    }
                    let byte = ecc[i];
                    out.push_byte(byte);
                    proof {
                        lemma_bytes_bits_push(prefix, byte);
                        assert(ecc_column(parts, i as int, b + 1) =~= ecc_column(
                            parts,
                            i as int,
                            b as int,
                        ).push(byte));
                        assert(prefix.push(byte) =~= dpart + ecc_rows(parts, i as int) + ecc_column(
                            parts,
                            i as int,
                            b + 1,
                        ));
                        assert(bits0 + bytes_bits(prefix) + int_bits(byte as nat, 8) =~= bits0
                            + bytes_bits(prefix.push(byte)));
                    }
                } else {
                    proof {
                        assert(parts[b as int] == (bl.codeword(), bl.dlen as nat));
                        assert(ecc_column(parts, i as int, b + 1) =~= ecc_column(
                            parts,
                            i as int,
                            b as int,
                        ));
                    }
                }
                b += 1;
            }
            proof {
                assert(ecc_rows(parts, i + 1) =~= ecc_rows(parts, i as int) + ecc_column(
                    parts,
                    i as int,
                    n as int,
                ));
                assert(dpart + ecc_rows(parts, i + 1) =~= dpart + ecc_rows(parts, i as int)
                    + ecc_column(parts, i as int, n as int));
            }
            i += 1;
        }
    }
}

/// The name of a level, as `Debug` spells it.
pub open spec fn ec_level_name(ecl: ECLevel) -> Seq<char> {
    match ecl {
        ECLevel::L => "L"@,
        ECLevel::M => "M"@,
        ECLevel::Q => "Q"@,
        ECLevel::H => "H"@,
    }
}

/// The one-line summary of a builder's settings.
pub open spec fn builder_summary(ver: Option<Version>, ecl: ECLevel, hi_cap: bool) -> Seq<char> {
    "{ Version: "@ + match ver {
        Some(v) => decimal(v.num()),
        None => "None"@,
    } + ", Ec level: "@ + ec_level_name(ecl) + ", High Capacity: "@ + if hi_cap {
        "true"@
    } else {
        "false"@
    } + " }"@
}

/// The symbol that a builder with these settings builds for `data`, given the version it
/// settles on and an encoding `bs` of the data: the interleaved codewords of each channel
/// placed, then masked.
pub open spec fn builds(
    data: Seq<u8>,
    set_ver: Option<Version>,
    ecl: ECLevel,
    hi_cap: bool,
    set_mask: Option<MaskingPattern>,
    qr: QR,
    bs: BitStream,
) -> bool {
    let ver = qr.spec_ver();
    let w = ver.spec_width();
    let cap = ver.spec_channel_bit_capacity(ecl) / 8;
    let bytes = bs.bytes().subrange(0, (bs.spec_len() + 7) as int / 8);
    let cws = channels_codewords(bytes, ver, ecl, cap as int, bytes.len() as int / cap as int);
    let pre = unmasked_grid(ver, hi_cap, bytes_bits(cws));
    &&& ver is Normal
    &&& ver.valid()
    &&& (set_ver matches Some(v) ==> ver == v)
    &&& (set_ver is None ==> forall|v: usize|
        1 <= v < ver.num() ==> #[trigger] overflows(Version::Normal(v), ecl, hi_cap, data))
    &&& encodes(ver, ecl, hi_cap, data, bs)
    &&& qr.wf()
    &&& qr.spec_ecl() == ecl
    &&& qr.spec_hi_cap() == hi_cap
    &&& qr.spec_mask() is Some
    &&& qr.spec_grid() == masked_grid(pre, w, hi_cap, ecl, qr.spec_mask()->0.spec_value())
    &&& qr.spec_mask()->0.spec_value() < 8
    &&& (set_mask matches Some(m) ==> qr.spec_mask() == Some(m))
    &&& (set_mask is None ==> forall|m: nat|
        m < 8 ==> total_penalty(
            masked_grid(pre, w, hi_cap, ecl, qr.spec_mask()->0.spec_value()),
            w,
        ) <= #[trigger] total_penalty(masked_grid(pre, w, hi_cap, ecl, m), w))
    &&& (set_mask is None ==> forall|m: nat|
        m < qr.spec_mask()->0.spec_value() ==> total_penalty(
            masked_grid(pre, w, hi_cap, ecl, qr.spec_mask()->0.spec_value()),
            w,
        ) < #[trigger] total_penalty(masked_grid(pre, w, hi_cap, ecl, m), w))
}

proof fn lemma_bytes_bits_concat(a: Seq<u8>, b: Seq<u8>)
    ensures
        bytes_bits(a + b) == bytes_bits(a) + bytes_bits(b),
    decreases b.len(),
{
    if b.len() == 0 {
        assert(a + b =~= a);
        assert(bytes_bits(a) + bytes_bits(b) =~= bytes_bits(a));
    } else {
        lemma_bytes_bits_concat(a, b.drop_last());
        assert((a + b).drop_last() =~= a + b.drop_last());
        assert((a + b).last() == b.last());
        assert(bytes_bits(a) + bytes_bits(b) =~= bytes_bits(a) + bytes_bits(b.drop_last())
            + int_bits(b.last() as nat, 8));
    }
}

impl<'a> QRBuilder<'a> {
    /// One channel's data codewords split into the blocks of `ver` at `ecl`, each with its
    /// error correction codewords.
    #[verifier::rlimit(40)]
    pub fn blockify(data: &[u8], ver: Version, ecl: ECLevel) -> (r: Vec<Block>)
        requires
            ver.valid(),
            ver is Normal,
            data@.len() == ver.spec_channel_bit_capacity(ecl) / 8,
        ensures
            block_parts(r@) == channel_parts(data@, ver, ecl),
            forall|k: int| 0 <= k < r@.len() ==> (#[trigger] r@[k]).wf(),
    {
        let slices = crate::builder::ec::blockify(data, ver, ecl);
        let ec_len = ver.ecc_per_block(ecl);
        let ghost bl = ver.spec_blocks(ecl);
        let ghost parts = channel_parts(data@, ver, ecl);
        proof {
            lemma_normal_blocks(ver, ecl);
            assert forall|i: int| 0 <= i < slices@.len() implies (#[trigger] slices@[i])@.len()
                == block_size(bl, i) && slices@[i]@ + rs_remainder(slices@[i]@, ec_len as nat)
                == parts[i].0 && parts[i].1 == block_size(bl, i) by {
                crate::builder::ec::lemma_block_bounds(bl, i);
            }
        }
        let mut blks: Vec<Block> = Vec::new();
        let mut k: usize = 0;
        while k < slices.len()
            invariant
                slices@.len() == bl.1 + bl.3,
                parts == channel_parts(data@, ver, ecl),
                parts.len() == slices@.len(),
                bl == ver.spec_blocks(ecl),
                ec_len == ver.spec_ecc_per_block(ecl),
                1 <= ec_len <= 30,
                bl.0 + 1 + ec_len <= 256,
                bl.2 == 0 || bl.2 == bl.0 + 1,
                forall|i: int|
                    0 <= i < slices@.len() ==> (#[trigger] slices@[i])@.len() == block_size(bl, i)
                        && slices@[i]@ + rs_remainder(slices@[i]@, ec_len as nat) == parts[i].0
                        && parts[i].1 == block_size(bl, i),
                k <= slices@.len(),
                blks@.len() == k,
                forall|i: int|
                    0 <= i < k ==> (#[trigger] blks@[i]).wf() && blks@[i].codeword() == parts[i].0
                        && blks@[i].dlen == parts[i].1,
            decreases slices@.len() - k,
        {
            let d = slices[k];
            let blk = Block::new(d, d.len() + ec_len);
            blks.push(blk);
            k += 1;
        }
        proof {
            assert(block_parts(blks@) =~= parts);
        }
        blks
    }

    /// The number of erroneous codewords a symbol of `ver` at `ecl` can correct.
    pub fn ec_capacity(ver: Version, ecl: ECLevel) -> (r: usize)
        requires
            ver.valid(),
            ver is Normal,
        ensures
            r == ((ver.spec_blocks(ecl).1 + ver.spec_blocks(ecl).3) * ver.spec_ecc_per_block(ecl)
                - misdecode_reserve(ver, ecl)) / 2,
    {
        error_correction_capacity(ver, ecl)
    }

    /// A one-line summary of the settings.
    pub fn metadata(&self) -> (r: String)
        ensures
            r@ == builder_summary(self.spec_ver(), self.spec_ecl(), self.spec_hi_cap()),
    {
        let mut res = String::new();
        res.append("{ Version: ");
        match self.ver {
            Some(v) => push_decimal(&mut res, v.number()),
            None => res.append("None"),
        }
        res.append(", Ec level: ");
        let name = match self.ecl {
            ECLevel::L => "L",
            ECLevel::M => "M",
            ECLevel::Q => "Q",
            ECLevel::H => "H",
        };
        res.append(name);
        res.append(", High Capacity: ");
        if self.hi_cap {
            res.append("true");
        } else {
            res.append("false");
        }
        res.append(" }");
        proof {
            assert(res@ =~= builder_summary(self.spec_ver(), self.spec_ecl(), self.spec_hi_cap()));
        }
        res
    }

    /// Builds the symbol: encodes the data, adds error correction, interleaves, places the
    /// codewords and masks, with the mask of least penalty unless one is set. The mask used
    /// is recorded in the builder.
    #[verifier::rlimit(60)]
    #[verifier::spinoff_prover]
    pub fn build(&mut self) -> (r: QRResult<QR>)
        requires
            old(self).spec_ver() matches Some(v) ==> v.valid() && v is Normal,
        ensures
            final(self).spec_data() == old(self).spec_data(),
            final(self).spec_ver() == old(self).spec_ver(),
            final(self).spec_ecl() == old(self).spec_ecl(),
            final(self).spec_hi_cap() == old(self).spec_hi_cap(),
            match r {
                Ok(qr) => {
                    &&& old(self).spec_data().len() > 0
                    &&& final(self).spec_mask() == qr.spec_mask()
                    &&& exists|bs: BitStream|
                        #[trigger] builds(
                            old(self).spec_data(),
                            old(self).spec_ver(),
                            old(self).spec_ecl(),
                            old(self).spec_hi_cap(),
                            old(self).spec_mask(),
                            qr,
                            bs,
                        )
                },
                Err(e) => {
                    &&& final(self).spec_mask() == old(self).spec_mask()
                    &&& (old(self).spec_data().len() == 0 <==> e == QRError::EmptyData)
                    &&& e == QRError::EmptyData || e == QRError::DataTooLong
                    &&& e == QRError::DataTooLong ==> (match old(self).spec_ver() {
                        Some(v) => old(self).spec_data().len() > v.spec_data_bit_capacity(
                            old(self).spec_ecl(),
                            old(self).spec_hi_cap(),
                        ) || overflows(
                            v,
                            old(self).spec_ecl(),
                            old(self).spec_hi_cap(),
                            old(self).spec_data(),
                        ),
                        None => old(self).spec_data().len() > Version::Normal(
                            40,
                        ).spec_data_bit_capacity(old(self).spec_ecl(), old(self).spec_hi_cap())
                            || forall|v: usize|
                            1 <= v <= 40 ==> #[trigger] overflows(
                                Version::Normal(v),
                                old(self).spec_ecl(),
                                old(self).spec_hi_cap(),
                                old(self).spec_data(),
                            ),
                    })
                },
            },
    {
        if self.data.len() == 0 {
            return Err(QRError::EmptyData);
        }
        let ecl = self.ecl;
        let hi_cap = self.hi_cap;
        let (enc, ver) = match self.ver {
            Some(v) => match encode_with_version(self.data, v, ecl, hi_cap) {
                Ok(bs) => (bs, v),
                Err(e) => {
                    return Err(e);
                },
            },
            None => match encode(self.data, ecl, hi_cap) {
                Ok(p) => p,
                Err(e) => {
                    return Err(e);
                },
            },
        };
        proof {
            lemma_normal_capacity(ver, ecl);
            enc.lemma_wf_facts();
        }
        let data = enc.data();
        let ghost cap: int = (ver.spec_channel_bit_capacity(ecl) / 8) as int;
        let ghost nch: int = if hi_cap {
            3
        } else {
            1
        };
        proof {
            assert(ver.spec_data_bit_capacity(ecl, hi_cap) == nch * (cap * 8));
            assert((nch * (cap * 8) + 7) / 8 == nch * cap);
            assert(data@.len() == nch * cap);
            assert(cap > 0);
            assert(data@.len() as int / cap == nch) by (nonlinear_arith)
                requires
                    data@.len() == nch * cap,
                    cap > 0,
            ;
        }
        let pld = Self::codewords_payload(data, ver, ecl, hi_cap);
        proof {
            pld.lemma_wf_facts();
            assert(pld.unread() =~= pld.bits());
        }
        let qr = Self::draw_symbol(ver, ecl, hi_cap, pld, self.mask);
        self.mask = qr.mask();
        proof {
            assert(builds(
                old(self).spec_data(),
                old(self).spec_ver(),
                ecl,
                hi_cap,
                old(self).spec_mask(),
                qr,
                enc,
            ));
            assert(ecl == old(self).spec_ecl());
            assert(hi_cap == old(self).spec_hi_cap());
            assert(builds(
                old(self).spec_data(),
                old(self).spec_ver(),
                old(self).spec_ecl(),
                old(self).spec_hi_cap(),
                old(self).spec_mask(),
                qr,
                enc,
            ));
            assert(exists|bs: BitStream|
                #[trigger] builds(
                    old(self).spec_data(),
                    old(self).spec_ver(),
                    old(self).spec_ecl(),
                    old(self).spec_hi_cap(),
                    old(self).spec_mask(),
                    qr,
                    bs,
                ));
        }
        Ok(qr)
    }

    /// The interleaved codewords of each channel of the data codewords `data`, with their
    /// error correction codewords, as a payload.
    fn codewords_payload(data: &[u8], ver: Version, ecl: ECLevel, hi_cap: bool) -> (pld: BitStream)
        requires
            ver.valid(),
            ver is Normal,
            data@.len() == (if hi_cap {
                3int
            } else {
                1int
            }) * (ver.spec_channel_bit_capacity(ecl) / 8),
        ensures
            pld.wf(),
            pld.spec_cursor() == 0,
            pld.spec_len() / 8 == (if hi_cap {
                3int
            } else {
                1int
            }) * ver.spec_channel_codewords(),
            pld.bits() == bytes_bits(
                channels_codewords(
                    data@,
                    ver,
                    ecl,
                    (ver.spec_channel_bit_capacity(ecl) / 8) as int,
                    if hi_cap {
                        3int
                    } else {
                        1int
                    },
                ),
            ),
    {
        proof {
            lemma_normal_blocks(ver, ecl);
            lemma_normal_capacity(ver, ecl);
        }
        let tot_cwds = ver.total_codewords(hi_cap);
        let chan_data_cap = ver.channel_data_capacity(ecl);
        let ghost cc = ver.spec_channel_codewords();
        let ghost nch: int = if hi_cap {
            3
        } else {
            1
        };
        let ghost cap = chan_data_cap as int;
        proof {
            assert(tot_cwds == nch * cc);
            assert(cc <= 5386);
        }
        let mut pld = BitStream::new(tot_cwds * 8);
        let n: usize = if hi_cap {
            3
        } else {
            1
        };
        let mut k: usize = 0;
        while k < n
            invariant
                n == nch,
                1 <= nch <= 3,
                cap == chan_data_cap,
                data@.len() == nch * cap,
                cap == ver.spec_channel_bit_capacity(ecl) / 8,
                cap > 0,
                cap <= 2956,
                ver.valid(),
                ver is Normal,
                cc == ver.spec_channel_codewords(),
                cc <= 5386,
                tot_cwds == nch * cc,
                k <= n,
                pld.wf(),
                pld.tail_clear(),
                pld.spec_cursor() == 0,
                pld.spec_capacity() == tot_cwds * 8,
                pld.bits() == bytes_bits(channels_codewords(data@, ver, ecl, cap, k as int)),
                pld.spec_len() == 8 * (k * cc),
            decreases n - k,
        {
            proof {
                assert((k + 1) * cap <= nch * cap) by (nonlinear_arith)
                    requires
                        k + 1 <= nch,
                        cap > 0,
                ;
                assert(k * cap + cap == (k + 1) * cap) by (nonlinear_arith);
                assert(0 <= k * cap) by (nonlinear_arith)
                    requires
                        0 <= k,
                        0 <= cap,
                ;
                assert(nch * cap <= 3 * 2956) by (nonlinear_arith)
                    requires
                        nch <= 3,
                        0 <= cap <= 2956,
                ;
            }
            let start = k * chan_data_cap;
            let chunk = &data[start..start + chan_data_cap];
            let ghost parts = channel_parts(chunk@, ver, ecl);
            proof {
                lemma_channel_parts(chunk@, ver, ecl);
                assert((k + 1) * cc == k * cc + cc) by (nonlinear_arith);
                assert((k + 1) * cc <= nch * cc) by (nonlinear_arith)
                    requires
                        k + 1 <= nch,
                        cc >= 0,
                ;
            }
            let blks = Self::blockify(chunk, ver, ecl);
            Self::interleave_into(blks.as_slice(), &mut pld);
            proof {
                assert(chunk@ == data@.subrange(k * cap, (k + 1) * cap));
                lemma_bytes_bits_concat(
                    channels_codewords(data@, ver, ecl, cap, k as int),
                    interleaved(parts),
                );
            }
            k += 1;
        }
        pld
    }

    /// Draws the symbol of `ver` for the payload `pld` and masks it with `mask`, or with the
    /// mask of least penalty.
    fn draw_symbol(
        ver: Version,
        ecl: ECLevel,
        hi_cap: bool,
        pld: BitStream,
        mask: Option<MaskingPattern>,
    ) -> (qr: QR)
        requires
            ver.valid(),
            ver is Normal,
            pld.wf(),
            hi_cap ==> pld.spec_len() / 8 == 3 * ver.spec_channel_codewords(),
        ensures
            qr.wf(),
            qr.spec_ver() == ver,
            qr.spec_ecl() == ecl,
            qr.spec_hi_cap() == hi_cap,
            qr.spec_mask() is Some,
            qr.spec_mask()->0.spec_value() < 8,
            mask matches Some(m) ==> qr.spec_mask() == Some(m),
            qr.spec_grid() == masked_grid(
                unmasked_grid(ver, hi_cap, pld.unread()),
                ver.spec_width(),
                hi_cap,
                ecl,
                qr.spec_mask()->0.spec_value(),
            ),
            mask is None ==> forall|m: nat|
                m < 8 ==> total_penalty(
                    masked_grid(
                        unmasked_grid(ver, hi_cap, pld.unread()),
                        ver.spec_width(),
                        hi_cap,
                        ecl,
                        qr.spec_mask()->0.spec_value(),
                    ),
                    ver.spec_width(),
                ) <= #[trigger] total_penalty(
                    masked_grid(unmasked_grid(ver, hi_cap, pld.unread()), ver.spec_width(), hi_cap, ecl, m),
                    ver.spec_width(),
                ),
            mask is None ==> forall|m: nat|
                m < qr.spec_mask()->0.spec_value() ==> total_penalty(
                    masked_grid(
                        unmasked_grid(ver, hi_cap, pld.unread()),
                        ver.spec_width(),
                        hi_cap,
                        ecl,
                        qr.spec_mask()->0.spec_value(),
                    ),
                    ver.spec_width(),
                ) < #[trigger] total_penalty(
                    masked_grid(unmasked_grid(ver, hi_cap, pld.unread()), ver.spec_width(), hi_cap, ecl, m),
                    ver.spec_width(),
                ),
    {
        let mut qr = QR::new(ver, ecl, hi_cap);
        qr.draw_all_function_patterns();
        let ghost w = qr.spec_w();
        proof {
            let fg = function_grid(ver);
            assert forall|r: int, c: int| 0 <= r < w && 0 <= c < w implies #[trigger] crate::builder::qr::cell(
                qr.spec_grid(),
                w,
                r,
                c,
            ) == crate::builder::qr::cell(fg, w, r, c) by {
                lemma_cell_div_mod(w, r, c);
                crate::builder::qr::lemma_cell_in_range(w, r, c);
            }
            lemma_grid_ext(qr.spec_grid(), fg, w);
            if hi_cap {
                lemma_region_start_writable(ver);
            }
        }
        let ghost bits = pld.unread();
        qr.draw_encoding_region(pld);
        let ghost pre = qr.spec_grid();
        proof {
            assert(function_grid(ver) == Seq::new(
                (w * w) as nat,
                |i: int| crate::builder::qr::function_module(ver, w, i / w, i % w, Module::Empty),
            ));
            assert(pre == unmasked_grid(ver, hi_cap, bits));
        }
        let ghost q1 = qr;
        match mask {
            Some(m) => {
                qr.apply_mask(m);
            },
            None => {
                let best = apply_best_mask(&mut qr);
                proof {
                    assert forall|m: nat| m < 8 implies total_penalty(
                        masked_grid(pre, w, hi_cap, ecl, best.spec_value()),
                        w,
                    ) <= #[trigger] total_penalty(masked_grid(pre, w, hi_cap, ecl, m), w) by {
                        assert(mask_penalty(&q1, m) == total_penalty(
                            masked_grid(pre, w, hi_cap, ecl, m),
                            w,
                        ));
                    }
                    assert forall|m: nat| m < best.spec_value() implies total_penalty(
                        masked_grid(pre, w, hi_cap, ecl, best.spec_value()),
                        w,
                    ) < #[trigger] total_penalty(masked_grid(pre, w, hi_cap, ecl, m), w) by {
                        assert(mask_penalty(&q1, m) == total_penalty(
                            masked_grid(pre, w, hi_cap, ecl, m),
                            w,
                        ));
                    }
                }
            },
        }
        qr
    }
}

} // verus!
