//! Reading a symbol back: undoing the interleaving of codewords.
use crate::builder::ec::{block_size, block_start};
use crate::builder::{channel_parts, data_column, data_rows, interleaved, max_dlen};
use crate::metadata::{lemma_normal_blocks, lemma_normal_capacity, ECLevel, Version};
use vstd::prelude::*;

verus! {

/// The codewords of block `b` once `data` is split back into blocks of the given sizes and
/// counts: one codeword from each round of the first part, in which every block takes one,
/// then, for the longer blocks of the second group, one from each round of the rest.
pub open spec fn deinterleaved_block(data: Seq<u8>, blocks: (usize, usize, usize, usize), b: int) -> Seq<
    u8,
> {
    let (s1, c1, s2, c2) = blocks;
    let total = c1 + c2;
    let partition = s1 * total;
    Seq::new(s1 as nat, |k: int| data[k * total + b]) + if b >= c1 {
        Seq::new((s2 - s1) as nat, |q: int| data[partition + q * c2 + (b - c1)])
    } else {
        Seq::empty()
    }
}

/// The shapes of block groups that splitting accepts: all the codewords accounted for, at
/// least one block in the second group, which is not shorter than the first.
pub open spec fn deinterleavable(len: nat, blocks: (usize, usize, usize, usize)) -> bool {
    let (s1, c1, s2, c2) = blocks;
    &&& len == s1 * c1 + s2 * c2
    &&& c2 >= 1
    &&& s1 <= s2
    &&& c1 + c2 <= usize::MAX
}

/// Reads symbols.
pub struct QRReader();

impl QRReader {
    /// Splits interleaved data codewords back into their blocks: `blocks` gives the size and
    /// count of the blocks of each of the two groups.
    pub fn deinterleave(data: &[u8], blocks: (usize, usize, usize, usize)) -> (res: Vec<Vec<u8>>)
        requires
            deinterleavable(data@.len(), blocks),
        ensures
            res@.len() == blocks.1 + blocks.3,
            forall|b: int|
                0 <= b < res@.len() ==> (#[trigger] res@[b])@ == deinterleaved_block(
                    data@,
                    blocks,
                    b,
                ),
    {
        let (block1_size, block1_count, block2_size, block2_count) = blocks;
        let len = data.len();
        proof {
            lemma_shape(data@.len(), blocks);
        }
        let total_blocks = block1_count + block2_count;
        let partition = block1_size * total_blocks;
        let extra = block2_size - block1_size;
        let mut res: Vec<Vec<u8>> = Vec::new();
        let mut b: usize = 0;
        while b < total_blocks
            invariant
                (block1_size, block1_count, block2_size, block2_count) == blocks,
                deinterleavable(data@.len(), blocks),
                total_blocks == block1_count + block2_count,
                partition == block1_size * total_blocks,
                extra == block2_size - block1_size,
                partition + extra * block2_count == data@.len(),
                len == data@.len(),
                b <= total_blocks,
                res@.len() == b,
                forall|t: int|
                    0 <= t < b ==> (#[trigger] res@[t])@ == deinterleaved_block(data@, blocks, t),
            decreases total_blocks - b,
        {
            let mut blk: Vec<u8> = Vec::new();
            let mut k: usize = 0;
            while k < block1_size
                invariant
                    (block1_size, block1_count, block2_size, block2_count) == blocks,
                    total_blocks == block1_count + block2_count,
                    partition == block1_size * total_blocks,
                    partition <= data@.len(),
                    b < total_blocks,
                    k <= block1_size,
                    blk@ == Seq::new(k as nat, |j: int| data@[j * total_blocks + b]),
                decreases block1_size - k,
            {
                proof {
                    assert(k * total_blocks + b < partition) by (nonlinear_arith)
                        requires
                            k < block1_size,
                            b < total_blocks,
                            partition == block1_size * total_blocks,
                    ;
                }
                blk.push(data[k * total_blocks + b]);
                k += 1;
                proof {
                    assert(blk@ =~= Seq::new(k as nat, |j: int| data@[j * total_blocks + b]));
                }
            }
            let ghost first = blk@;
            if b >= block1_count {
                let mut q: usize = 0;
                while q < extra
                    invariant
                        (block1_size, block1_count, block2_size, block2_count) == blocks,
                        total_blocks == block1_count + block2_count,
                        partition + extra * block2_count == data@.len(),
                        len == data@.len(),
                        block1_count <= b < total_blocks,
                        q <= extra,
                        blk@ == first + Seq::new(
                            q as nat,
                            |j: int| data@[partition + j * block2_count + (b - block1_count)],
                        ),
                    decreases extra - q,
                {
                    proof {
                        assert(q * block2_count + (b - block1_count) < extra * block2_count) by (
                        nonlinear_arith)
                            requires
                                q < extra,
                                b - block1_count < block2_count,
                        ;
                    }
                    blk.push(data[partition + q * block2_count + (b - block1_count)]);
                    q += 1;
                    proof {
                        assert(blk@ =~= first + Seq::new(
                            q as nat,
                            |j: int| data@[partition + j * block2_count + (b - block1_count)],
                        ));
                    }
                }
            }
            proof {
                assert(blk@ =~= deinterleaved_block(data@, blocks, b as int));
            }
            let ghost old_res = res@;
            res.push(blk);
            proof {
                assert forall|t: int| 0 <= t < b + 1 implies (#[trigger] res@[t])@
                    == deinterleaved_block(data@, blocks, t) by {
                    if t < b {
                        assert(res@[t] == old_res[t]);
                    }
                }
            }
            b += 1;
        }
        res
    }
}

/// The shape facts that splitting relies on.
proof fn lemma_shape(len: nat, blocks: (usize, usize, usize, usize))
    requires
        deinterleavable(len, blocks),
    ensures
        ({
            let (s1, c1, s2, c2) = blocks;
            &&& s1 * (c1 + c2) + (s2 - s1) * c2 == len
            &&& 0 <= s1 * (c1 + c2) <= len
            &&& 0 <= (s2 - s1) * c2
        }),
{
    let (s1, c1, s2, c2) = blocks;
    assert(s1 * (c1 + c2) + (s2 - s1) * c2 == s1 * c1 + s2 * c2) by (nonlinear_arith);
    assert(0 <= (s2 - s1) * c2) by (nonlinear_arith)
        requires
            s1 <= s2,
            0 <= c2,
    ;
    assert(0 <= s1 * (c1 + c2)) by (nonlinear_arith)
        requires
            0 <= s1,
            0 <= c1 + c2,
    ;
}

/// Column `i` of the first `n` blocks when all of them have more than `i` data codewords.
proof fn lemma_full_column(parts: Seq<(Seq<u8>, nat)>, i: int, n: int)
    requires
        0 <= n <= parts.len(),
        forall|b: int| 0 <= b < n ==> i < #[trigger] parts[b].1,
    ensures
        data_column(parts, i, n) == Seq::new(n as nat, |b: int| parts[b].0[i]),
    decreases n,
{
    if n > 0 {
        lemma_full_column(parts, i, n - 1);
        assert(data_column(parts, i, n) =~= Seq::new(n as nat, |b: int| parts[b].0[i]));
    }
}

/// Column `i` of the first `n` blocks when exactly the blocks from `c1` on have more than `i`
/// data codewords.
proof fn lemma_tail_column(parts: Seq<(Seq<u8>, nat)>, i: int, c1: int, n: int)
    requires
        0 <= c1 <= n <= parts.len(),
        forall|b: int| 0 <= b < parts.len() ==> (i < #[trigger] parts[b].1 <==> b >= c1),
    ensures
        data_column(parts, i, n) == Seq::new((n - c1) as nat, |q: int| parts[c1 + q].0[i]),
    decreases n,
{
    if n > c1 {
        lemma_tail_column(parts, i, c1, n - 1);
        assert(data_column(parts, i, n) =~= Seq::new(
            (n - c1) as nat,
            |q: int| parts[c1 + q].0[i],
        ));
    } else {
        lemma_short_column(parts, i, n);
    }
}

/// No block among the first `n` has a data codeword in column `i`.
proof fn lemma_short_column(parts: Seq<(Seq<u8>, nat)>, i: int, n: int)
    requires
        0 <= n <= parts.len(),
        forall|b: int| 0 <= b < n ==> !(i < #[trigger] parts[b].1),
    ensures
        data_column(parts, i, n) == Seq::<u8>::empty(),
    decreases n,
{
    if n > 0 {
        lemma_short_column(parts, i, n - 1);
    }
}

/// The first `m` data columns of blocks that all have at least `m` data codewords: the
/// `k`-th codeword of block `b` sits at `k * n + b`.
proof fn lemma_full_rows(parts: Seq<(Seq<u8>, nat)>, m: int)
    requires
        0 <= m,
        forall|b: int| 0 <= b < parts.len() ==> m <= #[trigger] parts[b].1,
    ensures
        data_rows(parts, m).len() == m * parts.len(),
        forall|k: int, b: int|
            0 <= k < m && 0 <= b < parts.len() ==> data_rows(parts, m)[k * parts.len() + b]
                == #[trigger] parts[b].0[k],
    decreases m,
{
    let n = parts.len() as int;
    if m > 0 {
        lemma_full_rows(parts, m - 1);
        lemma_full_column(parts, m - 1, n);
        assert((m - 1) * n + n == m * n) by (nonlinear_arith);
        assert forall|k: int, b: int| 0 <= k < m && 0 <= b < n implies data_rows(parts, m)[k * n
            + b] == #[trigger] parts[b].0[k] by {
            if k < m - 1 {
                assert(k * n + b < (m - 1) * n) by (nonlinear_arith)
                    requires
                        0 <= k < m - 1,
                        0 <= b < n,
                ;
            } else {
                assert(k * n + b - (m - 1) * n == b) by (nonlinear_arith)
                    requires
                        k == m - 1,
                ;
            }
        }
    }
}

proof fn lemma_max_dlen_value(parts: Seq<(Seq<u8>, nat)>, n: int, v: nat)
    requires
        0 < n <= parts.len(),
        forall|b: int| 0 <= b < n ==> #[trigger] parts[b].1 <= v,
        parts[n - 1].1 == v,
    ensures
        max_dlen(parts, n) == v,
{
    lemma_max_dlen_bound(parts, n, v);
}

proof fn lemma_max_dlen_bound(parts: Seq<(Seq<u8>, nat)>, n: int, v: nat)
    requires
        0 <= n <= parts.len(),
        forall|b: int| 0 <= b < n ==> #[trigger] parts[b].1 <= v,
    ensures
        max_dlen(parts, n) <= v,
    decreases n,
{
    if n > 0 {
        lemma_max_dlen_bound(parts, n - 1, v);
    }
}

/// Block `b` comes back whole from data codewords laid out column by column.
proof fn lemma_block_back(
    parts: Seq<(Seq<u8>, nat)>,
    d: Seq<u8>,
    bl: (usize, usize, usize, usize),
    blk: Seq<u8>,
    b: int,
)
    requires
        ({
            let (s1, c1, s2, c2) = bl;
            let n = c1 + c2;
            &&& s2 == s1 + 1
            &&& parts.len() == n
            &&& 0 <= b < n
            &&& d.len() == s1 * n + c2
            &&& forall|k: int, t: int|
                0 <= k < s1 && 0 <= t < n ==> d[k * n + t] == #[trigger] parts[t].0[k]
            &&& forall|q: int| 0 <= q < c2 ==> d[s1 * n + q] == #[trigger] parts[c1 + q].0[s1 as int]
            &&& blk == parts[b].0.subrange(0, parts[b].1 as int)
            &&& parts[b].1 == if b < c1 {
                s1
            } else {
                s2
            }
            &&& parts[b].1 <= parts[b].0.len()
        }),
    ensures
        deinterleaved_block(d, bl, b) == blk,
{
    let (s1, c1, s2, c2) = bl;
    let n = (c1 + c2) as int;
    assert forall|k: int| 0 <= k < s1 implies d[k * n + b] == blk[k] by {
        assert(parts[b].0[k] == blk[k]);
    }
    let first = Seq::new(s1 as nat, |k: int| d[k * n + b]);
    assert(first =~= blk.take(s1 as int));
    if b >= c1 {
        let q = b - c1;
        assert(d[s1 * n + q] == parts[c1 + q].0[s1 as int]);
        assert(c1 + q == b);
        assert(parts[b].0[s1 as int] == blk[s1 as int]);
        let rest = Seq::new((s2 - s1) as nat, |j: int| d[s1 * n + j * c2 + (b - c1)]);
        assert(rest =~= seq![blk[s1 as int]]);
        assert(blk =~= blk.take(s1 as int) + seq![blk[s1 as int]]);
        assert(deinterleaved_block(d, bl, b) == first + rest);
    } else {
        assert(blk =~= blk.take(s1 as int));
        assert(deinterleaved_block(d, bl, b) =~= first);
    }
}

/// Splitting the interleaved data codewords of a channel back into blocks gives each block
/// its own data codewords: splitting undoes interleaving, for every channel whose blocks
/// come in two groups.
pub proof fn lemma_deinterleave_interleaved(chunk: Seq<u8>, ver: Version, ecl: ECLevel)
    requires
        ver.valid(),
        ver is Normal,
        chunk.len() == ver.spec_channel_bit_capacity(ecl) / 8,
        ver.spec_blocks(ecl).3 >= 1,
    ensures
        ({
            let bl = ver.spec_blocks(ecl);
            let d = interleaved(channel_parts(chunk, ver, ecl)).take(chunk.len() as int);
            &&& deinterleavable(d.len(), bl)
            &&& forall|b: int|
                0 <= b < bl.1 + bl.3 ==> #[trigger] deinterleaved_block(d, bl, b)
                    == chunk.subrange(block_start(bl, b), block_start(bl, b) + block_size(bl, b))
        }),
{
    let bl = ver.spec_blocks(ecl);
    let (s1, c1, s2, c2) = bl;
    let parts = channel_parts(chunk, ver, ecl);
    let n = (c1 + c2) as int;
    lemma_normal_blocks(ver, ecl);
    lemma_normal_capacity(ver, ecl);
    crate::builder::lemma_channel_parts(chunk, ver, ecl);
    assert forall|b: int| 0 <= b < n implies #[trigger] parts[b].1 == block_size(bl, b)
        && parts[b].0.subrange(0, parts[b].1 as int) == chunk.subrange(
        block_start(bl, b),
        block_start(bl, b) + block_size(bl, b),
    ) by {
        crate::builder::ec::lemma_block_bounds(bl, b);
        let d = chunk.subrange(block_start(bl, b), block_start(bl, b) + block_size(bl, b));
        assert(parts[b].0.subrange(0, parts[b].1 as int) =~= d);
    }
    lemma_max_dlen_value(parts, n, s2 as nat);
    lemma_layout(parts, bl);
    let d = interleaved(parts).take(chunk.len() as int);
    assert forall|b: int| 0 <= b < n implies #[trigger] deinterleaved_block(d, bl, b)
        == chunk.subrange(block_start(bl, b), block_start(bl, b) + block_size(bl, b)) by {
        lemma_block_back(
            parts,
            d,
            bl,
            chunk.subrange(block_start(bl, b), block_start(bl, b) + block_size(bl, b)),
            b,
        );
    }
}

/// Where the data codewords of blocks in two groups, the second one codeword longer, land
/// once interleaved.
proof fn lemma_layout(parts: Seq<(Seq<u8>, nat)>, bl: (usize, usize, usize, usize))
    requires
        ({
            let (s1, c1, s2, c2) = bl;
            &&& s2 == s1 + 1
            &&& c2 >= 1
            &&& parts.len() == c1 + c2
            &&& max_dlen(parts, parts.len() as int) == s2
            &&& forall|b: int|
                0 <= b < parts.len() ==> #[trigger] parts[b].1 == if b < c1 {
                    s1
                } else {
                    s2
                }
        }),
    ensures
        ({
            let (s1, c1, s2, c2) = bl;
            let n = c1 + c2;
            let d = interleaved(parts).take(s1 * c1 + s2 * c2);
            &&& d.len() == s1 * n + c2
            &&& forall|k: int, t: int|
                0 <= k < s1 && 0 <= t < n ==> d[k * n + t] == #[trigger] parts[t].0[k]
            &&& forall|q: int|
                0 <= q < c2 ==> d[s1 * n + q] == #[trigger] parts[c1 + q].0[s1 as int]
        }),
{
    let (s1, c1, s2, c2) = bl;
    let n = (c1 + c2) as int;
    lemma_full_rows(parts, s1 as int);
    lemma_tail_column(parts, s1 as int, c1 as int, n);
    let rows1 = data_rows(parts, s1 as int);
    let col = data_column(parts, s1 as int, n);
    let rows = data_rows(parts, s2 as int);
    assert(rows == rows1 + col);
    assert(s1 * n + c2 == s1 * c1 + s2 * c2) by (nonlinear_arith)
        requires
            s2 == s1 + 1,
            n == c1 + c2,
    ;
    let d = interleaved(parts).take(s1 * c1 + s2 * c2);
    assert(d =~= rows);
    assert forall|k: int, t: int| 0 <= k < s1 && 0 <= t < n implies d[k * n + t]
        == #[trigger] parts[t].0[k] by {
        assert(k * n + t < s1 * n) by (nonlinear_arith)
            requires
                0 <= k < s1,
                0 <= t < n,
        ;
    }
    assert forall|q: int| 0 <= q < c2 implies d[s1 * n + q] == #[trigger] parts[c1 + q].0[s1 as int] by {
        assert(d[s1 * n + q] == col[q]);
    }
}

} // verus!
