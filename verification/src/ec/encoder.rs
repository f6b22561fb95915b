//! Error correction codewords: the remainder of the data by the generator polynomial.
use crate::ec::galois::{gf_mul, gf_pow, G};
use vstd::prelude::*;

verus! {

/// The generator polynomial of `n` error correction codewords, `(x + a^0)(x + a^1)...`,
/// lowest coefficient first.
pub open spec fn gen_poly(n: nat) -> Seq<u8>
    decreases n,
{
    if n == 0 {
        seq![1u8]
    } else {
        let p = gen_poly((n - 1) as nat);
        let c = gf_pow(2, (n - 1) as nat);
        Seq::new(
            n + 1,
            |i: int|
                (if i >= 1 {
                    p[i - 1]
                } else {
                    0u8
                }) ^ (if i < n {
                    gf_mul(c, p[i])
                } else {
                    0u8
                }),
        )
    }
}

/// One step of long division: cancels the coefficient at `i` with a multiple of the divisor,
/// whose coefficients after the leading one are `gh`, highest first.
pub open spec fn eliminate(res: Seq<u8>, gh: Seq<u8>, i: int) -> Seq<u8> {
    Seq::new(
        res.len(),
        |k: int|
            if i + 1 <= k < i + 1 + gh.len() {
                res[k] ^ gf_mul(res[i], gh[k - i - 1])
            } else {
                res[k]
            },
    )
}

/// Long division from position `i` up to `len`.
pub open spec fn divide_from(res: Seq<u8>, gh: Seq<u8>, i: nat, len: nat) -> Seq<u8>
    decreases len - i,
{
    if i >= len {
        res
    } else {
        divide_from(eliminate(res, gh, i as int), gh, i + 1, len)
    }
}

/// The coefficients of a polynomial, highest first, after its leading one.
pub open spec fn high_tail(g: Seq<u8>) -> Seq<u8> {
    Seq::new((g.len() - 1) as nat, |j: int| g[g.len() - 2 - j])
}

/// The remainder of `block * x^n` divided by the generator polynomial of degree `n`: the error
/// correction codewords of the block.
pub open spec fn rs_remainder(block: Seq<u8>, n: nat) -> Seq<u8> {
    divide_from(block + Seq::new(n, |i: int| 0u8), high_tail(gen_poly(n)), 0, block.len()).skip(
        block.len() as int,
    )
}

/// Long division keeps the length of what it divides.
pub proof fn lemma_divide_from_len(res: Seq<u8>, gh: Seq<u8>, i: nat, len: nat)
    ensures
        divide_from(res, gh, i, len).len() == res.len(),
    decreases len - i,
{
    if i < len {
        lemma_divide_from_len(eliminate(res, gh, i as int), gh, i + 1, len);
    }
}

/// There are `n` error correction codewords.
pub proof fn lemma_rs_remainder_len(block: Seq<u8>, n: nat)
    ensures
        rs_remainder(block, n).len() == n,
{
    lemma_divide_from_len(
        block + Seq::new(n, |i: int| 0u8),
        high_tail(gen_poly(n)),
        0,
        block.len(),
    );
}

/// The generator polynomial of `n` error correction codewords, lowest coefficient first.
pub fn generator_polynomial(n: usize) -> (r: Vec<u8>)
    requires
        n < 256,
    ensures
        r@ == gen_poly(n as nat),
{
    let mut p: Vec<u8> = vec![1u8];
    let mut k: usize = 0;
    proof {
        assert(p@ =~= gen_poly(0));
    }
    while k < n
        invariant
            k <= n < 256,
            p@ == gen_poly(k as nat),
            p@.len() == k + 1,
        decreases n - k,
    {
        let c = G::gen_pow(k);
        let mut q: Vec<u8> = Vec::new();
        let mut i: usize = 0;
        while i <= k + 1
            invariant
                i <= k + 2,
                k < 256,
                p@ == gen_poly(k as nat),
                p@.len() == k + 1,
                c.0 == gf_pow(2, k as nat),
                q@.len() == i,
                forall|t: int|
                    0 <= t < i ==> #[trigger] q@[t] == (if t >= 1 {
                        p@[t - 1]
                    } else {
                        0u8
                    }) ^ (if t < k + 1 {
                        gf_mul(c.0, p@[t])
                    } else {
                        0u8
                    }),
            decreases k + 2 - i,
        {
            let hi = if i >= 1 {
                p[i - 1]
            } else {
                0u8
            };
            let lo = if i < k + 1 {
                c.mul(G(p[i])).0
            } else {
                0u8
            };
            q.push(hi ^ lo);
            i += 1;
        }
        proof {
            assert(q@ =~= gen_poly((k + 1) as nat));
        }
        p = q;
        k += 1;
    }
    p
}

/// The `ecc_count` error correction codewords of `block`: the remainder of the block, shifted
/// up by `ecc_count`, divided by the generator polynomial.
pub fn ecc_per_block(block: &[u8], ecc_count: usize) -> (r: Vec<u8>)
    requires
        ecc_count < 256,
        block@.len() <= 4096,
    ensures
        r@ == rs_remainder(block@, ecc_count as nat),
{
    let len = block.len();
    let g = generator_polynomial(ecc_count);
    let mut gh: Vec<u8> = Vec::new();
    let mut j: usize = 0;
    while j < ecc_count
        invariant
            j <= ecc_count < 256,
            g@ == gen_poly(ecc_count as nat),
            g@.len() == ecc_count + 1,
            gh@.len() == j,
            forall|t: int| 0 <= t < j ==> #[trigger] gh@[t] == g@[g@.len() - 2 - t],
        decreases ecc_count - j,
    {
        gh.push(g[ecc_count - 1 - j]);
        j += 1;
    }
    proof {
        assert(gh@ =~= high_tail(g@));
    }
    let mut res: Vec<u8> = Vec::new();
    let mut k: usize = 0;
    while k < len
        invariant
            k <= len == block@.len(),
            res@ == block@.take(k as int),
        decreases len - k,
    {
        res.push(block[k]);
        k += 1;
        proof {
            assert(res@ =~= block@.take(k as int));
        }
    }
    let mut k: usize = 0;
    while k < ecc_count
        invariant
            k <= ecc_count,
            res@ == block@ + Seq::new(k as nat, |i: int| 0u8),
        decreases ecc_count - k,
    {
        res.push(0u8);
        k += 1;
        proof {
            assert(res@ =~= block@ + Seq::new(k as nat, |i: int| 0u8));
        }
    }
    proof {
        assert(block@.take(len as int) =~= block@);
    }
    let ghost start = res@;
    let mut i: usize = 0;
    while i < len
        invariant
            i <= len == block@.len(),
            len <= 4096,
            ecc_count < 256,
            gh@ == high_tail(gen_poly(ecc_count as nat)),
            gh@.len() == ecc_count,
            res@.len() == len + ecc_count,
            start == block@ + Seq::new(ecc_count as nat, |i: int| 0u8),
            divide_from(res@, gh@, i as nat, len as nat) == divide_from(start, gh@, 0, len as nat),
        decreases len - i,
    {
        let lead = res[i];
        let ghost before = res@;
        let mut j: usize = 0;
        while j < ecc_count
            invariant
                i < len <= 4096,
                ecc_count < 256,
                j <= ecc_count,
                gh@.len() == ecc_count,
                res@.len() == len + ecc_count,
                before.len() == len + ecc_count,
                lead == before[i as int],
                forall|t: int|
                    0 <= t < res@.len() ==> #[trigger] res@[t] == if i + 1 <= t < i + 1 + j {
                        before[t] ^ gf_mul(lead, gh@[t - i - 1])
                    } else {
                        before[t]
                    },
            decreases ecc_count - j,
        {
            let v = res[i + 1 + j] ^ G(lead).mul(G(gh[j])).0;
            res.set(i + 1 + j, v);
            j += 1;
        }
        proof {
            assert(res@ =~= eliminate(before, gh@, i as int));
        }
        i += 1;
    }
    let mut out: Vec<u8> = Vec::new();
    let mut k: usize = 0;
    while k < ecc_count
        invariant
            k <= ecc_count < 256,
            len <= 4096,
            res@.len() == len + ecc_count,
            out@ == res@.subrange(len as int, len + k),
        decreases ecc_count - k,
    {
        out.push(res[len + k]);
        k += 1;
        proof {
            assert(out@ =~= res@.subrange(len as int, len + k));
        }
    }
    proof {
        assert(divide_from(res@, gh@, len as nat, len as nat) == res@);
        assert(out@ =~= res@.skip(len as int));
    }
    out
}

} // verus!
