//! An encoded block is a codeword: its error correction codewords make every syndrome zero.
use crate::ec::decoder::{reversed, syndrome, valid_codeword};
use crate::ec::encoder::{divide_from, eliminate, gen_poly, high_tail, lemma_divide_from_len, rs_remainder};
use crate::ec::galois::{
    gf_mul, gf_pow, lemma_gf_mul_assoc, lemma_gf_mul_laws, lemma_gf_pow_add, lemma_xor_swap,
    lemma_zero_facts, poly_eval, poly_eval_n,
};
use vstd::prelude::*;

verus! {

/// Sequences that agree on their first `m` coefficients agree in value there.
pub(crate) proof fn lemma_eval_agree(a: Seq<u8>, b: Seq<u8>, x: u8, m: nat)
    requires
        forall|j: int| 0 <= j < m ==> #[trigger] a[j] == b[j],
    ensures
        poly_eval_n(a, x, m) == poly_eval_n(b, x, m),
    decreases m,
{
    if m > 0 {
        lemma_eval_agree(a, b, x, (m - 1) as nat);
    }
}

/// Evaluation is additive in the coefficients.
pub(crate) proof fn lemma_eval_xor(a: Seq<u8>, b: Seq<u8>, c: Seq<u8>, x: u8, m: nat)
    requires
        forall|j: int| 0 <= j < m ==> #[trigger] a[j] == b[j] ^ c[j],
    ensures
        poly_eval_n(a, x, m) == poly_eval_n(b, x, m) ^ poly_eval_n(c, x, m),
    decreases m,
{
    if m == 0 {
        lemma_xor_swap(0, 0, 0, 0);
    } else {
        let k = (m - 1) as nat;
        lemma_eval_xor(a, b, c, x, k);
        let xp = gf_pow(x, k);
        lemma_gf_mul_laws(xp, b[k as int], c[k as int]);
        lemma_gf_mul_laws(b[k as int] ^ c[k as int], xp, 0);
        lemma_gf_mul_laws(b[k as int], xp, 0);
        lemma_gf_mul_laws(c[k as int], xp, 0);
        lemma_xor_swap(
            poly_eval_n(b, x, k),
            poly_eval_n(c, x, k),
            gf_mul(b[k as int], xp),
            gf_mul(c[k as int], xp),
        );
    }
}

/// Coefficients that are all zero add nothing.
pub(crate) proof fn lemma_eval_zero(a: Seq<u8>, x: u8, m: nat)
    requires
        forall|j: int| 0 <= j < m ==> #[trigger] a[j] == 0,
    ensures
        poly_eval_n(a, x, m) == 0,
    decreases m,
{
    if m > 0 {
        lemma_eval_zero(a, x, (m - 1) as nat);
        lemma_zero_facts(gf_pow(x, (m - 1) as nat));
        lemma_zero_facts(0);
    }
}

/// A multiple `k` of the first `n` coefficients of `g`, shifted up by `s` places: over the
/// first `m` places it evaluates to `k * x^s` times the value of the coefficients of `g`
/// that fall below `m`.
pub(crate) proof fn lemma_eval_scaled_shift(a: Seq<u8>, g: Seq<u8>, k: u8, s: nat, n: nat, x: u8, m: nat)
    requires
        forall|j: int|
            0 <= j < m ==> #[trigger] a[j] == if s <= j < s + n {
                gf_mul(k, g[j - s])
            } else {
                0u8
            },
    ensures
        poly_eval_n(a, x, m) == gf_mul(
            k,
            gf_mul(
                gf_pow(x, s),
                poly_eval_n(
                    g,
                    x,
                    if m <= s {
                        0
                    } else if m >= s + n {
                        n
                    } else {
                        (m - s) as nat
                    },
                ),
            ),
        ),
    decreases m,
{
    let xs = gf_pow(x, s);
    if m <= s {
        lemma_eval_zero(a, x, m);
        lemma_zero_facts(xs);
        lemma_zero_facts(k);
    } else if m > s + n {
        lemma_eval_scaled_shift(a, g, k, s, n, x, (m - 1) as nat);
        lemma_zero_facts(gf_pow(x, (m - 1) as nat));
        lemma_zero_facts(poly_eval_n(a, x, (m - 1) as nat));
    } else {
        let t = (m - 1 - s) as nat;
        lemma_eval_scaled_shift(a, g, k, s, n, x, (m - 1) as nat);
        let gt = g[t as int];
        let xt = gf_pow(x, t);
        let pg = poly_eval_n(g, x, t);
        lemma_gf_pow_add(x, s, t);
        assert(s + t == (m - 1) as nat);
        lemma_gf_mul_assoc(k, gt, gf_mul(xs, xt));
        lemma_gf_mul_assoc(gt, xs, xt);
        lemma_gf_mul_laws(gt, xs, 0);
        lemma_gf_mul_assoc(xs, gt, xt);
        lemma_gf_mul_laws(xs, pg, gf_mul(gt, xt));
        lemma_gf_mul_laws(k, gf_mul(xs, pg), gf_mul(xs, gf_mul(gt, xt)));
    }
}

/// The generator polynomial has degree `n` and leading coefficient one.
proof fn lemma_gen_poly_shape(n: nat)
    ensures
        gen_poly(n).len() == n + 1,
        gen_poly(n)[n as int] == 1,
    decreases n,
{
    if n > 0 {
        lemma_gen_poly_shape((n - 1) as nat);
        lemma_zero_facts(1);
    }
}

/// The coefficients of `p` times `x + c`.
pub open spec fn times_linear(p: Seq<u8>, q: Seq<u8>, c: u8) -> bool {
    &&& q.len() == p.len() + 1
    &&& forall|j: int|
        0 <= j < q.len() ==> #[trigger] q[j] == (if j >= 1 {
            p[j - 1]
        } else {
            0u8
        }) ^ (if j < p.len() {
            gf_mul(c, p[j])
        } else {
            0u8
        })
}

/// The value of `p` over its first `m` coefficients, with `m` capped at its length.
pub open spec fn eval_upto(p: Seq<u8>, x: u8, m: nat) -> u8 {
    poly_eval_n(p, x, if m <= p.len() { m } else { p.len() })
}

/// Multiplying `p` by `x + c`: the value over the first `k + 1` coefficients of the product.
proof fn lemma_linear_factor(p: Seq<u8>, q: Seq<u8>, c: u8, x: u8, k: nat)
    requires
        k <= p.len(),
        times_linear(p, q, c),
    ensures
        poly_eval_n(q, x, k + 1) == gf_mul(poly_eval_n(p, x, k), x) ^ gf_mul(
            c,
            eval_upto(p, x, k + 1),
        ),
    decreases k,
{
    if k == 0 {
        lemma_linear_base(p, q, c, x);
    } else {
        lemma_linear_factor(p, q, c, x, (k - 1) as nat);
        lemma_linear_step(p, q, c, x, (k - 1) as nat);
    }
}

proof fn lemma_linear_base(p: Seq<u8>, q: Seq<u8>, c: u8, x: u8)
    requires
        times_linear(p, q, c),
    ensures
        poly_eval_n(q, x, 1) == gf_mul(poly_eval_n(p, x, 0), x) ^ gf_mul(c, eval_upto(p, x, 1)),
{
    lemma_zero_facts(x);
    lemma_zero_facts(c);
    lemma_zero_facts(0);
    lemma_gf_mul_laws(q[0], 1, 0);
    lemma_zero_facts(gf_mul(q[0], 1));
    assert(gf_pow(x, 0) == 1);
    assert(poly_eval_n(q, x, 0) == 0);
    assert(poly_eval_n(p, x, 0) == 0);
    assert(poly_eval_n(q, x, 1) == q[0]);
    if p.len() >= 1 {
        lemma_gf_mul_laws(p[0], 1, 0);
        lemma_zero_facts(gf_mul(p[0], 1));
        lemma_zero_facts(gf_mul(c, p[0]));
        assert(poly_eval_n(p, x, 1) == p[0]);
        assert(q[0] == gf_mul(c, p[0]));
    } else {
        assert(q[0] == 0);
    }
}

proof fn lemma_linear_step(p: Seq<u8>, q: Seq<u8>, c: u8, x: u8, k1: nat)
    requires
        k1 + 1 <= p.len(),
        times_linear(p, q, c),
        poly_eval_n(q, x, k1 + 1) == gf_mul(poly_eval_n(p, x, k1), x) ^ gf_mul(
            c,
            eval_upto(p, x, k1 + 1),
        ),
    ensures
        poly_eval_n(q, x, k1 + 2) == gf_mul(poly_eval_n(p, x, k1 + 1), x) ^ gf_mul(
            c,
            eval_upto(p, x, k1 + 2),
        ),
{
    let n = p.len();
    let k = k1 + 1;
    let xk1 = gf_pow(x, k1);
    let xk = gf_pow(x, k);
    let pk1 = poly_eval_n(p, x, k1);
    let pk = poly_eval_n(p, x, k);
    let a = gf_mul(pk1, x);
    let b = gf_mul(p[k1 as int], xk);
    let cc = gf_mul(c, pk);
    assert(xk == gf_mul(xk1, x));
    lemma_gf_mul_laws(x, pk1, gf_mul(p[k1 as int], xk1));
    lemma_gf_mul_laws(pk, x, 0);
    lemma_gf_mul_laws(pk1, x, 0);
    lemma_gf_mul_laws(gf_mul(p[k1 as int], xk1), x, 0);
    lemma_gf_mul_assoc(p[k1 as int], xk1, x);
    assert(gf_mul(pk, x) == a ^ b);
    if k + 1 <= n {
        let d = gf_mul(c, gf_mul(p[k as int], xk));
        lemma_gf_mul_laws(c, pk, gf_mul(p[k as int], xk));
        lemma_gf_mul_laws(xk, p[k1 as int], gf_mul(c, p[k as int]));
        lemma_gf_mul_laws(p[k1 as int] ^ gf_mul(c, p[k as int]), xk, 0);
        lemma_gf_mul_laws(p[k1 as int], xk, 0);
        lemma_gf_mul_laws(gf_mul(c, p[k as int]), xk, 0);
        lemma_gf_mul_assoc(c, p[k as int], xk);
        assert(gf_mul(q[k as int], xk) == b ^ d);
        assert(gf_mul(c, eval_upto(p, x, k + 1)) == cc ^ d);
        lemma_xor_swap(a, cc, b, d);
    } else {
        lemma_zero_facts(p[k1 as int]);
        lemma_zero_facts(b);
        lemma_zero_facts(cc);
        assert(q[k as int] == p[k1 as int]);
        lemma_xor_swap(a, cc, b, 0);
    }
}

/// Every power `a^i` with `i < n` is a root of the generator polynomial of degree `n`.
proof fn lemma_gen_root(n: nat, i: nat)
    requires
        i < n,
    ensures
        poly_eval(gen_poly(n), gf_pow(2, i)) == 0,
    decreases n,
{
    let x = gf_pow(2, i);
    let p = gen_poly((n - 1) as nat);
    let q = gen_poly(n);
    let c = gf_pow(2, (n - 1) as nat);
    lemma_gen_poly_shape((n - 1) as nat);
    lemma_gen_poly_shape(n);
    assert(times_linear(p, q, c));
    lemma_linear_factor(p, q, c, x, p.len());
    let pv = poly_eval_n(p, x, p.len());
    lemma_gf_mul_laws(pv, x, c);
    lemma_gf_mul_laws(c, pv, 0);
    if i == n - 1 {
        lemma_xor_swap(x, x, 0, 0);
        lemma_zero_facts(pv);
    } else {
        lemma_gen_root((n - 1) as nat, i);
        lemma_zero_facts(x ^ c);
    }
}

/// Coefficients from `n` on that are all zero add nothing.
proof fn lemma_eval_trailing_zero(a: Seq<u8>, x: u8, n: nat, m: nat)
    requires
        n <= m,
        forall|j: int| n <= j < m ==> #[trigger] a[j] == 0,
    ensures
        poly_eval_n(a, x, m) == poly_eval_n(a, x, n),
    decreases m,
{
    if m > n {
        lemma_eval_trailing_zero(a, x, n, (m - 1) as nat);
        lemma_zero_facts(gf_pow(x, (m - 1) as nat));
        lemma_zero_facts(poly_eval_n(a, x, n));
    }
}

/// A root of `g`, of degree `n` with leading coefficient one: the lower coefficients
/// evaluate to `x^n`.
proof fn lemma_root_low(g: Seq<u8>, n: nat, x: u8)
    requires
        g.len() == n + 1,
        g[n as int] == 1,
        poly_eval(g, x) == 0,
    ensures
        poly_eval_n(g, x, n) == gf_pow(x, n),
{
    lemma_gf_mul_laws(1, gf_pow(x, n), 0);
    lemma_gf_mul_laws(gf_pow(x, n), 1, 0);
    lemma_xor_swap(poly_eval_n(g, x, n), gf_pow(x, n), 0, 0);
}

/// One step of long division by `g`, at a root of `g`, leaves the value of what is left to
/// divide unchanged: the coefficient at `i` is cancelled by the multiple of `g` it adds.
#[verifier::rlimit(30)]
proof fn lemma_eliminate_eval(res: Seq<u8>, g: Seq<u8>, n: nat, i: nat, x: u8)
    requires
        g.len() == n + 1,
        g[n as int] == 1,
        poly_eval(g, x) == 0,
        i + n < res.len(),
    ensures
        poly_eval_n(reversed(eliminate(res, high_tail(g), i as int)), x, (res.len() - 1 - i) as nat)
            == poly_eval_n(reversed(res), x, (res.len() - i) as nat),
{
    let nn = res.len();
    let m = (nn - 1 - i) as nat;
    let gh = high_tail(g);
    let res2 = eliminate(res, gh, i as int);
    let s = (m - n) as nat;
    let ri = res[i as int];
    let e = Seq::new(
        m,
        |j: int|
            if s <= j < s + n {
                gf_mul(ri, g[j - s])
            } else {
                0u8
            },
    );
    assert forall|j: int| 0 <= j < m implies #[trigger] reversed(res2)[j] == reversed(res)[j]
        ^ e[j] by {
        lemma_zero_facts(reversed(res)[j]);
        if s <= j < s + n {
            assert(gh[nn - 1 - j - i - 1] == g[j - s]);
        }
    }
    lemma_eval_xor(reversed(res2), reversed(res), e, x, m);
    lemma_eval_scaled_shift(e, g, ri, s, n, x, m);
    lemma_root_low(g, n, x);
    lemma_gf_pow_add(x, s, n);
    assert(reversed(res)[m as int] == ri);
}

/// Long division from position `i` on keeps, at a root of the divisor, the value of what is
/// left to divide.
proof fn lemma_divide_eval(res: Seq<u8>, g: Seq<u8>, n: nat, i: nat, len: nat, x: u8)
    requires
        g.len() == n + 1,
        g[n as int] == 1,
        poly_eval(g, x) == 0,
        i <= len,
        len + n == res.len(),
    ensures
        poly_eval_n(reversed(divide_from(res, high_tail(g), i, len)), x, n) == poly_eval_n(
            reversed(res),
            x,
            (res.len() - i) as nat,
        ),
    decreases len - i,
{
    if i < len {
        let res2 = eliminate(res, high_tail(g), i as int);
        lemma_eliminate_eval(res, g, n, i, x);
        lemma_divide_eval(res2, g, n, i + 1, len, x);
    }
}

/// Read from the last codeword, a block followed by a remainder is the block shifted up by
/// the remainder's length, plus the remainder.
proof fn lemma_split_reversed(block: Seq<u8>, fin: Seq<u8>, n: nat)
    requires
        fin.len() == block.len() + n,
    ensures
        ({
            let nn = block.len() + n;
            let c = block + fin.skip(block.len() as int);
            let res0 = block + Seq::new(n, |j: int| 0u8);
            forall|j: int|
                0 <= j < nn ==> #[trigger] reversed(c)[j] == reversed(res0)[j] ^ (if j < n {
                    reversed(fin)[j]
                } else {
                    0u8
                })
        }),
{
    let nn = block.len() + n;
    let c = block + fin.skip(block.len() as int);
    let res0 = block + Seq::new(n, |j: int| 0u8);
    assert forall|j: int| 0 <= j < nn implies #[trigger] reversed(c)[j] == reversed(res0)[j] ^ (
    if j < n {
        reversed(fin)[j]
    } else {
        0u8
    }) by {
        lemma_zero_facts(reversed(res0)[j]);
        lemma_zero_facts(reversed(fin)[j]);
    }
}

/// Syndrome `i < n` of a block followed by its `n` error correction codewords is zero.
#[verifier::rlimit(60)]
#[verifier::spinoff_prover]
proof fn lemma_encoded_syndrome(block: Seq<u8>, n: nat, i: nat)
    requires
        i < n,
    ensures
        syndrome(block + rs_remainder(block, n), i) == 0,
{
    let x = gf_pow(2, i);
    let g = gen_poly(n);
    lemma_gen_poly_shape(n);
    lemma_gen_root(n, i);
    let l = block.len();
    let nn = l + n;
    let res0 = block + Seq::new(n, |j: int| 0u8);
    let fin = divide_from(res0, high_tail(g), 0, l);
    lemma_divide_from_len(res0, high_tail(g), 0, l);
    lemma_divide_eval(res0, g, n, 0, l, x);
    let c = block + fin.skip(l as int);
    assert(rs_remainder(block, n) == fin.skip(l as int));
    let low = Seq::new(nn, |j: int| if j < n { reversed(fin)[j] } else { 0u8 });
    lemma_split_reversed(block, fin, n);
    assert forall|j: int| 0 <= j < nn implies #[trigger] reversed(c)[j] == reversed(res0)[j]
        ^ low[j] by {}
    lemma_eval_xor(reversed(c), reversed(res0), low, x, nn);
    lemma_eval_trailing_zero(low, x, n, nn);
    lemma_eval_agree(low, reversed(fin), x, n);
    lemma_xor_swap(poly_eval_n(reversed(res0), x, nn), 0, 0, 0);
}

/// An encoded block is a codeword: a block followed by its `n` error correction codewords
/// has its first `n` syndromes zero.
pub proof fn lemma_encoded_is_codeword(block: Seq<u8>, n: nat)
    ensures
        valid_codeword(block + rs_remainder(block, n), n),
{
    assert forall|i: nat| i < n implies #[trigger] syndrome(block + rs_remainder(block, n), i)
        == 0 by {
        lemma_encoded_syndrome(block, n, i);
    }
}

} // verus!
