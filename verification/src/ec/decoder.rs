//! Correcting a received block: syndromes, the error locator, and the error magnitudes.
use crate::ec::block::{Block, MAX_BLOCK_SIZE, MAX_EC_SIZE};
use crate::ec::galois::{
    gf_mul, gf_pow, inverse_of, lemma_gf_mul_assoc, lemma_gf_mul_laws, lemma_nonzero_invertible,
    lemma_xor_swap, lemma_zero_facts, poly_eval, poly_eval_n, G,
};
use crate::ec::correction::{
    add_at, corrects_at, corrects_one, erased_single, lemma_conv_unit, lemma_corrects_one_cases,
    lemma_erased_single_modified, lemma_erasure_poly_single, lemma_single_error_register,
    lemma_zero_register, single_locator,
    lemma_chien_single, lemma_derivative_single, lemma_forney_single,
    lemma_locator_nonzero, lemma_omega_single, locator, single_error_state,
};
use crate::error::{QRError, QRResult};
use vstd::prelude::*;

verus! {

/// The codewords as a polynomial, lowest coefficient first: the last codeword is the
/// constant term.
pub open spec fn reversed(c: Seq<u8>) -> Seq<u8> {
    Seq::new(c.len(), |j: int| c[c.len() - 1 - j])
}

/// Syndrome `i` of codeword `c`: its value at the `i`th power of the generator.
pub open spec fn syndrome(c: Seq<u8>, i: nat) -> u8 {
    poly_eval(reversed(c), gf_pow(2, i))
}

/// `c` is a codeword of a code with `ec` error correction codewords: every syndrome is zero.
pub open spec fn valid_codeword(c: Seq<u8>, ec: nat) -> bool {
    forall|i: nat| i < ec ==> #[trigger] syndrome(c, i) == 0
}

/// The value at `x` of the polynomial whose coefficient of `x^i` is `poly[i]`.
pub fn eval_poly(poly: &[u8], x: u8) -> (r: u8)
    ensures
        r == poly_eval(poly@, x),
{
    let mut res: u8 = 0;
    let mut xpow = G(1);
    let mut i: usize = 0;
    while i < poly.len()
        invariant
            i <= poly@.len(),
            res == poly_eval_n(poly@, x, i as nat),
            xpow.0 == gf_pow(x, i as nat),
        decreases poly@.len() - i,
    {
        res = res ^ G(poly[i]).mul(xpow).0;
        xpow = xpow.mul(G(x));
        i += 1;
    }
    res
}

/// The value at `x` of the codewords read as a polynomial, last codeword first.
fn eval_reversed(c: &[u8], x: u8) -> (r: u8)
    ensures
        r == poly_eval(reversed(c@), x),
{
    let len = c.len();
    let mut res: u8 = 0;
    let mut xpow = G(1);
    let mut j: usize = 0;
    while j < len
        invariant
            len == c@.len(),
            j <= len,
            res == poly_eval_n(reversed(c@), x, j as nat),
            xpow.0 == gf_pow(x, j as nat),
        decreases len - j,
    {
        res = res ^ G(c[len - 1 - j]).mul(xpow).0;
        xpow = xpow.mul(G(x));
        j += 1;
    }
    res
}

/// The sum of `c[i] * s[k - i]` over `0 <= i < j`: the first `j` terms of the discrepancy
/// of connection polynomial `c` at position `k` of `s`.
pub open spec fn lfsr_terms(c: Seq<u8>, s: Seq<u8>, k: int, j: int) -> u8
    decreases j,
{
    if j <= 0 {
        0
    } else {
        lfsr_terms(c, s, k, j - 1) ^ gf_mul(c[j - 1], s[k - (j - 1)])
    }
}

/// The discrepancy of connection polynomial `c` at position `k` of `s`: zero when the
/// shift register it describes predicts `s[k]` from the values before it.
pub open spec fn discrepancy(c: Seq<u8>, s: Seq<u8>, k: int) -> u8 {
    lfsr_terms(c, s, k, k + 1)
}

/// `c`, of degree at most `l`, is the connection polynomial of a shift register of length
/// `l` that generates `s[0..n]`: every value from the `l`-th on is predicted by the `l`
/// before it.
pub open spec fn generates(c: Seq<u8>, s: Seq<u8>, l: int, n: int) -> bool {
    &&& 0 <= l
    &&& forall|i: int| l < i < c.len() ==> #[trigger] c[i] == 0
    &&& forall|k: int| l <= k < n ==> #[trigger] discrepancy(c, s, k) == 0
}

/// The sum of `f(i)` over `0 <= i < n`.
pub open spec fn xsum(f: spec_fn(int) -> u8, n: int) -> u8
    decreases n,
{
    if n <= 0 {
        0
    } else {
        xsum(f, n - 1) ^ f(n - 1)
    }
}

proof fn lemma_xsum_ext(f: spec_fn(int) -> u8, g: spec_fn(int) -> u8, n: int)
    requires
        forall|i: int| 0 <= i < n ==> #[trigger] f(i) == g(i),
    ensures
        xsum(f, n) == xsum(g, n),
    decreases n,
{
    if n > 0 {
        lemma_xsum_ext(f, g, n - 1);
    }
}

proof fn lemma_xsum_zero(f: spec_fn(int) -> u8, n: int)
    requires
        forall|i: int| 0 <= i < n ==> #[trigger] f(i) == 0,
    ensures
        xsum(f, n) == 0,
    decreases n,
{
    if n > 0 {
        lemma_xsum_zero(f, n - 1);
        lemma_zero_facts(0);
    }
}

/// A sum whose terms past the first are zero is its first term.
proof fn lemma_xsum_first(f: spec_fn(int) -> u8, n: int)
    requires
        n >= 1,
        forall|i: int| 1 <= i < n ==> #[trigger] f(i) == 0,
    ensures
        xsum(f, n) == f(0),
    decreases n,
{
    if n == 1 {
        assert(xsum(f, 0) == 0);
        lemma_zero_facts(f(0));
    } else {
        lemma_xsum_first(f, n - 1);
        lemma_zero_facts(f(0));
    }
}

proof fn lemma_xsum_add(f: spec_fn(int) -> u8, g: spec_fn(int) -> u8, n: int)
    ensures
        xsum(|i: int| f(i) ^ g(i), n) == xsum(f, n) ^ xsum(g, n),
    decreases n,
{
    if n <= 0 {
        lemma_zero_facts(0);
    } else {
        lemma_xsum_add(f, g, n - 1);
        lemma_xor_swap(xsum(f, n - 1), xsum(g, n - 1), f(n - 1), g(n - 1));
    }
}

proof fn lemma_xsum_scale(a: u8, f: spec_fn(int) -> u8, n: int)
    ensures
        gf_mul(a, xsum(f, n)) == xsum(|i: int| gf_mul(a, f(i)), n),
    decreases n,
{
    if n <= 0 {
        lemma_zero_facts(a);
    } else {
        lemma_xsum_scale(a, f, n - 1);
        lemma_gf_mul_laws(a, xsum(f, n - 1), f(n - 1));
    }
}

/// The order of a double sum does not matter.
proof fn lemma_xsum_swap(f: spec_fn(int, int) -> u8, a: int, b: int)
    ensures
        xsum(|i: int| xsum(|j: int| f(i, j), b), a) == xsum(
            |j: int| xsum(|i: int| f(i, j), a),
            b,
        ),
    decreases a,
{
    if a <= 0 {
        lemma_xsum_zero(|j: int| xsum(|i: int| f(i, j), a), b);
    } else {
        lemma_xsum_swap(f, a - 1, b);
        let inner = |j: int| xsum(|i: int| f(i, j), a);
        let prev = |j: int| xsum(|i: int| f(i, j), a - 1);
        let last = |j: int| f(a - 1, j);
        assert forall|j: int| 0 <= j < b implies #[trigger] inner(j) == prev(j) ^ last(j) by {}
        lemma_xsum_ext(inner, |j: int| prev(j) ^ last(j), b);
        lemma_xsum_add(prev, last, b);
        lemma_xsum_ext(last, |j: int| f(a - 1, j), b);
    }
}

/// The first `j` terms of a discrepancy, as a sum.
proof fn lemma_terms_xsum(c: Seq<u8>, s: Seq<u8>, k: int, j: int)
    ensures
        lfsr_terms(c, s, k, j) == xsum(|i: int| gf_mul(c[i], s[k - i]), j),
    decreases j,
{
    if j > 0 {
        lemma_terms_xsum(c, s, k, j - 1);
    }
}

/// Massey's bound: if a shift register of length `l` generates `s[0..n]` but not `s[n]`,
/// every shift register that generates `s[0..=n]` has length at least `n + 1 - l`.
pub(crate) proof fn lemma_massey(c: Seq<u8>, c2: Seq<u8>, s: Seq<u8>, l: int, l2: int, n: int)
    requires
        c.len() == MAX_EC_SIZE,
        c2.len() == MAX_EC_SIZE,
        c2[0] == 1,
        0 <= l <= n < MAX_EC_SIZE,
        n < s.len(),
        generates(c, s, l, n),
        discrepancy(c, s, n) != 0,
        generates(c2, s, l2, n + 1),
    ensures
        l2 >= n + 1 - l,
{
    if l2 <= n - l {
        let f = |i: int, j: int| gf_mul(c[i], gf_mul(c2[j], s[n - i - j]));
        // Summed over j first, each row is a multiple of a discrepancy of `c2`, all zero.
        let row = |i: int| xsum(|j: int| f(i, j), l2 + 1);
        assert forall|i: int| 0 <= i < l + 1 implies #[trigger] row(i) == 0 by {
            let g = |j: int| gf_mul(c2[j], s[(n - i) - j]);
            lemma_terms_zero_tail(c2, s, n - i, l2, n - i + 1);
            lemma_terms_xsum(c2, s, n - i, l2 + 1);
            lemma_xsum_ext(|i2: int| gf_mul(c2[i2], s[(n - i) - i2]), g, l2 + 1);
            assert(discrepancy(c2, s, n - i) == 0);
            assert(xsum(g, l2 + 1) == 0);
            lemma_xsum_scale(c[i], g, l2 + 1);
            lemma_xsum_ext(|i2: int| gf_mul(c[i], g(i2)), |j: int| f(i, j), l2 + 1);
            lemma_zero_facts(c[i]);
        }
        lemma_xsum_zero(row, l + 1);
        lemma_xsum_ext(row, |i: int| xsum(|j: int| f(i, j), l2 + 1), l + 1);
        lemma_xsum_swap(f, l + 1, l2 + 1);
        // Summed over i first, column j is `c2[j]` times a discrepancy of `c`, zero but for
        // the first, which is the discrepancy at `n`.
        let col = |j: int| xsum(|i: int| f(i, j), l + 1);
        assert forall|j: int| 0 <= j < l2 + 1 implies #[trigger] col(j) == gf_mul(
            c2[j],
            discrepancy(c, s, n - j),
        ) by {
            let g = |i: int| gf_mul(c[i], s[(n - j) - i]);
            lemma_terms_zero_tail(c, s, n - j, l, n - j + 1);
            lemma_terms_xsum(c, s, n - j, l + 1);
            lemma_xsum_ext(|i2: int| gf_mul(c[i2], s[(n - j) - i2]), g, l + 1);
            assert(xsum(g, l + 1) == discrepancy(c, s, n - j));
            lemma_xsum_scale(c2[j], g, l + 1);
            assert forall|i: int| 0 <= i < l + 1 implies #[trigger] f(i, j) == gf_mul(c2[j], g(i)) by {
                let x = s[n - i - j];
                lemma_gf_mul_assoc(c[i], c2[j], x);
                lemma_gf_mul_assoc(c2[j], c[i], x);
                lemma_gf_mul_laws(c[i], c2[j], 0);
            }
            lemma_xsum_ext(|i: int| f(i, j), |i2: int| gf_mul(c2[j], g(i2)), l + 1);
        }
        assert forall|j: int| 1 <= j < l2 + 1 implies #[trigger] col(j) == 0 by {
            assert(discrepancy(c, s, n - j) == 0);
            lemma_zero_facts(c2[j]);
        }
        lemma_xsum_first(col, l2 + 1);
        lemma_xsum_ext(col, |j: int| xsum(|i: int| f(i, j), l + 1), l2 + 1);
        lemma_gf_mul_laws(discrepancy(c, s, n), 1, 0);
        lemma_gf_mul_laws(1, discrepancy(c, s, n), 0);
    }
}

/// No shift register shorter than `l`, with constant term one, generates `s[0..n]`.
pub open spec fn shortest(s: Seq<u8>, l: int, n: int) -> bool {
    forall|c2: Seq<u8>, l2: int|
        c2.len() == MAX_EC_SIZE && c2[0] == 1 && #[trigger] generates(c2, s, l2, n) ==> l2 >= l
}

/// A step of the Berlekamp-Massey algorithm keeps its register the shortest: lengthening it
/// to `n + 1 - l` when the discrepancy is nonzero and `2 * l <= n` is what Massey's bound
/// asks.
pub(crate) proof fn lemma_bm_shortest(c0: Seq<u8>, s: Seq<u8>, l: int, n: int, new_l: int)
    requires
        c0.len() == MAX_EC_SIZE,
        0 <= l <= n < MAX_EC_SIZE,
        n < s.len(),
        generates(c0, s, l, n),
        shortest(s, l, n),
        new_l == if discrepancy(c0, s, n) != 0 && 2 * l <= n {
            n + 1 - l
        } else {
            l
        },
    ensures
        shortest(s, new_l, n + 1),
{
    assert forall|c2: Seq<u8>, l2: int|
        c2.len() == MAX_EC_SIZE && c2[0] == 1 && #[trigger] generates(c2, s, l2, n + 1) implies l2
        >= new_l by {
        assert(generates(c2, s, l2, n));
        if discrepancy(c0, s, n) != 0 {
            lemma_massey(c0, c2, s, l, l2, n);
        }
    }
}

/// Terms past the degree of `c` add nothing.
pub(crate) proof fn lemma_terms_zero_tail(c: Seq<u8>, s: Seq<u8>, k: int, l: int, j: int)
    requires
        0 <= l,
        l + 1 <= j <= c.len(),
        forall|i: int| l < i < c.len() ==> #[trigger] c[i] == 0,
    ensures
        lfsr_terms(c, s, k, j) == lfsr_terms(c, s, k, l + 1),
    decreases j,
{
    if j > l + 1 {
        lemma_terms_zero_tail(c, s, k, l, j - 1);
        lemma_zero_facts(s[k - (j - 1)]);
        lemma_zero_facts(lfsr_terms(c, s, k, j - 1));
    }
}

/// The terms are linear in the connection polynomial: adding `a` times `e` to `c` adds `a`
/// times the terms of `e`.
proof fn lemma_terms_linear(c: Seq<u8>, c2: Seq<u8>, e: Seq<u8>, a: u8, s: Seq<u8>, k: int, j: int)
    requires
        0 <= j <= c.len(),
        c2.len() == c.len(),
        e.len() == c.len(),
        forall|i: int| 0 <= i < c.len() ==> #[trigger] c2[i] == c[i] ^ gf_mul(a, e[i]),
    ensures
        lfsr_terms(c2, s, k, j) == lfsr_terms(c, s, k, j) ^ gf_mul(a, lfsr_terms(e, s, k, j)),
    decreases j,
{
    if j == 0 {
        lemma_zero_facts(a);
        lemma_zero_facts(0);
    } else {
        lemma_terms_linear(c, c2, e, a, s, k, j - 1);
        let x = s[k - (j - 1)];
        let ci = c[j - 1];
        let ei = e[j - 1];
        let ae = gf_mul(a, ei);
        let pc = lfsr_terms(c, s, k, j - 1);
        let pe = lfsr_terms(e, s, k, j - 1);
        lemma_gf_mul_laws(x, ci, ae);
        lemma_gf_mul_laws(ci ^ ae, x, 0);
        lemma_gf_mul_laws(ci, x, 0);
        lemma_gf_mul_laws(ae, x, 0);
        lemma_gf_mul_laws(ei, x, 0);
        lemma_gf_mul_assoc(a, ei, x);
        lemma_gf_mul_laws(a, pe, gf_mul(ei, x));
        lemma_xor_swap(pc, gf_mul(a, pe), gf_mul(ci, x), gf_mul(a, gf_mul(ei, x)));
    }
}

/// The terms of `c` shifted up by `m` places are those of `c` at position `k - m`.
proof fn lemma_terms_shift(e: Seq<u8>, c: Seq<u8>, s: Seq<u8>, k: int, m: int, j: int)
    requires
        1 <= m,
        0 <= j <= k + 1,
        k < e.len(),
        e.len() == c.len(),
        forall|i: int|
            0 <= i < e.len() ==> #[trigger] e[i] == if i >= m {
                c[i - m]
            } else {
                0u8
            },
    ensures
        lfsr_terms(e, s, k, j) == if j <= m {
            0u8
        } else {
            lfsr_terms(c, s, k - m, j - m)
        },
    decreases j,
{
    if j > 0 {
        lemma_terms_shift(e, c, s, k, m, j - 1);
        let x = s[k - (j - 1)];
        lemma_zero_facts(x);
        lemma_zero_facts(gf_mul(e[j - 1], x));
        if j - 1 >= m {
            assert(e[j - 1] == c[j - 1 - m]);
            assert(k - (j - 1) == (k - m) - (j - 1 - m));
            assert(lfsr_terms(c, s, k - m, j - m) == lfsr_terms(c, s, k - m, j - m - 1) ^ gf_mul(
                c[j - m - 1],
                s[(k - m) - (j - m - 1)],
            ));
            if j - 1 == m {
                assert(lfsr_terms(c, s, k - m, 0) == 0);
                assert(lfsr_terms(e, s, k, j - 1) == 0);
            } else {
                assert(lfsr_terms(e, s, k, j - 1) == lfsr_terms(c, s, k - m, j - 1 - m));
            }
        } else {
            assert(e[j - 1] == 0);
            lemma_zero_facts(0);
        }
    }
}

/// The correction that cancels a nonzero discrepancy `d` against an earlier one `b`.
proof fn lemma_cancel(d: u8, b: u8)
    requires
        b != 0,
    ensures
        d ^ gf_mul(gf_mul(d, inverse_of(b)), b) == 0,
{
    lemma_nonzero_invertible(b);
    lemma_gf_mul_assoc(d, inverse_of(b), b);
    lemma_gf_mul_laws(inverse_of(b), b, 0);
    lemma_gf_mul_laws(d, 1, 0);
    lemma_xor_swap(d, 0, 0, 0);
}

/// One corrective step of the Berlekamp-Massey algorithm: with `c0` generating `s[0..n]`
/// but not `s[n]`, where it is off by `d`, and `bx` an earlier register that was off by `b`
/// at `n - m`, subtracting `d / b` times `bx` shifted by `m` gives a register that generates
/// `s[0..=n]`, of length `n + 1 - l` when that is longer.
pub(crate) proof fn lemma_bm_step(
    c0: Seq<u8>,
    c1: Seq<u8>,
    bx: Seq<u8>,
    s: Seq<u8>,
    scale: u8,
    d: u8,
    b: u8,
    l: int,
    lb: int,
    m: int,
    n: int,
)
    requires
        c0.len() == MAX_EC_SIZE,
        c1.len() == MAX_EC_SIZE,
        bx.len() == MAX_EC_SIZE,
        0 <= l <= n < MAX_EC_SIZE,
        n < s.len(),
        1 <= m <= n + 1,
        0 <= lb,
        l + lb == n + 1 - m,
        b != 0,
        scale == gf_mul(d, inverse_of(b)),
        generates(c0, s, l, n),
        discrepancy(c0, s, n) == d,
        forall|i: int| lb < i < MAX_EC_SIZE ==> #[trigger] bx[i] == 0,
        forall|k: int| lb <= k < n - m ==> #[trigger] discrepancy(bx, s, k) == 0,
        n - m >= 0 ==> discrepancy(bx, s, n - m) == b,
        forall|p: int|
            0 <= p < MAX_EC_SIZE ==> #[trigger] c1[p] == if m <= p {
                c0[p] ^ gf_mul(scale, bx[p - m])
            } else {
                c0[p]
            },
    ensures
        generates(
            c1,
            s,
            if 2 * l <= n {
                n + 1 - l
            } else {
                l
            },
            n + 1,
        ),
{
    let e = Seq::new(
        MAX_EC_SIZE as nat,
        |p: int|
            if p >= m {
                bx[p - m]
            } else {
                0u8
            },
    );
    lemma_zero_facts(scale);
    assert forall|p: int| 0 <= p < MAX_EC_SIZE implies #[trigger] c1[p] == c0[p] ^ gf_mul(
        scale,
        e[p],
    ) by {
        lemma_zero_facts(c0[p]);
    }
    let new_l: int = if 2 * l <= n {
        n + 1 - l
    } else {
        l
    };
    assert forall|k: int| new_l <= k < n + 1 implies #[trigger] discrepancy(c1, s, k) == 0 by {
        lemma_terms_linear(c0, c1, e, scale, s, k, k + 1);
        lemma_terms_shift(e, bx, s, k, m, k + 1);
        if k < n {
            assert(discrepancy(c0, s, k) == 0);
            if k + 1 > m {
                assert(discrepancy(bx, s, k - m) == 0);
            }
            lemma_zero_facts(0);
        } else {
            assert(discrepancy(bx, s, n - m) == b);
            lemma_cancel(d, b);
        }
    }
    assert forall|p: int| new_l < p < MAX_EC_SIZE implies #[trigger] c1[p] == 0 by {
        lemma_zero_facts(0);
        if p >= m {
            assert(bx[p - m] == 0);
        }
    }
}

impl Block {
    /// Nothing when every syndrome is zero; otherwise the syndromes, one per error correction
    /// codeword, padded with zeros.
    pub fn syndromes(&self) -> (r: Result<(), Vec<u8>>)
        requires
            self.wf(),
        ensures
            match r {
                Ok(()) => valid_codeword(self.codeword(), (self.len - self.dlen) as nat),
                Err(s) => {
                    &&& !valid_codeword(self.codeword(), (self.len - self.dlen) as nat)
                    &&& s@.len() == MAX_EC_SIZE
                    &&& forall|i: int|
                        0 <= i < MAX_EC_SIZE ==> #[trigger] s@[i] == if i < self.len - self.dlen {
                            syndrome(self.codeword(), i as nat)
                        } else {
                            0u8
                        }
                },
            },
    {
        let ec_len = self.len - self.dlen;
        let c = self.full();
        let mut synd: Vec<u8> = vec![0u8; MAX_EC_SIZE];
        let mut all_zero = true;
        let mut i: usize = 0;
        while i < ec_len
            invariant
                ec_len == self.len - self.dlen <= MAX_EC_SIZE,
                c@ == self.codeword(),
                i <= ec_len,
                synd@.len() == MAX_EC_SIZE,
                forall|t: int|
                    0 <= t < MAX_EC_SIZE ==> #[trigger] synd@[t] == if t < i {
                        syndrome(self.codeword(), t as nat)
                    } else {
                        0u8
                    },
                all_zero <==> forall|t: nat| t < i ==> #[trigger] syndrome(self.codeword(), t) == 0,
            decreases ec_len - i,
        {
            let x = G::gen_pow(i);
            let s = eval_reversed(c, x.0);
            synd.set(i, s);
            if s != 0 {
                all_zero = false;
            }
            proof {
                assert forall|t: nat| t < i + 1 && all_zero implies #[trigger] syndrome(
                    self.codeword(),
                    t,
                ) == 0 by {
                    if t < i {
                    }
                }
                if !all_zero {
                    if s != 0 {
                        assert(syndrome(self.codeword(), i as nat) != 0);
                    }
                }
            }
            i += 1;
        }
        if all_zero {
            Ok(())
        } else {
            Err(synd)
        }
    }

    /// The error locator polynomial by the Berlekamp-Massey algorithm over the first `count`
    /// of `synd`: the connection polynomial of a shift register that generates them.
    #[verifier::rlimit(60)]
    #[verifier::spinoff_prover]
    pub fn berlkamp_massey(&self, synd: &[u8], count: usize) -> (r: QRResult<Vec<u8>>)
        requires
            count <= synd@.len(),
            count <= MAX_EC_SIZE,
        ensures
            r matches Ok(c) && c@.len() == MAX_EC_SIZE && c@[0] == 1 && exists|l: int|
                #[trigger] generates(c@, synd@, l, count as int) && shortest(
                    synd@,
                    l,
                    count as int,
                ),
    {
        let ghost s = synd@;
        let mut l: usize = 0;
        let mut m: usize = 1;
        let mut b = G(1);
        let mut cx: Vec<u8> = vec![0u8; MAX_EC_SIZE];
        let mut bx: Vec<u8> = vec![0u8; MAX_EC_SIZE];
        cx.set(0, 1);
        bx.set(0, 1);
        let ghost mut lb: int = 0;
        let mut n: usize = 0;
        while n < count
            invariant
                s == synd@,
                count <= synd@.len(),
                count <= MAX_EC_SIZE,
                n <= count,
                l <= n,
                1 <= m <= n + 1,
                0 <= lb,
                l + lb == n + 1 - m,
                cx@.len() == MAX_EC_SIZE,
                bx@.len() == MAX_EC_SIZE,
                cx@[0] == 1,
                b.0 != 0,
                generates(cx@, s, l as int, n as int),
                shortest(s, l as int, n as int),
                forall|i: int| lb < i < MAX_EC_SIZE ==> #[trigger] bx@[i] == 0,
                forall|k: int| lb <= k < n - m ==> #[trigger] discrepancy(bx@, s, k) == 0,
                n - m >= 0 ==> discrepancy(bx@, s, n - m) == b.0,
            decreases count - n,
        {
            let ghost c_start = cx@;
            let ghost l_start = l as int;
            let mut d = G(synd[n]);
            proof {
                lemma_gf_mul_laws(1, s[n as int], 0);
                lemma_gf_mul_laws(s[n as int], 1, 0);
                lemma_zero_facts(s[n as int]);
                assert(lfsr_terms(cx@, s, n as int, 0) == 0);
                assert(lfsr_terms(cx@, s, n as int, 1) == d.0);
            }
            let mut i: usize = 1;
            while i <= l
                invariant
                    s == synd@,
                    l <= n < count <= MAX_EC_SIZE,
                    count <= synd@.len(),
                    1 <= i <= l + 1,
                    cx@.len() == MAX_EC_SIZE,
                    d.0 == lfsr_terms(cx@, s, n as int, i as int),
                decreases l + 1 - i,
            {
                d = d.add(G(cx[i]).mul(G(synd[n - i])));
                i += 1;
            }
            proof {
                lemma_terms_zero_tail(cx@, s, n as int, l as int, n + 1);
                assert(d.0 == discrepancy(cx@, s, n as int));
            }
            if d.0 != 0 {
                let tx = vstd::slice::slice_to_vec(cx.as_slice());
                let scale = d.div(b)?;
                let ghost c0 = cx@;
                let mut i: usize = 0;
                while i < MAX_EC_SIZE - m
                    invariant
                        1 <= m <= MAX_EC_SIZE,
                        i <= MAX_EC_SIZE - m,
                        cx@.len() == MAX_EC_SIZE,
                        bx@.len() == MAX_EC_SIZE,
                        c0.len() == MAX_EC_SIZE,
                        forall|p: int|
                            0 <= p < MAX_EC_SIZE ==> #[trigger] cx@[p] == if m <= p < m + i {
                                c0[p] ^ gf_mul(scale.0, bx@[p - m])
                            } else {
                                c0[p]
                            },
                    decreases MAX_EC_SIZE - m - i,
                {
                    let v = cx[i + m] ^ scale.mul(G(bx[i])).0;
                    cx.set(i + m, v);
                    i += 1;
                }
                proof {
                    lemma_bm_step(c0, cx@, bx@, s, scale.0, d.0, b.0, l as int, lb, m as int, n as int);
                }
                if 2 * l <= n {
                    proof {
                        assert(tx@ == c0);
                        assert forall|k: int| l <= k < n + 1 - 1 implies #[trigger] discrepancy(
                            tx@,
                            s,
                            k,
                        ) == 0 by {}
                        lb = l as int;
                    }
                    bx = tx;
                    l = n + 1 - l;
                    b = d;
                    m = 1;
                } else {
                    m += 1;
                }
            } else {
                m += 1;
            }
            proof {
                lemma_bm_shortest(c_start, s, l_start, n as int, l as int);
            }
            n += 1;
        }
        proof {
            assert(generates(cx@, synd@, l as int, count as int));
        }
        Ok(cx)
    }

    /// For each position of the block, whether the locator vanishes at the inverse of its
    /// locator `a^(len - 1 - p)`.
    pub fn chien_search(&self, sig: &[u8]) -> (r: Vec<bool>)
        requires
            self.wf(),
            sig@.len() == MAX_EC_SIZE,
        ensures
            r@.len() == MAX_BLOCK_SIZE,
            forall|p: int|
                0 <= p < MAX_BLOCK_SIZE ==> #[trigger] r@[p] == (p < self.len && poly_eval(
                    sig@.take(chien_degree(*self)),
                    gf_pow(2, (255 - (self.len - 1 - p)) as nat),
                ) == 0),
    {
        let deg = if self.len - self.dlen + 1 < MAX_EC_SIZE {
            self.len - self.dlen + 1
        } else {
            MAX_EC_SIZE
        };
        let s = &sig[0..deg];
        let mut err_loc: Vec<bool> = vec![false; MAX_BLOCK_SIZE];
        let mut i: usize = 0;
        while i < self.len
            invariant
                self.wf(),
                deg == chien_degree(*self),
                s@ == sig@.take(deg as int),
                i <= self.len,
                err_loc@.len() == MAX_BLOCK_SIZE,
                forall|p: int|
                    0 <= p < MAX_BLOCK_SIZE ==> #[trigger] err_loc@[p] == (self.len - i <= p
                        < self.len && poly_eval(
                        sig@.take(chien_degree(*self)),
                        gf_pow(2, (255 - (self.len - 1 - p)) as nat),
                    ) == 0),
            decreases self.len - i,
        {
            let x = G::gen_pow(255 - i);
            let v = eval_poly(s, x.0) == 0;
            err_loc.set(self.len - 1 - i, v);
            i += 1;
        }
        err_loc
    }
}

/// The sum over `j < n` of `a[j] * b[k - j + shift]`: coefficient `k` of a product, with `b`
/// read from `shift` on.
pub open spec fn conv_n(a: Seq<u8>, b: Seq<u8>, k: int, shift: int, n: nat) -> u8
    decreases n,
{
    if n == 0 {
        0
    } else {
        conv_n(a, b, k, shift, (n - 1) as nat) ^ gf_mul(a[n - 1], b[k - (n - 1) + shift])
    }
}

/// Coefficient `k` of the product of `a` and `b` read from `shift` on.
pub open spec fn conv(a: Seq<u8>, b: Seq<u8>, k: int, shift: int) -> u8 {
    conv_n(a, b, k, shift, (k + 1) as nat)
}

/// The formal derivative of a polynomial over GF(2^8): odd coefficients move down one place,
/// even ones vanish.
pub open spec fn derivative(p: Seq<u8>) -> Seq<u8> {
    Seq::new(
        p.len(),
        |i: int|
            if i % 2 == 0 && i + 1 < p.len() {
                p[i + 1]
            } else {
                0u8
            },
    )
}

/// The locator of the erased positions: the product of `1 + X x` over their locators `X`,
/// truncated to `MAX_EC_SIZE` coefficients.
pub open spec fn erasure_poly(xs: Seq<u8>) -> Seq<u8>
    decreases xs.len(),
{
    if xs.len() == 0 {
        Seq::new(MAX_EC_SIZE as nat, |k: int| if k == 0 {
            1u8
        } else {
            0u8
        })
    } else {
        let p = erasure_poly(xs.drop_last());
        let x = xs.last();
        Seq::new(
            MAX_EC_SIZE as nat,
            |k: int|
                if k >= 1 {
                    p[k] ^ gf_mul(x, p[k - 1])
                } else {
                    p[k]
                },
        )
    }
}

impl Block {
    /// The error evaluator polynomial: the syndromes from the first power on times the
    /// locator, truncated below `ec_len - 1`.
    pub fn omega(&self, synd: &[u8], sig: &[u8]) -> (r: Vec<u8>)
        requires
            self.wf(),
            self.len - self.dlen >= 1,
            synd@.len() == MAX_EC_SIZE,
            sig@.len() == MAX_EC_SIZE,
        ensures
            r@.len() == MAX_EC_SIZE,
            forall|k: int|
                0 <= k < MAX_EC_SIZE ==> #[trigger] r@[k] == if k < self.len - self.dlen - 1 {
                    conv(sig@, synd@, k, 1)
                } else {
                    0u8
                },
    {
        let t = self.len - self.dlen - 1;
        let mut omg: Vec<u8> = vec![0u8; MAX_EC_SIZE];
        let mut k: usize = 0;
        while k < t
            invariant
                t == self.len - self.dlen - 1,
                t < MAX_EC_SIZE,
                synd@.len() == MAX_EC_SIZE,
                sig@.len() == MAX_EC_SIZE,
                k <= t,
                omg@.len() == MAX_EC_SIZE,
                forall|q: int|
                    0 <= q < MAX_EC_SIZE ==> #[trigger] omg@[q] == if q < k {
                        conv(sig@, synd@, q, 1)
                    } else {
                        0u8
                    },
            decreases t - k,
        {
            let mut acc: u8 = 0;
            let mut j: usize = 0;
            while j <= k
                invariant
                    k < t < MAX_EC_SIZE,
                    synd@.len() == MAX_EC_SIZE,
                    sig@.len() == MAX_EC_SIZE,
                    j <= k + 1,
                    acc == conv_n(sig@, synd@, k as int, 1, j as nat),
                decreases k + 1 - j,
            {
                acc = acc ^ G(sig[j]).mul(G(synd[k - j + 1])).0;
                j += 1;
            }
            omg.set(k, acc);
            k += 1;
        }
        omg
    }

    /// The error magnitudes at the positions the search located, by Forney's formula: the
    /// evaluator over the derivative of the locator, both at the inverse locator. Fails when
    /// the derivative vanishes at a located position.
    pub fn forney(&self, omg: &[u8], dsig: &[u8], err_loc: &[bool]) -> (r: QRResult<Vec<u8>>)
        requires
            self.wf(),
            err_loc@.len() == MAX_BLOCK_SIZE,
        ensures
            match r {
                Ok(mag) => {
                    &&& mag@.len() == MAX_BLOCK_SIZE
                    &&& forall|p: int|
                        0 <= p < MAX_BLOCK_SIZE ==> #[trigger] mag@[p] == forney_mag(
                            *self,
                            omg@,
                            dsig@,
                            err_loc@,
                            p,
                        )
                    &&& forall|p: int|
                        0 <= p < self.len && #[trigger] err_loc@[p] ==> poly_eval(
                            dsig@,
                            inv_locator(*self, p),
                        ) != 0
                },
                Err(e) => {
                    &&& e == QRError::DivisionByZero
                    &&& exists|p: int|
                        0 <= p < self.len && #[trigger] err_loc@[p] && poly_eval(
                            dsig@,
                            inv_locator(*self, p),
                        ) == 0
                },
            },
    {
        let mut mag: Vec<u8> = vec![0u8; MAX_BLOCK_SIZE];
        let mut i: usize = 0;
        while i < self.len
            invariant
                self.wf(),
                err_loc@.len() == MAX_BLOCK_SIZE,
                i <= self.len,
                mag@.len() == MAX_BLOCK_SIZE,
                forall|p: int|
                    0 <= p < MAX_BLOCK_SIZE ==> #[trigger] mag@[p] == if self.len - i <= p {
                        forney_mag(*self, omg@, dsig@, err_loc@, p)
                    } else {
                        0u8
                    },
                forall|p: int|
                    self.len - i <= p < self.len && #[trigger] err_loc@[p] ==> poly_eval(
                        dsig@,
                        inv_locator(*self, p),
                    ) != 0,
            decreases self.len - i,
        {
            let p = self.len - 1 - i;
            if err_loc[p] {
                let xinv = G::gen_pow(255 - i);
                let omg_x = eval_poly(omg, xinv.0);
                let sig_x = eval_poly(dsig, xinv.0);
                proof {
                    assert(inv_locator(*self, p as int) == xinv.0);
                }
                let q = G(omg_x).div(G(sig_x))?;
                proof {
                    lemma_zero_facts(q.0);
                }
                mag.set(p, mag[p] ^ q.0);
            }
            i += 1;
        }
        Ok(mag)
    }

    /// Applies the corrections the locator `psi` implies and checks that the result is a
    /// codeword. With the syndromes and locator of a single error, it is corrected.
    fn correct(&mut self, synd: &[u8], psi: &[u8]) -> (r: QRResult<Vec<u8>>)
        requires
            old(self).wf(),
            old(self).len - old(self).dlen >= 1,
            synd@.len() == MAX_EC_SIZE,
            psi@.len() == MAX_EC_SIZE,
        ensures
            final(self).wf(),
            final(self).len == old(self).len,
            final(self).dlen == old(self).dlen,
            match r {
                Ok(d) => {
                    &&& valid_codeword(final(self).codeword(), (final(self).len - final(self).dlen) as nat)
                    &&& d@ == final(self).codeword().take(final(self).dlen as int)
                },
                Err(e) => e == QRError::TooManyError || e == QRError::DivisionByZero,
            },
            forall|p0: int, e: u8|
                #[trigger] single_error_state(*old(self), synd@, psi@, p0, e) ==> {
                    &&& final(self).codeword() == add_at(old(self).codeword(), p0, e)
                    &&& r is Ok
                },
    {
        let ghost b0 = *self;
        let err_loc = self.chien_search(psi);
        let mut dpsi: Vec<u8> = vec![0u8; MAX_EC_SIZE];
        let mut i: usize = 1;
        while i < MAX_EC_SIZE
            invariant
                psi@.len() == MAX_EC_SIZE,
                1 <= i <= MAX_EC_SIZE + 1,
                i % 2 == 1,
                dpsi@.len() == MAX_EC_SIZE,
                forall|q: int|
                    0 <= q < MAX_EC_SIZE ==> #[trigger] dpsi@[q] == if q + 1 < i && q % 2 == 0 {
                        psi@[q + 1]
                    } else {
                        0u8
                    },
            decreases MAX_EC_SIZE + 1 - i,
        {
            dpsi.set(i - 1, psi[i]);
            i += 2;
        }
        proof {
            assert(dpsi@ =~= derivative(psi@));
        }
        let omg = self.omega(synd, psi);
        let err_mag = match self.forney(&omg, &dpsi, &err_loc) {
            Ok(m) => m,
            Err(e) => {
                proof {
                    assert forall|p0: int, ee: u8|
                        #[trigger] single_error_state(b0, synd@, psi@, p0, ee) implies false by {
                        let x = locator(b0.len as int, p0);
                        let p = choose|p: int|
                            0 <= p < b0.len && #[trigger] err_loc@[p] && poly_eval(
                                dpsi@,
                                inv_locator(b0, p),
                            ) == 0;
                        lemma_derivative_single(x, inv_locator(b0, p));
                        lemma_locator_nonzero(b0.len as int, p0);
                    }
                }
                return Err(e);
            },
        };
        let mut i: usize = 0;
        while i < self.len
            invariant
                self.wf(),
                self.len == b0.len,
                self.dlen == b0.dlen,
                i <= self.len,
                err_mag@.len() == MAX_BLOCK_SIZE,
                forall|j: int|
                    0 <= j < MAX_BLOCK_SIZE ==> #[trigger] self.data@[j] == if j < i {
                        b0.data@[j] ^ err_mag@[j]
                    } else {
                        b0.data@[j]
                    },
            decreases self.len - i,
        {
            let v = self.data[i] ^ err_mag[i];
            self.data.set(i, v);
            i += 1;
        }
        proof {
            assert forall|p0: int, ee: u8|
                #[trigger] single_error_state(b0, synd@, psi@, p0, ee) implies self.codeword()
                == add_at(b0.codeword(), p0, ee) by {
                let x = locator(b0.len as int, p0);
                lemma_locator_nonzero(b0.len as int, p0);
                let ec = b0.len - b0.dlen;
                let deg = chien_degree(b0);
                assert forall|p: int| 0 <= p < b0.len implies #[trigger] err_mag@[p] == if p
                    == p0 {
                    ee
                } else {
                    0u8
                } by {
                    lemma_chien_single(b0, p0, p, deg);
                    assert(err_loc@[p] == (p == p0));
                    if p == p0 {
                        let y = inv_locator(b0, p);
                        lemma_derivative_single(x, y);
                        lemma_omega_single(omg@, synd@, ec as int, ee, x, y);
                        lemma_forney_single(ee, x);
                    }
                }
                assert forall|j: int| 0 <= j < b0.len implies #[trigger] self.codeword()[j]
                    == add_at(b0.codeword(), p0, ee)[j] by {
                    lemma_xor_swap(b0.data@[j], 0, 0, 0);
                    lemma_zero_facts(b0.data@[j]);
                }
                assert(self.codeword() =~= add_at(b0.codeword(), p0, ee));
            }
        }
        match self.syndromes() {
            Ok(()) => {
                let d = self.data();
                Ok(vstd::slice::slice_to_vec(d))
            },
            Err(_) => Err(QRError::TooManyError),
        }
    }

    /// Corrects erroneous codewords at unknown positions: the locator from Berlekamp-Massey,
    /// its roots by Chien search, the magnitudes by Forney's formula. A success is always a
    /// codeword, and a block that already is one comes back unchanged. A block of at most
    /// 255 codewords with at least two parity codewords that differs from a codeword in one
    /// place is corrected to it. The algorithm is meant to correct up to `ec_len / 2` errors;
    /// the contract states the single error.
    pub fn rectify(&mut self) -> (r: QRResult<Vec<u8>>)
        requires
            old(self).wf(),
        ensures
            final(self).wf(),
            final(self).len == old(self).len,
            final(self).dlen == old(self).dlen,
            valid_codeword(old(self).codeword(), (old(self).len - old(self).dlen) as nat) ==> {
                &&& r is Ok
                &&& *final(self) == *old(self)
            },
            match r {
                Ok(d) => {
                    &&& valid_codeword(final(self).codeword(), (final(self).len - final(self).dlen) as nat)
                    &&& d@ == final(self).codeword().take(final(self).dlen as int)
                },
                Err(e) => e == QRError::TooManyError || e == QRError::DivisionByZero,
            },
            forall|cw: Seq<u8>|
                #![trigger valid_codeword(cw, (old(self).len - old(self).dlen) as nat)]
                corrects_one(*old(self), cw) ==> {
                    &&& r matches Ok(d) && d@ == cw.take(old(self).dlen as int)
                    &&& final(self).codeword() == cw
                },
    {
        let ghost b0 = *self;
        let synd = match self.syndromes() {
            Ok(()) => {
                let d = self.data();
                proof {
                    assert forall|cw: Seq<u8>|
                        #![trigger valid_codeword(cw, (b0.len - b0.dlen) as nat)]
                        corrects_one(b0, cw) implies b0.codeword() == cw by {
                        lemma_corrects_one_cases(b0, cw);
                    }
                }
                return Ok(vstd::slice::slice_to_vec(d));
            },
            Err(s) => s,
        };
        let ec_len = self.ec_len();
        let sig = self.berlkamp_massey(&synd, ec_len)?;
        let r = self.correct(&synd, &sig);
        proof {
            assert forall|cw: Seq<u8>|
                #![trigger valid_codeword(cw, (b0.len - b0.dlen) as nat)]
                corrects_one(b0, cw) implies r is Ok && self.codeword() == cw by {
                lemma_corrects_one_cases(b0, cw);
                let p0 = choose|p: int| 0 <= p < b0.len && corrects_at(b0, cw, p);
                let e = cw[p0] ^ b0.codeword()[p0];
                let x = locator(b0.len as int, p0);
                let l = choose|l: int|
                    #[trigger] generates(sig@, synd@, l, ec_len as int) && shortest(
                        synd@,
                        l,
                        ec_len as int,
                    );
                lemma_single_error_register(sig@, synd@, l, ec_len as int, e, x);
                assert(single_error_state(b0, synd@, sig@, p0, e));
            }
        }
        r
    }

    /// The locator of the erased positions `pos`.
    pub fn erasure_locator(&self, pos: &[usize]) -> (r: Vec<u8>)
        requires
            self.wf(),
            forall|i: int| 0 <= i < pos@.len() ==> #[trigger] pos@[i] < self.len,
        ensures
            r@ == erasure_poly(
                Seq::new(pos@.len(), |i: int| gf_pow(2, (self.len - 1 - pos@[i]) as nat)),
            ),
    {
        let ghost xs = Seq::new(pos@.len(), |i: int| gf_pow(2, (self.len - 1 - pos@[i]) as nat));
        let mut lam: Vec<u8> = vec![0u8; MAX_EC_SIZE];
        lam.set(0, 1);
        proof {
            assert(lam@ =~= erasure_poly(xs.take(0)));
        }
        let mut n: usize = 0;
        while n < pos.len()
            invariant
                self.wf(),
                n <= pos@.len(),
                forall|i: int| 0 <= i < pos@.len() ==> #[trigger] pos@[i] < self.len,
                xs == Seq::new(pos@.len(), |i: int| gf_pow(2, (self.len - 1 - pos@[i]) as nat)),
                lam@ == erasure_poly(xs.take(n as int)),
            decreases pos@.len() - n,
        {
            let pn = pos[n];
            assert(pn < self.len);
            let x = G::gen_pow(self.len - 1 - pn);
            let ghost before = lam@;
            let mut k: usize = MAX_EC_SIZE - 1;
            while k >= 1
                invariant
                    0 <= k < MAX_EC_SIZE,
                    lam@.len() == MAX_EC_SIZE,
                    before.len() == MAX_EC_SIZE,
                    forall|q: int|
                        0 <= q < MAX_EC_SIZE ==> #[trigger] lam@[q] == if q > k {
                            before[q] ^ gf_mul(x.0, before[q - 1])
                        } else {
                            before[q]
                        },
                decreases k,
            {
                let v = lam[k] ^ x.mul(G(lam[k - 1])).0;
                lam.set(k, v);
                k -= 1;
            }
            proof {
                let ys = xs.take(n + 1);
                assert(ys.drop_last() =~= xs.take(n as int));
                assert(ys.last() == x.0);
                assert(lam@ =~= erasure_poly(ys));
            }
            n += 1;
        }
        proof {
            assert(xs.take(pos@.len() as int) =~= xs);
        }
        lam
    }
}

/// How many of the first `n` positions are flagged.
pub open spec fn flagged_count(erased: Seq<bool>, n: nat) -> nat
    decreases n,
{
    if n == 0 {
        0
    } else {
        flagged_count(erased, (n - 1) as nat) + if n - 1 < erased.len() && erased[n - 1] {
            1nat
        } else {
            0nat
        }
    }
}

impl Block {
    /// Corrects with some positions already known to be unreliable. An erasure costs one
    /// parity codeword where an unknown error costs two; the algorithm is meant to decode
    /// whenever `2 * errors + erasures <= ec_len`. `erased` is indexed by position in the
    /// block; positions past it are not flagged. A success is always a codeword; a block that
    /// already is one is returned unchanged; more erasures than parity codewords are refused;
    /// with nothing flagged it corrects as `rectify` does. What is stated of correction is a
    /// single changed codeword, unflagged or flagged alone.
    pub fn rectify_with_erasures(&mut self, erased: &[bool]) -> (r: QRResult<Vec<u8>>)
        requires
            old(self).wf(),
        ensures
            final(self).wf(),
            final(self).len == old(self).len,
            final(self).dlen == old(self).dlen,
            flagged_count(erased@, old(self).len as nat) > old(self).len - old(self).dlen ==> r
                == Err::<Vec<u8>, QRError>(QRError::TooManyError) && *final(self) == *old(self),
            flagged_count(erased@, old(self).len as nat) <= old(self).len - old(self).dlen
                && valid_codeword(old(self).codeword(), (old(self).len - old(self).dlen) as nat)
                ==> r is Ok && *final(self) == *old(self),
            flagged_count(erased@, old(self).len as nat) == 0 ==> forall|cw: Seq<u8>|
                #![trigger valid_codeword(cw, (old(self).len - old(self).dlen) as nat)]
                corrects_one(*old(self), cw) ==> {
                    &&& r matches Ok(d) && d@ == cw.take(old(self).dlen as int)
                    &&& final(self).codeword() == cw
                },
            forall|cw: Seq<u8>, p0: int|
                #![trigger valid_codeword(cw, (old(self).len - old(self).dlen) as nat), erased@[p0]]
                erased_single(*old(self), erased@, cw, p0) ==> {
                    &&& r matches Ok(d) && d@ == cw.take(old(self).dlen as int)
                    &&& final(self).codeword() == cw
                },
            match r {
                Ok(d) => {
                    &&& valid_codeword(final(self).codeword(), (final(self).len - final(self).dlen) as nat)
                    &&& d@ == final(self).codeword().take(final(self).dlen as int)
                },
                Err(e) => e == QRError::TooManyError || e == QRError::DivisionByZero,
            },
    {
        let deg = self.ec_len();
        let mut pos: Vec<usize> = Vec::new();
        let mut i: usize = 0;
        while i < self.len
            invariant
                self.wf(),
                i <= self.len,
                pos@.len() == flagged_count(erased@, i as nat),
                pos@.len() <= i,
                forall|q: int| 0 <= q < pos@.len() ==> #[trigger] pos@[q] < i,
                forall|j: int|
                    0 <= j < i && j < erased@.len() && #[trigger] erased@[j] ==> exists|q: int|
                        0 <= q < pos@.len() && pos@[q] == j,
            decreases self.len - i,
        {
            let ghost old_pos = pos@;
            if i < erased.len() && erased[i] {
                pos.push(i);
            }
            proof {
                assert forall|j: int|
                    0 <= j < i + 1 && j < erased@.len() && #[trigger] erased@[j] implies exists|
                        q: int,
                    | 0 <= q < pos@.len() && pos@[q] == j by {
                    if j < i {
                        let q = choose|q: int| 0 <= q < old_pos.len() && old_pos[q] == j;
                        assert(pos@[q] == j);
                    } else {
                        assert(pos@[old_pos.len() as int] == j);
                    }
                }
            }
            i += 1;
        }
        if pos.len() > deg {
            return Err(QRError::TooManyError);
        }
        if pos.len() == 0 {
            return self.rectify();
        }
        let ghost b0 = *self;
        let synd = match self.syndromes() {
            Ok(()) => {
                let d = self.data();
                proof {
                    assert forall|cw: Seq<u8>, p0: int|
                        #![trigger valid_codeword(cw, (b0.len - b0.dlen) as nat), erased@[p0]]
                        erased_single(b0, erased@, cw, p0) implies b0.codeword() == cw by {
                        lemma_corrects_one_cases(b0, cw);
                    }
                }
                return Ok(vstd::slice::slice_to_vec(d));
            },
            Err(s) => s,
        };
        let lam = self.erasure_locator(&pos);
        let mut t: Vec<u8> = vec![0u8; MAX_EC_SIZE];
        let mut k: usize = 0;
        while k < deg
            invariant
                deg <= MAX_EC_SIZE,
                k <= deg,
                t@.len() == MAX_EC_SIZE,
                lam@.len() == MAX_EC_SIZE,
                synd@.len() == MAX_EC_SIZE,
                forall|q: int|
                    0 <= q < MAX_EC_SIZE ==> #[trigger] t@[q] == if q < k {
                        conv_n(lam@, synd@, q, 0, (q + 1) as nat)
                    } else {
                        0u8
                    },
            decreases deg - k,
        {
            let mut acc: u8 = 0;
            let mut j: usize = 0;
            while j <= k
                invariant
                    k < deg <= MAX_EC_SIZE,
                    j <= k + 1,
                    lam@.len() == MAX_EC_SIZE,
                    synd@.len() == MAX_EC_SIZE,
                    acc == conv_n(lam@, synd@, k as int, 0, j as nat),
                decreases k + 1 - j,
            {
                acc = acc ^ G(lam[j]).mul(G(synd[k - j])).0;
                j += 1;
            }
            t.set(k, acc);
            k += 1;
        }
        let e = pos.len();
        let rest = &t.as_slice()[e..MAX_EC_SIZE];
        let sig_err = self.berlkamp_massey(rest, deg - e)?;
        let psi = poly_mul(&lam, &sig_err);
        let r = self.correct(&synd, &psi);
        proof {
            assert forall|cw: Seq<u8>, p0: int|
                #![trigger valid_codeword(cw, (b0.len - b0.dlen) as nat), erased@[p0]]
                erased_single(b0, erased@, cw, p0) implies r is Ok && self.codeword() == cw by {
                lemma_corrects_one_cases(b0, cw);
                let p = choose|p: int| 0 <= p < b0.len && corrects_at(b0, cw, p);
                if p != p0 {
                    assert(b0.codeword()[p] == cw[p]);
                    lemma_xor_swap(cw[p], 0, 0, 0);
                }
                assert(p == p0);
                let q = choose|q: int| 0 <= q < pos@.len() && pos@[q] == p0;
                assert(pos@[0] == p0);
                let x = locator(b0.len as int, p0);
                let err = cw[p0] ^ b0.codeword()[p0];
                assert(Seq::new(pos@.len(), |i: int| gf_pow(2, (b0.len - 1 - pos@[i]) as nat))
                    =~= seq![x]);
                lemma_erasure_poly_single(x);
                assert(lam@ == single_locator(x));
                assert forall|i: int| 0 <= i < deg - 1 implies #[trigger] rest@[i] == 0 by {
                    assert(rest@[i] == t@[i + 1]);
                    lemma_erased_single_modified(synd@, deg as int, err, x, i + 1);
                }
                let l = choose|l: int|
                    #[trigger] generates(sig_err@, rest@, l, (deg - 1) as int) && shortest(
                        rest@,
                        l,
                        (deg - 1) as int,
                    );
                lemma_zero_register(sig_err@, rest@, l, (deg - 1) as int);
                assert forall|k: int| 0 <= k < MAX_EC_SIZE implies #[trigger] psi@[k] == lam@[k] by {
                    lemma_conv_unit(lam@, k);
                }
                assert(psi@ =~= single_locator(x));
                assert(single_error_state(b0, synd@, psi@, p0, err));
            }
        }
        r
    }
}

/// Bits set in `x`.
pub open spec fn popcount(x: u32) -> nat
    decreases x,
{
    if x == 0 {
        0
    } else {
        (x % 2) as nat + popcount(x / 2)
    }
}

/// Bits set in `x`.
pub fn count_ones(x: u32) -> (r: u32)
    ensures
        r == popcount(x),
        r <= 32,
{
    let mut v = x;
    let mut n: u32 = 0;
    let mut i: u32 = 0;
    proof {
        vstd::arithmetic::power2::lemma2_to64();
    }
    while v != 0
        invariant
            n + popcount(v) == popcount(x),
            i <= 32,
            n <= i,
            v < vstd::arithmetic::power2::pow2((32 - i) as nat),
        decreases v,
    {
        proof {
            if i == 32 {
                vstd::arithmetic::power2::lemma2_to64();
            } else {
                vstd::arithmetic::power2::lemma_pow2_unfold((32 - i) as nat);
            }
        }
        n = n + v % 2;
        v = v / 2;
        i = i + 1;
    }
    n
}

/// Corrects a format or version information word to the nearest of `valid_numbers`, the
/// first of them at the least distance, and returns it with the number of bits that
/// differ; fails when more than `err_capacity` bits differ.
pub fn rectify_info(info: u32, valid_numbers: &[u32], err_capacity: u32) -> (r: QRResult<(u32, u32)>)
    requires
        valid_numbers@.len() > 0,
    ensures
        exists|k: int|
            0 <= k < valid_numbers@.len() && (forall|j: int|
                0 <= j < valid_numbers@.len() ==> popcount(info ^ valid_numbers@[k]) <= popcount(
                    #[trigger] (info ^ valid_numbers@[j]),
                )) && (forall|j: int|
                0 <= j < k ==> popcount(info ^ valid_numbers@[k]) < popcount(
                    #[trigger] (info ^ valid_numbers@[j]),
                )) && r == if popcount(info ^ valid_numbers@[k]) <= err_capacity {
                Ok::<(u32, u32), QRError>(
                    (valid_numbers@[k], popcount(info ^ valid_numbers@[k]) as u32),
                )
            } else {
                Err::<(u32, u32), QRError>(QRError::InvalidInfo)
            },
{
    let mut best: usize = 0;
    let mut best_err = count_ones(info ^ valid_numbers[0]);
    let mut i: usize = 1;
    while i < valid_numbers.len()
        invariant
            1 <= i <= valid_numbers@.len(),
            best < i,
            best_err == popcount(info ^ valid_numbers@[best as int]),
            forall|j: int| 0 <= j < i ==> best_err <= popcount(#[trigger] (info ^ valid_numbers@[j])),
            forall|j: int| 0 <= j < best ==> best_err < popcount(#[trigger] (info ^ valid_numbers@[j])),
        decreases valid_numbers@.len() - i,
    {
        let e = count_ones(info ^ valid_numbers[i]);
        if e < best_err {
            best = i;
            best_err = e;
        }
        i += 1;
    }
    let res = valid_numbers[best];
    if best_err <= err_capacity {
        Ok((res, best_err))
    } else {
        Err(QRError::InvalidInfo)
    }
}

/// The product of two polynomials, truncated to `MAX_EC_SIZE` coefficients.
pub fn poly_mul(a: &[u8], b: &[u8]) -> (r: Vec<u8>)
    requires
        a@.len() == MAX_EC_SIZE,
        b@.len() == MAX_EC_SIZE,
    ensures
        r@.len() == MAX_EC_SIZE,
        forall|t: int| 0 <= t < MAX_EC_SIZE ==> #[trigger] r@[t] == conv(a@, b@, t, 0),
{
    let mut out: Vec<u8> = vec![0u8; MAX_EC_SIZE];
    let mut i: usize = 0;
    while i < MAX_EC_SIZE
        invariant
            a@.len() == MAX_EC_SIZE,
            b@.len() == MAX_EC_SIZE,
            i <= MAX_EC_SIZE,
            out@.len() == MAX_EC_SIZE,
            forall|t: int|
                0 <= t < MAX_EC_SIZE ==> #[trigger] out@[t] == conv_n(
                    a@,
                    b@,
                    t,
                    0,
                    if t + 1 < i {
                        (t + 1) as nat
                    } else {
                        i as nat
                    },
                ),
        decreases MAX_EC_SIZE - i,
    {
        let ai = a[i];
        let mut j: usize = 0;
        while j < MAX_EC_SIZE - i
            invariant
                a@.len() == MAX_EC_SIZE,
                b@.len() == MAX_EC_SIZE,
                i < MAX_EC_SIZE,
                ai == a@[i as int],
                j <= MAX_EC_SIZE - i,
                out@.len() == MAX_EC_SIZE,
                forall|t: int|
                    0 <= t < MAX_EC_SIZE ==> #[trigger] out@[t] == conv_n(
                        a@,
                        b@,
                        t,
                        0,
                        if t + 1 < i {
                            (t + 1) as nat
                        } else if i <= t < i + j {
                            (i + 1) as nat
                        } else {
                            i as nat
                        },
                    ),
            decreases MAX_EC_SIZE - i - j,
        {
            if ai != 0 && b[j] != 0 {
                let v = out[i + j] ^ G(ai).mul(G(b[j])).0;
                out.set(i + j, v);
            } else {
                proof {
                    lemma_zero_facts(ai);
                    lemma_zero_facts(b@[j as int]);
                    lemma_zero_facts(out@[i + j]);
                }
            }
            j += 1;
        }
        i += 1;
    }
    out
}

/// The inverse locator of position `p`: the generator to the power `255 - (len - 1 - p)`.
pub open spec fn inv_locator(b: Block, p: int) -> u8 {
    gf_pow(2, (255 - (b.len - 1 - p)) as nat)
}

/// The magnitude Forney's formula gives position `p`: zero where no error was located.
pub open spec fn forney_mag(b: Block, omg: Seq<u8>, dsig: Seq<u8>, err_loc: Seq<bool>, p: int) -> u8 {
    if p < b.len && err_loc[p] {
        gf_mul(
            poly_eval(omg, inv_locator(b, p)),
            crate::ec::galois::inverse_of(poly_eval(dsig, inv_locator(b, p))),
        )
    } else {
        0
    }
}

/// Coefficients of the locator that the search evaluates.
pub open spec fn chien_degree(b: Block) -> int {
    if b.len - b.dlen + 1 < MAX_EC_SIZE {
        b.len - b.dlen + 1
    } else {
        MAX_EC_SIZE as int
    }
}

} // verus!
