//! What the decoder makes of a block with one erroneous codeword: the syndromes, the
//! Berlekamp-Massey register, the Chien roots and the Forney magnitudes it meets on the way.
use crate::ec::block::{Block, MAX_EC_SIZE};
use crate::ec::codeword::{lemma_eval_agree, lemma_eval_scaled_shift, lemma_eval_xor, lemma_eval_zero};
use crate::ec::decoder::{
    conv, conv_n, derivative, discrepancy, erasure_poly, flagged_count, generates, inv_locator, lfsr_terms, lemma_terms_zero_tail,
    reversed, shortest, syndrome, valid_codeword,
};
use crate::ec::galois::{
    gf_mul, gf_pow, inverse_of, lemma_gen_order, lemma_gf_mul_assoc, lemma_gf_mul_laws,
    lemma_gf_pow_add, lemma_gf_pow_mul, lemma_nonzero_invertible, lemma_xor_swap, lemma_zero_facts,
    poly_eval, poly_eval_n,
};
use vstd::prelude::*;

verus! {

/// The locator of position `p` of a block of `n` codewords: the generator to the power of
/// its distance from the end.
pub open spec fn locator(n: int, p: int) -> u8 {
    gf_pow(2, (n - 1 - p) as nat)
}

/// The number of places among the first `m` where `a` and `b` differ.
pub open spec fn hamming(a: Seq<u8>, b: Seq<u8>, m: nat) -> nat
    decreases m,
{
    if m == 0 {
        0
    } else {
        hamming(a, b, (m - 1) as nat) + if a[m - 1] != b[m - 1] {
            1nat
        } else {
            0nat
        }
    }
}

/// The register `1 + x * X`, padded with zeros: the locator polynomial of one error at `X`.
pub open spec fn single_locator(x: u8) -> Seq<u8> {
    Seq::new(
        MAX_EC_SIZE as nat,
        |i: int|
            if i == 0 {
                1u8
            } else if i == 1 {
                x
            } else {
                0u8
            },
    )
}

/// `a` with `e` added at place `p`.
pub open spec fn add_at(a: Seq<u8>, p: int, e: u8) -> Seq<u8> {
    a.update(p, a[p] ^ e)
}

/// Field facts used below: addition commutes and associates.
proof fn lemma_xor_ac(a: u8, b: u8, c: u8)
    ensures
        a ^ b == b ^ a,
        (a ^ b) ^ c == a ^ (b ^ c),
        a ^ 0 == a,
        0u8 ^ a == a,
        a ^ a == 0u8,
{
    lemma_zero_facts(a);
    lemma_zero_facts(b);
    lemma_zero_facts(c);
    lemma_xor_swap(0, a, b, 0);
    lemma_xor_swap(a, b, 0, c);
    lemma_zero_facts(a ^ b);
    lemma_zero_facts(b ^ c);
    lemma_xor_swap(a, 0, 0, 0);
}

/// No differences means equal on the first `m` places; one difference is a single place.
pub proof fn lemma_hamming_small(a: Seq<u8>, b: Seq<u8>, m: nat)
    requires
        hamming(a, b, m) <= 1,
    ensures
        hamming(a, b, m) == 0 ==> forall|i: int| 0 <= i < m ==> #[trigger] a[i] == b[i],
        hamming(a, b, m) == 1 ==> exists|p: int|
            0 <= p < m && a[p] != b[p] && forall|i: int|
                0 <= i < m && i != p ==> #[trigger] a[i] == b[i],
    decreases m,
{
    if m > 0 {
        let k = (m - 1) as nat;
        lemma_hamming_small(a, b, k);
        if a[m - 1] != b[m - 1] {
            assert(hamming(a, b, k) == 0);
            assert(forall|i: int| 0 <= i < m && i != m - 1 ==> #[trigger] a[i] == b[i]);
        } else if hamming(a, b, m) == 1 {
            let p = choose|p: int|
                0 <= p < k && a[p] != b[p] && forall|i: int|
                    0 <= i < k && i != p ==> #[trigger] a[i] == b[i];
            assert(forall|i: int| 0 <= i < m && i != p ==> #[trigger] a[i] == b[i]);
        }
    }
}

/// A single coefficient `e` at place `d` evaluates to `e * x^d`.
proof fn lemma_eval_single(c: Seq<u8>, e: u8, d: nat, x: u8, n: nat)
    requires
        d < n,
        c.len() == n,
        forall|j: int| 0 <= j < n ==> #[trigger] c[j] == if j == d {
            e
        } else {
            0u8
        },
    ensures
        poly_eval_n(c, x, n) == gf_mul(e, gf_pow(x, d)),
{
    let one = seq![1u8];
    lemma_gf_mul_laws(e, 1, 0);
    assert forall|j: int| 0 <= j < n implies #[trigger] c[j] == if d <= j < d + 1 {
        gf_mul(e, one[j - d])
    } else {
        0u8
    } by {
        if j == d {
            assert(one[j - d] == 1);
        }
    }
    lemma_eval_scaled_shift(c, one, e, d, 1, x, n);
    assert(poly_eval_n(one, x, 1) == 1) by {
        assert(poly_eval_n(one, x, 0) == 0);
        assert(gf_pow(x, 0) == 1);
        assert(one[0] == 1);
        lemma_gf_mul_laws(1, 1, 0);
        lemma_xor_ac(1, 0, 0);
        assert(poly_eval_n(one, x, 1) == poly_eval_n(one, x, 0) ^ gf_mul(one[0], gf_pow(x, 0)));
    }
    lemma_gf_mul_laws(gf_pow(x, d), 1, 0);
}

/// A word that differs from a codeword in one place, by `e`, has syndromes `e * X^i`, with
/// `X` the locator of that place.
pub proof fn lemma_single_error_syndrome(cw: Seq<u8>, ec: nat, p: int, e: u8, i: nat)
    requires
        valid_codeword(cw, ec),
        0 <= p < cw.len(),
        i < ec,
    ensures
        syndrome(add_at(cw, p, e), i) == gf_mul(e, gf_pow(locator(cw.len() as int, p), i)),
{
    let n = cw.len();
    let r = add_at(cw, p, e);
    let d = (n - 1 - p) as nat;
    let x = gf_pow(2, i);
    let a = reversed(r);
    let b = reversed(cw);
    let c = Seq::new(n, |j: int| if j == d { e } else { 0u8 });
    assert forall|j: int| 0 <= j < n implies #[trigger] a[j] == b[j] ^ c[j] by {
        lemma_xor_ac(b[j], 0, 0);
        if j == d {
            assert(a[j] == r[p]);
            assert(b[j] == cw[p]);
        } else {
            assert(a[j] == r[n - 1 - j]);
            assert(r[n - 1 - j] == cw[n - 1 - j]);
        }
    }
    lemma_eval_xor(a, b, c, x, n);
    assert(syndrome(cw, i) == 0);
    assert(poly_eval_n(b, x, n) == 0);
    lemma_eval_single(c, e, d, x, n);
    lemma_gf_pow_mul(2, i, d);
    lemma_gf_pow_mul(2, d, i);
    assert(i * d == d * i) by (nonlinear_arith);
    lemma_xor_ac(poly_eval_n(c, x, n), 0, 0);
    assert(syndrome(r, i) == poly_eval_n(a, x, n));
    assert(locator(n as int, p) == gf_pow(2, d));
    assert(gf_pow(x, d) == gf_pow(2, i * d));
    assert(gf_pow(gf_pow(2, d), i) == gf_pow(2, d * i));
}

/// The register `1 + X x` generates the sequence `e * X^i`.
proof fn lemma_single_locator_generates(s: Seq<u8>, n: int, e: u8, x: u8)
    requires
        1 <= n <= MAX_EC_SIZE,
        n <= s.len(),
        forall|i: int| 0 <= i < n ==> #[trigger] s[i] == gf_mul(e, gf_pow(x, i as nat)),
    ensures
        generates(single_locator(x), s, 1, n),
{
    let c = single_locator(x);
    assert forall|k: int| 1 <= k < n implies #[trigger] discrepancy(c, s, k) == 0 by {
        lemma_terms_zero_tail(c, s, k, 1, k + 1);
        let pk = gf_pow(x, (k - 1) as nat);
        assert(gf_pow(x, k as nat) == gf_mul(pk, x));
        assert(lfsr_terms(c, s, k, 0) == 0);
        assert(lfsr_terms(c, s, k, 1) == 0u8 ^ gf_mul(1, s[k]));
        assert(lfsr_terms(c, s, k, 2) == lfsr_terms(c, s, k, 1) ^ gf_mul(x, s[k - 1]));
        lemma_gf_mul_laws(1, s[k], 0);
        lemma_gf_mul_laws(s[k], 1, 0);
        lemma_xor_ac(0, s[k], 0);
        assert(s[k - 1] == gf_mul(e, pk));
        assert(s[k] == gf_mul(e, gf_mul(pk, x)));
        lemma_gf_mul_assoc(e, pk, x);
        lemma_gf_mul_assoc(x, e, pk);
        lemma_gf_mul_laws(x, gf_mul(e, pk), 0);
        lemma_gf_mul_laws(gf_mul(e, pk), x, 0);
        assert(gf_mul(x, s[k - 1]) == s[k]);
        lemma_xor_ac(s[k], 0, 0);
    }
}

/// Berlekamp-Massey on the syndromes of one error finds its locator: the shortest register
/// that generates `e * X^i`, from two values on, is `1 + X x`.
pub proof fn lemma_single_error_register(c: Seq<u8>, s: Seq<u8>, l: int, n: int, e: u8, x: u8)
    requires
        c.len() == MAX_EC_SIZE,
        c[0] == 1,
        2 <= n <= MAX_EC_SIZE,
        n <= s.len(),
        e != 0,
        forall|i: int| 0 <= i < n ==> #[trigger] s[i] == gf_mul(e, gf_pow(x, i as nat)),
        generates(c, s, l, n),
        shortest(s, l, n),
    ensures
        l == 1,
        c == single_locator(x),
{
    lemma_single_locator_generates(s, n, e, x);
    let lam = single_locator(x);
    assert(lam.len() == MAX_EC_SIZE && lam[0] == 1);
    assert(l <= 1);
    lemma_gf_mul_laws(e, 1, 0);
    lemma_gf_mul_laws(1, e, 0);
    assert(s[0] == e);
    if l == 0 {
        assert(discrepancy(c, s, 0) == 0);
        assert(lfsr_terms(c, s, 0, 0) == 0);
        assert(lfsr_terms(c, s, 0, 1) == 0u8 ^ gf_mul(c[0], s[0]));
        lemma_xor_ac(e, 0, 0);
        assert(false);
    }
    assert(discrepancy(c, s, 1) == 0);
    assert(lfsr_terms(c, s, 1, 0) == 0);
    assert(lfsr_terms(c, s, 1, 1) == 0u8 ^ gf_mul(c[0], s[1]));
    assert(lfsr_terms(c, s, 1, 2) == lfsr_terms(c, s, 1, 1) ^ gf_mul(c[1], s[0]));
    let c1 = c[1];
    assert(gf_pow(x, 0) == 1);
    assert(gf_pow(x, 1) == gf_mul(gf_pow(x, 0), x));
    lemma_gf_mul_laws(1, x, 0);
    lemma_gf_mul_laws(x, 1, 0);
    assert(s[1] == gf_mul(e, x));
    lemma_gf_mul_laws(1, s[1], 0);
    lemma_gf_mul_laws(s[1], 1, 0);
    lemma_xor_ac(s[1], 0, 0);
    assert(s[1] ^ gf_mul(c1, e) == 0);
    lemma_xor_swap(s[1], gf_mul(c1, e), 0, 0);
    assert(gf_mul(c1, e) == gf_mul(x, e)) by {
        lemma_gf_mul_laws(e, x, 0);
    }
    lemma_nonzero_invertible(e);
    let ie = inverse_of(e);
    lemma_gf_mul_assoc(c1, e, ie);
    lemma_gf_mul_assoc(x, e, ie);
    lemma_gf_mul_laws(c1, 1, 0);
    lemma_gf_mul_laws(x, 1, 0);
    assert(c1 == x);
    assert(c =~= lam);
}


/// Coefficients that are zero from place `k` on add nothing past `k`.
proof fn lemma_eval_tail(a: Seq<u8>, x: u8, k: nat, m: nat)
    requires
        k <= m,
        forall|j: int| k <= j < m ==> #[trigger] a[j] == 0,
    ensures
        poly_eval_n(a, x, m) == poly_eval_n(a, x, k),
    decreases m,
{
    if m > k {
        lemma_eval_tail(a, x, k, (m - 1) as nat);
        lemma_zero_facts(gf_pow(x, (m - 1) as nat));
        lemma_xor_ac(poly_eval_n(a, x, (m - 1) as nat), 0, 0);
    }
}

/// Terms of a product that are zero from place `k` on add nothing past `k`.
proof fn lemma_conv_tail(a: Seq<u8>, b: Seq<u8>, q: int, shift: int, k: nat, m: nat)
    requires
        k <= m,
        forall|j: int| k <= j < m ==> #[trigger] a[j] == 0,
    ensures
        conv_n(a, b, q, shift, m) == conv_n(a, b, q, shift, k),
    decreases m,
{
    if m > k {
        lemma_conv_tail(a, b, q, shift, k, (m - 1) as nat);
        lemma_zero_facts(b[q - (m - 1) + shift]);
        lemma_xor_ac(conv_n(a, b, q, shift, (m - 1) as nat), 0, 0);
    }
}

/// The first `deg` coefficients of `1 + X x`, from two on, evaluate to `1 + X y`.
proof fn lemma_eval_single_locator(x: u8, y: u8, deg: int)
    requires
        2 <= deg <= MAX_EC_SIZE,
    ensures
        poly_eval(single_locator(x).take(deg), y) == 1u8 ^ gf_mul(x, y),
{
    let t = single_locator(x).take(deg);
    lemma_eval_tail(t, y, 2, deg as nat);
    assert(gf_pow(y, 0) == 1);
    assert(gf_pow(y, 1) == gf_mul(gf_pow(y, 0), y));
    lemma_gf_mul_laws(1, y, 0);
    lemma_gf_mul_laws(y, 1, 0);
    lemma_gf_mul_laws(1, 1, 0);
    lemma_xor_ac(1, 0, 0);
    assert(poly_eval_n(t, y, 0) == 0);
    assert(poly_eval_n(t, y, 1) == poly_eval_n(t, y, 0) ^ gf_mul(t[0], gf_pow(y, 0)));
    assert(poly_eval_n(t, y, 2) == poly_eval_n(t, y, 1) ^ gf_mul(t[1], gf_pow(y, 1)));
}

/// The locator `1 + X x` vanishes at the inverse locator of position `p` of a block of `n`
/// codewords, the generator to the power `255 - (n - 1 - p)`, exactly at the position `p0`
/// that `X` locates.
pub proof fn lemma_chien_single_n(n: int, p0: int, p: int, deg: int)
    requires
        n <= 255,
        0 <= p0 < n,
        0 <= p < n,
        2 <= deg <= MAX_EC_SIZE,
    ensures
        (poly_eval(
            single_locator(locator(n, p0)).take(deg),
            gf_pow(2, (255 - (n - 1 - p)) as nat),
        ) == 0) == (p == p0),
{
    let x = locator(n, p0);
    let y = gf_pow(2, (255 - (n - 1 - p)) as nat);
    lemma_eval_single_locator(x, y, deg);
    let a = (n - 1 - p0) as nat;
    let c = (255 - (n - 1 - p)) as nat;
    lemma_gf_pow_add(2, a, c);
    lemma_gen_order(a + c);
    assert(a + c == 255 + p - p0);
    let v = gf_mul(x, y);
    lemma_xor_swap(1, v, 0, 0);
    lemma_xor_swap(1, 1, 0, 0);
    if p == p0 {
        assert(v == 1);
    } else {
        assert(v != 1);
        if 1u8 ^ v == 0 {
            assert(1 == v);
        }
    }
}

/// The same at the inverse locators of a block.
pub proof fn lemma_chien_single(b: Block, p0: int, p: int, deg: int)
    requires
        b.len <= 255,
        0 <= p0 < b.len,
        0 <= p < b.len,
        2 <= deg <= MAX_EC_SIZE,
    ensures
        (poly_eval(single_locator(locator(b.len as int, p0)).take(deg), inv_locator(b, p)) == 0)
            == (p == p0),
{
    lemma_chien_single_n(b.len as int, p0, p, deg);
}

/// The derivative of `1 + X x` is the constant `X`.
pub proof fn lemma_derivative_single(x: u8, y: u8)
    ensures
        poly_eval(derivative(single_locator(x)), y) == x,
{
    let d = derivative(single_locator(x));
    assert forall|j: int| 1 <= j < MAX_EC_SIZE implies #[trigger] d[j] == 0 by {}
    lemma_eval_tail(d, y, 1, MAX_EC_SIZE as nat);
    assert(gf_pow(y, 0) == 1);
    lemma_gf_mul_laws(x, 1, 0);
    lemma_xor_ac(x, 0, 0);
    assert(poly_eval_n(d, y, 0) == 0);
    assert(poly_eval_n(d, y, 1) == poly_eval_n(d, y, 0) ^ gf_mul(d[0], gf_pow(y, 0)));
}

/// The evaluator of one error: the syndromes `e * X^i` times `1 + X x`, from the first power
/// on, is the constant `e * X`.
pub proof fn lemma_omega_single(omg: Seq<u8>, synd: Seq<u8>, ec: int, e: u8, x: u8, y: u8)
    requires
        2 <= ec <= MAX_EC_SIZE,
        synd.len() == MAX_EC_SIZE,
        forall|i: int| 0 <= i < ec ==> #[trigger] synd[i] == gf_mul(e, gf_pow(x, i as nat)),
        omg.len() == MAX_EC_SIZE,
        forall|k: int|
            0 <= k < MAX_EC_SIZE ==> #[trigger] omg[k] == if k < ec - 1 {
                conv(single_locator(x), synd, k, 1)
            } else {
                0u8
            },
    ensures
        poly_eval(omg, y) == gf_mul(e, x),
{
    let c = single_locator(x);
    assert forall|k: int| 1 <= k < MAX_EC_SIZE implies #[trigger] omg[k] == 0 by {
        if k < ec - 1 {
            lemma_conv_tail(c, synd, k, 1, 2, (k + 1) as nat);
            assert(conv_n(c, synd, k, 1, 0) == 0);
            assert(conv_n(c, synd, k, 1, 1) == 0u8 ^ gf_mul(1, synd[k + 1]));
            assert(conv_n(c, synd, k, 1, 2) == conv_n(c, synd, k, 1, 1) ^ gf_mul(x, synd[k]));
            let pk = gf_pow(x, k as nat);
            assert(gf_pow(x, (k + 1) as nat) == gf_mul(pk, x));
            lemma_gf_mul_laws(1, synd[k + 1], 0);
            lemma_gf_mul_laws(synd[k + 1], 1, 0);
            lemma_xor_ac(synd[k + 1], 0, 0);
            lemma_gf_mul_assoc(e, pk, x);
            lemma_gf_mul_assoc(x, e, pk);
            lemma_gf_mul_laws(x, gf_mul(e, pk), 0);
            lemma_gf_mul_laws(gf_mul(e, pk), x, 0);
            lemma_gf_mul_laws(x, e, 0);
            lemma_gf_mul_assoc(e, x, pk);
            lemma_gf_mul_laws(x, pk, 0);
            lemma_xor_ac(synd[k + 1], 0, 0);
        }
    }
    lemma_eval_tail(omg, y, 1, MAX_EC_SIZE as nat);
    assert(conv_n(c, synd, 0, 1, 0) == 0);
    assert(omg[0] == 0u8 ^ gf_mul(1, synd[1]));
    assert(gf_pow(x, 0) == 1);
    assert(gf_pow(x, 1) == gf_mul(gf_pow(x, 0), x));
    lemma_gf_mul_laws(1, x, 0);
    lemma_gf_mul_laws(x, 1, 0);
    lemma_gf_mul_laws(1, synd[1], 0);
    lemma_gf_mul_laws(synd[1], 1, 0);
    lemma_xor_ac(synd[1], 0, 0);
    assert(gf_pow(y, 0) == 1);
    lemma_gf_mul_laws(omg[0], 1, 0);
    lemma_xor_ac(omg[0], 0, 0);
    assert(poly_eval_n(omg, y, 0) == 0);
    assert(poly_eval_n(omg, y, 1) == poly_eval_n(omg, y, 0) ^ gf_mul(omg[0], gf_pow(y, 0)));
}

/// Forney's quotient for one error gives its magnitude back.
pub proof fn lemma_forney_single(e: u8, x: u8)
    requires
        x != 0,
    ensures
        gf_mul(gf_mul(e, x), inverse_of(x)) == e,
{
    lemma_nonzero_invertible(x);
    lemma_gf_mul_assoc(e, x, inverse_of(x));
    lemma_gf_mul_laws(e, 1, 0);
}


/// What the decoder holds for a block that differs from a codeword in the one place `p0`, by
/// `e`, once Berlekamp-Massey has run: the syndromes `e * X^i` and the locator `1 + X x`.
pub open spec fn single_error_state(b: Block, synd: Seq<u8>, psi: Seq<u8>, p0: int, e: u8) -> bool {
    let ec = b.len - b.dlen;
    &&& b.len <= 255
    &&& 2 <= ec
    &&& 0 <= p0 < b.len
    &&& e != 0
    &&& psi == single_locator(locator(b.len as int, p0))
    &&& forall|i: int|
        0 <= i < ec ==> #[trigger] synd[i] == gf_mul(e, gf_pow(locator(b.len as int, p0), i as nat))
    &&& valid_codeword(add_at(b.codeword(), p0, e), ec as nat)
}

/// The locator of a position of a block of at most 255 codewords is not zero.
pub proof fn lemma_locator_nonzero(n: int, p: int)
    requires
        0 <= p < n <= 255,
    ensures
        locator(n, p) != 0,
{
    crate::ec::galois::lemma_gen_pow_log((n - 1 - p) as nat);
}


/// `r` differs from `cw` exactly at `p`, where `cw` is `r` plus a non-zero `e`, and `r` has
/// the syndromes of that one error.
pub open spec fn one_change_at(r: Seq<u8>, cw: Seq<u8>, ec: int, p: int) -> bool {
    let e = cw[p] ^ r[p];
    &&& e != 0
    &&& cw == add_at(r, p, e)
    &&& r == add_at(cw, p, e)
    &&& forall|i: int|
        0 <= i < ec ==> #[trigger] syndrome(r, i as nat) == gf_mul(
            e,
            gf_pow(locator(r.len() as int, p), i as nat),
        )
}

/// A word within one changed place of a codeword either is that codeword, or is not a
/// codeword and differs from it at one place, by the error whose syndromes it has.
pub proof fn lemma_one_change_cases(r0: Seq<u8>, cw: Seq<u8>, ec: nat)
    requires
        r0.len() == cw.len(),
        1 <= ec,
        valid_codeword(cw, ec),
        hamming(r0, cw, r0.len()) <= 1,
    ensures
        r0 == cw || (!valid_codeword(r0, ec) && exists|p: int|
            0 <= p < r0.len() && one_change_at(r0, cw, ec as int, p)),
{
    let n = r0.len();
    lemma_hamming_small(r0, cw, n);
    if hamming(r0, cw, n) == 0 {
        assert(r0 =~= cw);
    } else {
        let p = choose|p: int|
            0 <= p < n && r0[p] != cw[p] && forall|i: int|
                0 <= i < n && i != p ==> #[trigger] r0[i] == cw[i];
        let e = cw[p] ^ r0[p];
        lemma_xor_swap(cw[p], r0[p], 0, 0);
        lemma_xor_swap(r0[p], cw[p], 0, 0);
        lemma_xor_ac(r0[p], e, 0);
        lemma_xor_ac(cw[p], e, 0);
        lemma_xor_ac(cw[p], r0[p], 0);
        assert(e != 0);
        assert(r0[p] ^ e == cw[p]);
        assert(cw[p] ^ e == r0[p]);
        assert(cw =~= add_at(r0, p, e));
        assert(r0 =~= add_at(cw, p, e));
        assert forall|i: int| 0 <= i < ec implies #[trigger] syndrome(r0, i as nat) == gf_mul(
            e,
            gf_pow(locator(n as int, p), i as nat),
        ) by {
            lemma_single_error_syndrome(cw, ec, p, e, i as nat);
        }
        lemma_single_error_syndrome(cw, ec, p, e, 0);
        assert(gf_pow(locator(n as int, p), 0) == 1);
        lemma_gf_mul_laws(e, 1, 0);
        assert(syndrome(r0, 0) == e);
        assert(one_change_at(r0, cw, ec as int, p));
    }
}

/// `cw` is a codeword of the block's code that the block holds with at most one codeword
/// changed, in a block of at most 255 codewords with at least two parity codewords.
pub open spec fn corrects_one(b: Block, cw: Seq<u8>) -> bool {
    &&& b.wf()
    &&& b.len <= 255
    &&& 2 <= b.len - b.dlen
    &&& cw.len() == b.len
    &&& valid_codeword(cw, (b.len - b.dlen) as nat)
    &&& hamming(b.codeword(), cw, b.len as nat) <= 1
}

/// The block differs from `cw` exactly at `p`, where `cw` is the block plus a non-zero `e`,
/// and the block's syndromes are those of that one error.
pub open spec fn corrects_at(b: Block, cw: Seq<u8>, p: int) -> bool {
    let e = cw[p] ^ b.codeword()[p];
    &&& e != 0
    &&& cw == add_at(b.codeword(), p, e)
    &&& b.codeword() == add_at(cw, p, e)
    &&& forall|i: int|
        0 <= i < b.len - b.dlen ==> #[trigger] syndrome(b.codeword(), i as nat) == gf_mul(
            e,
            gf_pow(locator(b.len as int, p), i as nat),
        )
}

/// A block within one changed codeword of a codeword either is that codeword, or is not a
/// codeword and differs from it at one place, by the error whose syndromes it has.
pub proof fn lemma_corrects_one_cases(b: Block, cw: Seq<u8>)
    requires
        corrects_one(b, cw),
    ensures
        b.codeword() == cw || (!valid_codeword(b.codeword(), (b.len - b.dlen) as nat) && exists|
            p: int,
        | 0 <= p < b.len && corrects_at(b, cw, p)),
{
    let r0 = b.codeword();
    let n = b.len as nat;
    let ec = (b.len - b.dlen) as nat;
    lemma_hamming_small(r0, cw, n);
    if hamming(r0, cw, n) == 0 {
        assert(r0 =~= cw);
    } else {
        let p = choose|p: int|
            0 <= p < n && r0[p] != cw[p] && forall|i: int|
                0 <= i < n && i != p ==> #[trigger] r0[i] == cw[i];
        let e = cw[p] ^ r0[p];
        lemma_xor_swap(cw[p], r0[p], 0, 0);
        lemma_xor_swap(r0[p], cw[p], 0, 0);
        lemma_xor_ac(r0[p], e, 0);
        lemma_xor_ac(cw[p], e, 0);
        lemma_xor_ac(cw[p], r0[p], 0);
        assert(e != 0);
        assert(r0[p] ^ e == cw[p]);
        assert(cw[p] ^ e == r0[p]);
        assert(cw =~= add_at(r0, p, e));
        assert(r0 =~= add_at(cw, p, e));
        assert forall|i: int| 0 <= i < ec implies #[trigger] syndrome(r0, i as nat) == gf_mul(
            e,
            gf_pow(locator(b.len as int, p), i as nat),
        ) by {
            lemma_single_error_syndrome(cw, ec, p, e, i as nat);
        }
        lemma_single_error_syndrome(cw, ec, p, e, 0);
        assert(gf_pow(locator(b.len as int, p), 0) == 1);
        lemma_gf_mul_laws(e, 1, 0);
        assert(syndrome(r0, 0) == e);
        assert(corrects_at(b, cw, p));
    }
}


/// A non-codeword has at most one codeword within one changed place, when there are at
/// least two syndromes: the first two syndromes fix the error's magnitude and locator.
pub proof fn lemma_one_change_unique(r0: Seq<u8>, cw: Seq<u8>, cw2: Seq<u8>, ec: int, p: int, p2: int)
    requires
        r0.len() <= 255,
        2 <= ec,
        0 <= p < r0.len(),
        0 <= p2 < r0.len(),
        one_change_at(r0, cw, ec, p),
        one_change_at(r0, cw2, ec, p2),
    ensures
        cw == cw2,
{
    let n = r0.len() as int;
    let e = cw[p] ^ r0[p];
    let e2 = cw2[p2] ^ r0[p2];
    let x = locator(n, p);
    let x2 = locator(n, p2);
    let z: int = 0;
    assert(syndrome(r0, z as nat) == gf_mul(e, gf_pow(x, z as nat)));
    assert(syndrome(r0, z as nat) == gf_mul(e2, gf_pow(x2, z as nat)));
    assert(gf_pow(x, 0) == 1 && gf_pow(x2, 0) == 1);
    lemma_gf_mul_laws(e, 1, 0);
    lemma_gf_mul_laws(e2, 1, 0);
    assert(e == e2);
    let o: int = 1;
    assert(syndrome(r0, o as nat) == gf_mul(e, gf_pow(x, o as nat)));
    assert(syndrome(r0, o as nat) == gf_mul(e, gf_pow(x2, o as nat)));
    assert(gf_pow(x, 1) == gf_mul(gf_pow(x, 0), x));
    assert(gf_pow(x2, 1) == gf_mul(gf_pow(x2, 0), x2));
    lemma_gf_mul_laws(1, x, 0);
    lemma_gf_mul_laws(x, 1, 0);
    lemma_gf_mul_laws(1, x2, 0);
    lemma_gf_mul_laws(x2, 1, 0);
    lemma_gf_mul_laws(e, x, 0);
    lemma_gf_mul_laws(e, x2, 0);
    lemma_nonzero_invertible(e);
    lemma_gf_mul_assoc(x, e, inverse_of(e));
    lemma_gf_mul_assoc(x2, e, inverse_of(e));
    assert(x == x2);
    crate::ec::galois::lemma_gen_pow_log((n - 1 - p) as nat);
    crate::ec::galois::lemma_gen_pow_log((n - 1 - p2) as nat);
    assert(p == p2);
}

/// The decoder's state for a word `r0` of at most 255 codewords that differs from a
/// codeword in the one place `p0`, by `e`: its syndromes and the locator `1 + X x`.
pub open spec fn single_error_seq_state(
    r0: Seq<u8>,
    ec: int,
    synd: Seq<u8>,
    psi: Seq<u8>,
    p0: int,
    e: u8,
) -> bool {
    &&& r0.len() <= 255
    &&& 2 <= ec
    &&& 0 <= p0 < r0.len()
    &&& e != 0
    &&& psi == single_locator(locator(r0.len() as int, p0))
    &&& forall|i: int|
        0 <= i < ec ==> #[trigger] synd[i] == gf_mul(e, gf_pow(locator(r0.len() as int, p0), i as nat))
    &&& valid_codeword(add_at(r0, p0, e), ec as nat)
}


/// The polynomial `1`, padded with zeros.
pub open spec fn unit_poly() -> Seq<u8> {
    Seq::new(MAX_EC_SIZE as nat, |i: int| if i == 0 { 1u8 } else { 0u8 })
}

/// The erasure locator of one erased place is the locator `1 + X x` of an error there.
pub proof fn lemma_erasure_poly_single(x: u8)
    ensures
        erasure_poly(seq![x]) == single_locator(x),
{
    let xs = seq![x];
    assert(xs.drop_last() =~= Seq::<u8>::empty());
    let p = erasure_poly(Seq::<u8>::empty());
    lemma_gf_mul_laws(x, 1, 0);
    lemma_zero_facts(x);
    lemma_xor_ac(x, 0, 0);
    lemma_xor_ac(0, 0, 0);
    assert forall|k: int| 0 <= k < MAX_EC_SIZE implies #[trigger] erasure_poly(xs)[k]
        == single_locator(x)[k] by {
        if k >= 1 {
            assert(erasure_poly(xs)[k] == p[k] ^ gf_mul(x, p[k - 1]));
        }
    }
    assert(erasure_poly(xs) =~= single_locator(x));
}

/// Berlekamp-Massey on zeros finds the register `1`.
pub proof fn lemma_zero_register(c: Seq<u8>, s: Seq<u8>, l: int, n: int)
    requires
        c.len() == MAX_EC_SIZE,
        c[0] == 1,
        0 <= n <= MAX_EC_SIZE,
        n <= s.len(),
        forall|i: int| 0 <= i < n ==> #[trigger] s[i] == 0,
        generates(c, s, l, n),
        shortest(s, l, n),
    ensures
        c == unit_poly(),
{
    let u = unit_poly();
    assert forall|k: int| 0 <= k < n implies #[trigger] discrepancy(u, s, k) == 0 by {
        lemma_terms_zero_tail(u, s, k, 0, k + 1);
        assert(lfsr_terms(u, s, k, 0) == 0);
        assert(lfsr_terms(u, s, k, 1) == 0u8 ^ gf_mul(1, s[k]));
        lemma_gf_mul_laws(1, 0, 0);
        lemma_gf_mul_laws(0, 1, 0);
        lemma_xor_ac(0, 0, 0);
    }
    assert(generates(u, s, 0, n));
    assert(u.len() == MAX_EC_SIZE && u[0] == 1);
    assert(l <= 0);
    assert(c =~= u);
}

/// Multiplying by `1` changes nothing.
pub proof fn lemma_conv_unit(a: Seq<u8>, t: int)
    requires
        0 <= t < MAX_EC_SIZE,
    ensures
        conv(a, unit_poly(), t, 0) == a[t],
{
    lemma_conv_unit_n(a, t, (t + 1) as nat);
}

proof fn lemma_conv_unit_n(a: Seq<u8>, t: int, m: nat)
    requires
        0 <= t < MAX_EC_SIZE,
        m <= t + 1,
    ensures
        conv_n(a, unit_poly(), t, 0, m) == if m == t + 1 {
            a[t]
        } else {
            0u8
        },
    decreases m,
{
    if m > 0 {
        let k = (m - 1) as nat;
        lemma_conv_unit_n(a, t, k);
        let u = unit_poly();
        let v = conv_n(a, u, t, 0, k);
        lemma_gf_mul_laws(a[k as int], 1, 0);
        lemma_zero_facts(a[k as int]);
        lemma_xor_ac(0, 0, 0);
        lemma_xor_ac(a[k as int], 0, 0);
        assert(u[t - k] == if k == t { 1u8 } else { 0u8 });
    }
}

/// The syndromes of one error at an erased place, times its erasure locator, vanish from
/// the first power on: the error leaves nothing for Berlekamp-Massey to find.
pub proof fn lemma_erased_single_modified(synd: Seq<u8>, ec: int, e: u8, x: u8, k: int)
    requires
        1 <= k < ec <= MAX_EC_SIZE,
        synd.len() == MAX_EC_SIZE,
        forall|i: int| 0 <= i < ec ==> #[trigger] synd[i] == gf_mul(e, gf_pow(x, i as nat)),
    ensures
        conv_n(single_locator(x), synd, k, 0, (k + 1) as nat) == 0,
{
    let c = single_locator(x);
    lemma_conv_tail(c, synd, k, 0, 2, (k + 1) as nat);
    assert(conv_n(c, synd, k, 0, 0) == 0);
    assert(conv_n(c, synd, k, 0, 1) == 0u8 ^ gf_mul(1, synd[k]));
    assert(conv_n(c, synd, k, 0, 2) == conv_n(c, synd, k, 0, 1) ^ gf_mul(x, synd[k - 1]));
    let pk = gf_pow(x, (k - 1) as nat);
    assert(gf_pow(x, k as nat) == gf_mul(pk, x));
    lemma_gf_mul_laws(1, synd[k], 0);
    lemma_gf_mul_laws(synd[k], 1, 0);
    lemma_xor_ac(synd[k], 0, 0);
    lemma_gf_mul_assoc(e, pk, x);
    lemma_gf_mul_laws(x, gf_mul(e, pk), 0);
    assert(gf_mul(x, synd[k - 1]) == synd[k]);
}


/// `cw` is a codeword the block holds with its one flagged place, `p0`, possibly changed and
/// every other place intact: one erasure and no unflagged error.
pub open spec fn erased_single(b: Block, erased: Seq<bool>, cw: Seq<u8>, p0: int) -> bool {
    &&& corrects_one(b, cw)
    &&& flagged_count(erased, b.len as nat) == 1
    &&& 0 <= p0 < b.len
    &&& p0 < erased.len()
    &&& erased[p0]
    &&& forall|i: int| 0 <= i < b.len && i != p0 ==> #[trigger] b.codeword()[i] == cw[i]
}


/// Words that agree everywhere but at `p` differ in at most one place.
pub proof fn lemma_hamming_one_place(a: Seq<u8>, b: Seq<u8>, m: nat, p: int)
    requires
        forall|i: int| 0 <= i < m && i != p ==> #[trigger] a[i] == b[i],
    ensures
        hamming(a, b, m) <= 1,
        hamming(a, b, m) <= (if 0 <= p < m { 1nat } else { 0nat }),
    decreases m,
{
    if m > 0 {
        lemma_hamming_one_place(a, b, (m - 1) as nat, p);
    }
}

} // verus!
