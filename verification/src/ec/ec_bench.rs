//! A second Reed-Solomon corrector, on fixed arrays of 64 field elements: syndromes by
//! direct powers of the generator, the Berlekamp-Massey locator, and Forney's magnitudes.
use crate::ec::decoder::{
    conv, conv_n, derivative, discrepancy, generates, lemma_bm_shortest, lemma_bm_step, lemma_terms_zero_tail,
    lfsr_terms, shortest,
    reversed, syndrome, valid_codeword,
};
use crate::ec::galois::{
    gf_mul, gf_pow, lemma_gf_mul_laws, lemma_gf_pow_mul, lemma_zero_facts, poly_eval_n, G,
};
use crate::ec::correction::{
    add_at, hamming, lemma_chien_single_n, lemma_derivative_single, lemma_forney_single,
    lemma_locator_nonzero, lemma_omega_single, lemma_one_change_cases, lemma_one_change_unique,
    lemma_single_error_register, locator, one_change_at, single_error_seq_state,
};
use vstd::prelude::*;

verus! {

/// What can go wrong while reading a symbol.
#[derive(Debug, Copy, Clone, PartialEq, Eq, Structural)]
pub enum DeQRError {
    /// Could not write the output to the output stream or string.
    IoError,
    /// Expected more bits to decode.
    DataUnderflow,
    /// Expected fewer bits to decode.
    DataOverflow,
    /// Unknown data type in the encoding.
    UnknownDataType,
    /// Could not correct the errors: the block is corrupt.
    DataEcc,
    /// Could not read the format information from either location.
    FormatEcc,
    /// Unsupported or non-existent version read.
    InvalidVersion,
    /// Unsupported or non-existent grid size read.
    InvalidGridSize,
    /// The output was not UTF-8.
    EncodingError,
}

impl DeQRError {
    /// The description of the error.
    pub open spec fn spec_message(self) -> Seq<char> {
        match self {
            DeQRError::IoError => "IoError(Could not write to output)"@,
            DeQRError::DataUnderflow => "DataUnderflow(Expected more bits to decode)"@,
            DeQRError::DataOverflow => "DataOverflow(Expected less bits to decode)"@,
            DeQRError::UnknownDataType => "UnknownDataType(DataType not known or not implemented)"@,
            DeQRError::DataEcc => "Ecc(Too many errors to correct)"@,
            DeQRError::FormatEcc => "Ecc(Version information corrupt)"@,
            DeQRError::InvalidVersion => "InvalidVersion(Invalid version or corrupt)"@,
            DeQRError::InvalidGridSize => "InvalidGridSize(Invalid version or corrupt)"@,
            DeQRError::EncodingError => "Encoding(Not UTF8)"@,
        }
    }

    /// The description of the error.
    pub fn message(&self) -> (r: &'static str)
        ensures
            r@ == self.spec_message(),
    {
        match *self {
            DeQRError::IoError => "IoError(Could not write to output)",
            DeQRError::DataUnderflow => "DataUnderflow(Expected more bits to decode)",
            DeQRError::DataOverflow => "DataOverflow(Expected less bits to decode)",
            DeQRError::UnknownDataType => "UnknownDataType(DataType not known or not implemented)",
            DeQRError::DataEcc => "Ecc(Too many errors to correct)",
            DeQRError::FormatEcc => "Ecc(Version information corrupt)",
            DeQRError::InvalidVersion => "InvalidVersion(Invalid version or corrupt)",
            DeQRError::InvalidGridSize => "InvalidGridSize(Invalid version or corrupt)",
            DeQRError::EncodingError => "Encoding(Not UTF8)",
        }
    }
}

/// The layout of an error correction block: its size, its data codewords, and how many
/// such blocks there are.
#[derive(Debug, Copy, Clone, PartialEq, Eq, Structural)]
pub struct RSParameters {
    pub bs: usize,
    pub dw: usize,
    pub ns: usize,
}

/// Adds `c` times `src`, shifted up by `shift` places, to `dst`; what would pass the last
/// place is dropped.
pub fn poly_add(dst: &mut [u8; 64], src: &[u8; 64], c: u8, shift: usize)
    ensures
        forall|p: int|
            0 <= p < 64 ==> #[trigger] final(dst)@[p] == if p >= shift {
                old(dst)@[p] ^ gf_mul(src@[p - shift], c)
            } else {
                old(dst)@[p]
            },
{
    if c == 0 {
        proof {
            assert forall|p: int| 0 <= p < 64 && p >= shift implies #[trigger] dst@[p] == dst@[p]
                ^ gf_mul(src@[p - shift], c) by {
                lemma_zero_facts(src@[p - shift]);
                lemma_zero_facts(dst@[p]);
            }
        }
        return ;
    }
    let ghost d0 = dst@;
    let mut i: usize = 0;
    while i < 64
        invariant_except_break
            i <= 64,
        invariant
            dst@.len() == 64,
            d0.len() == 64,
            forall|p: int|
                0 <= p < 64 ==> #[trigger] dst@[p] == if shift <= p < i + shift {
                    d0[p] ^ gf_mul(src@[p - shift], c)
                } else {
                    d0[p]
                },
        ensures
            forall|p: int|
                0 <= p < 64 ==> #[trigger] dst@[p] == if shift <= p {
                    d0[p] ^ gf_mul(src@[p - shift], c)
                } else {
                    d0[p]
                },
        decreases 64 - i,
    {
        if shift >= 64 - i {
            break ;
        }
        let p = i + shift;
        let v = src[i];
        dst[p] = G(dst[p]).add(G(v).mul(G(c))).0;
        i += 1;
    }
}

/// The value at `x` of the polynomial whose coefficient of `x^i` is `s[i]`.
pub fn poly_eval(s: &[u8; 64], x: u8) -> (r: u8)
    ensures
        r == crate::ec::galois::poly_eval(s@, x),
{
    crate::ec::decoder::eval_poly(s.as_slice(), x)
}

/// The connection polynomial that the Berlekamp-Massey algorithm finds for the first `n`
/// values of `s`: a shift register that generates them.
#[verifier::rlimit(60)]
#[verifier::spinoff_prover]
pub fn berlekamp_massey(s: &[u8; 64], n: usize) -> (r: [u8; 64])
    requires
        n <= 64,
    ensures
        r@[0] == 1,
        exists|l: int| #[trigger] generates(r@, s@, l, n as int) && shortest(s@, l, n as int),
{
    let ghost sv = s@;
    let mut ts: [u8; 64] = [0u8; 64];
    let mut cs: [u8; 64] = [0u8; 64];
    let mut bs: [u8; 64] = [0u8; 64];
    let mut l: usize = 0;
    let mut m: usize = 1;
    let mut b = G(1);
    bs[0] = 1;
    cs[0] = 1;
    let ghost mut lb: int = 0;
    let mut k: usize = 0;
    while k < n
        invariant
            sv == s@,
            sv.len() == 64,
            n <= 64,
            k <= n,
            l <= k,
            1 <= m <= k + 1,
            0 <= lb,
            l + lb == k + 1 - m,
            cs@.len() == 64,
            bs@.len() == 64,
            cs@[0] == 1,
            b.0 != 0,
            generates(cs@, sv, l as int, k as int),
            shortest(sv, l as int, k as int),
            forall|i: int| lb < i < 64 ==> #[trigger] bs@[i] == 0,
            forall|j: int| lb <= j < k - m ==> #[trigger] discrepancy(bs@, sv, j) == 0,
            k - m >= 0 ==> discrepancy(bs@, sv, k - m) == b.0,
        decreases n - k,
    {
        let ghost c_start = cs@;
        let ghost l_start = l as int;
        let mut d = G(s[k]);
        proof {
            lemma_gf_mul_laws(1, sv[k as int], 0);
            lemma_gf_mul_laws(sv[k as int], 1, 0);
            lemma_zero_facts(sv[k as int]);
            assert(lfsr_terms(cs@, sv, k as int, 0) == 0);
            assert(lfsr_terms(cs@, sv, k as int, 1) == d.0);
        }
        let mut i: usize = 1;
        while i <= l
            invariant
                sv == s@,
                sv.len() == 64,
                l <= k < n <= 64,
                1 <= i <= l + 1,
                cs@.len() == 64,
                d.0 == lfsr_terms(cs@, sv, k as int, i as int),
            decreases l + 1 - i,
        {
            d = d.add(G(cs[i]).mul(G(s[k - i])));
            i += 1;
        }
        proof {
            lemma_terms_zero_tail(cs@, sv, k as int, l as int, k + 1);
        }
        let mult = match d.div(b) {
            Ok(v) => v,
            Err(_) => {
                proof {
                    assert(false);
                }
                G(0)
            },
        };
        if d.0 == 0 {
            m += 1;
        } else {
            let ghost c0 = cs@;
            let ghost b0 = bs@;
            if l * 2 <= k {
                ts = cs;
                poly_add(&mut cs, &bs, mult.0, m);
                proof {
                    assert forall|p: int| 0 <= p < 64 implies #[trigger] cs@[p] == if m <= p {
                        c0[p] ^ gf_mul(mult.0, b0[p - m])
                    } else {
                        c0[p]
                    } by {
                        if m <= p {
                            lemma_gf_mul_laws(b0[p - m], mult.0, 0);
                        }
                    }
                    lemma_bm_step(c0, cs@, b0, sv, mult.0, d.0, b.0, l as int, lb, m as int, k as int);
                    lb = l as int;
                }
                bs = ts;
                l = k + 1 - l;
                b = d;
                m = 1;
            } else {
                poly_add(&mut cs, &bs, mult.0, m);
                proof {
                    assert forall|p: int| 0 <= p < 64 implies #[trigger] cs@[p] == if m <= p {
                        c0[p] ^ gf_mul(mult.0, b0[p - m])
                    } else {
                        c0[p]
                    } by {
                        if m <= p {
                            lemma_gf_mul_laws(b0[p - m], mult.0, 0);
                        }
                    }
                    lemma_bm_step(c0, cs@, b0, sv, mult.0, d.0, b.0, l as int, lb, m as int, k as int);
                }
                m += 1;
            }
        }
        proof {
            lemma_bm_shortest(c_start, sv, l_start, k as int, l as int);
        }
        k += 1;
    }
    proof {
        assert(generates(cs@, sv, l as int, n as int));
    }
    cs
}


/// The sum of `c[len - 1 - j] * a^(i * j)` over `j < n`, `a` the generator: the first `n`
/// terms of syndrome `i` of `c`, its last codeword the constant term.
pub open spec fn power_terms(c: Seq<u8>, i: nat, n: nat) -> u8
    decreases n,
{
    if n == 0 {
        0
    } else {
        power_terms(c, i, (n - 1) as nat) ^ gf_mul(
            c[c.len() - 1 - (n - 1)],
            gf_pow(2, i * (n - 1) as nat),
        )
    }
}

/// Summing direct powers of the generator gives the syndrome.
proof fn lemma_power_terms(c: Seq<u8>, i: nat, n: nat)
    requires
        n <= c.len(),
    ensures
        power_terms(c, i, n) == poly_eval_n(reversed(c), gf_pow(2, i), n),
    decreases n,
{
    if n > 0 {
        lemma_power_terms(c, i, (n - 1) as nat);
        lemma_gf_pow_mul(2, i, (n - 1) as nat);
    }
}

/// The syndromes of `block` for `npar` error correction codewords, padded with zeros:
/// `Ok` when all of them are zero, `Err` otherwise.
pub fn block_syndromes(block: &[u8], npar: usize) -> (r: Result<[u8; 64], [u8; 64]>)
    requires
        npar <= 64,
        64 * block@.len() <= usize::MAX,
    ensures
        ({
            let s = match r {
                Ok(s) => s,
                Err(s) => s,
            };
            &&& forall|i: int|
                0 <= i < 64 ==> #[trigger] s@[i] == if i < npar {
                    syndrome(block@, i as nat)
                } else {
                    0u8
                }
            &&& (r is Ok <==> valid_codeword(block@, npar as nat))
        }),
        r matches Err(s) ==> forall|i: int|
            0 <= i < npar ==> #[trigger] s@[i] == syndrome(block@, i as nat),
{
    let mut nonzero: bool = false;
    let mut s: [u8; 64] = [0u8; 64];
    let len = block.len();
    let mut i: usize = 0;
    while i < npar
        invariant
            npar <= 64,
            i <= npar,
            len == block@.len(),
            s@.len() == 64,
            forall|t: int|
                0 <= t < 64 ==> #[trigger] s@[t] == if t < i {
                    syndrome(block@, t as nat)
                } else {
                    0u8
                },
            64 * len <= usize::MAX,
            nonzero == !(forall|t: nat| t < i ==> #[trigger] syndrome(block@, t) == 0),
        decreases npar - i,
    {
        let mut j: usize = 0;
        let mut acc = G(0);
        while j < len
            invariant
                i < npar <= 64,
                j <= len,
                len == block@.len(),
                64 * len <= usize::MAX,
                acc.0 == power_terms(block@, i as nat, j as nat),
            decreases len - j,
        {
            let c = G(block[len - 1 - j]);
            proof {
                assert(i * j <= 64 * len) by (nonlinear_arith)
                    requires
                        i < 64,
                        j < len,
                ;
            }
            acc = acc.add(c.mul(G::gen_pow(i * j)));
            j += 1;
        }
        proof {
            lemma_power_terms(block@, i as nat, len as nat);
            assert(acc.0 == syndrome(block@, i as nat));
        }
        s[i] = acc.0;
        if acc.0 != 0 {
            nonzero = true;
        }
        proof {
            assert((forall|t: nat| t < i + 1 ==> #[trigger] syndrome(block@, t) == 0) == ((forall|
                t: nat,
            | t < i ==> #[trigger] syndrome(block@, t) == 0) && syndrome(block@, i as nat) == 0));
        }
        i += 1;
    }
    if nonzero {
        Err(s)
    } else {
        Ok(s)
    }
}

/// The error evaluator: coefficient `t` of the product of `sigma` and the syndromes from the
/// second on, for `t < npar`, and zero above.
pub fn eloc_poly(s: &[u8; 64], sigma: &[u8; 64], npar: usize) -> (r: [u8; 64])
    requires
        npar < 64,
    ensures
        forall|t: int|
            0 <= t < 64 ==> #[trigger] r@[t] == if t < npar {
                conv(sigma@, s@, t, 1)
            } else {
                0u8
            },
{
    let mut omega: [u8; 64] = [0u8; 64];
    let mut i: usize = 0;
    while i < npar
        invariant
            npar < 64,
            i <= npar,
            omega@.len() == 64,
            forall|t: int|
                0 <= t < 64 ==> #[trigger] omega@[t] == if t < npar {
                    conv_n(sigma@, s@, t, 1, if t + 1 < i { (t + 1) as nat } else { i as nat })
                } else {
                    0u8
                },
        decreases npar - i,
    {
        let a = sigma[i];
        let mut j: usize = 0;
        while j < npar - i
            invariant
                npar < 64,
                i < npar,
                j <= npar - i,
                a == sigma@[i as int],
                omega@.len() == 64,
                forall|t: int|
                    0 <= t < 64 ==> #[trigger] omega@[t] == if t < npar {
                        conv_n(
                            sigma@,
                            s@,
                            t,
                            1,
                            if t + 1 < i {
                                (t + 1) as nat
                            } else if i <= t < i + j {
                                (i + 1) as nat
                            } else {
                                i as nat
                            },
                        )
                    } else {
                        0u8
                    },
            decreases npar - i - j,
        {
            let b = s[j + 1];
            let t = i + j;
            proof {
                assert(conv_n(sigma@, s@, t as int, 1, (i + 1) as nat) == conv_n(
                    sigma@,
                    s@,
                    t as int,
                    1,
                    i as nat,
                ) ^ gf_mul(sigma@[i as int], s@[j + 1]));
            }
            omega[t] = G(omega[t]).add(G(a).mul(G(b))).0;
            j += 1;
        }
        i += 1;
    }
    proof {
        assert forall|t: int| 0 <= t < 64 implies #[trigger] omega@[t] == if t < npar {
            conv(sigma@, s@, t, 1)
        } else {
            0u8
        } by {}
    }
    omega
}

/// `cw` is a codeword of `npar` parity codewords, of at most 255 codewords with at least two
/// of them parity, that `r` holds with at most one codeword changed.
pub open spec fn within_one_change(r: Seq<u8>, cw: Seq<u8>, npar: int) -> bool {
    &&& r.len() <= 255
    &&& 2 <= npar
    &&& cw.len() == r.len()
    &&& valid_codeword(cw, npar as nat)
    &&& hamming(r, cw, r.len()) <= 1
}

/// Corrects the first `ecc.bs` codewords of `block` in place: finds the error locator from
/// the syndromes, its roots by trying every position, and the error magnitudes by Forney's
/// formula. Succeeds only when the corrected codewords have every syndrome zero; a block
/// that already has them is left as it is; a block of at most 255 codewords with at least
/// two parity codewords that differs from a codeword in one place is corrected to it. The
/// algorithm is meant to correct up to half as many errors as there are parity codewords;
/// the contract states the single error.
#[verifier::rlimit(40)]
pub fn correct_block(block: &mut [u8], ecc: &RSParameters) -> (r: Result<(), DeQRError>)
    requires
        ecc.dw < ecc.bs <= old(block)@.len(),
        ecc.bs - ecc.dw <= 64,
        ecc.bs <= 256,
    ensures
        final(block)@.len() == old(block)@.len(),
        forall|p: int|
            ecc.bs <= p < old(block)@.len() ==> #[trigger] final(block)@[p] == old(block)@[p],
        valid_codeword(old(block)@.subrange(0, ecc.bs as int), (ecc.bs - ecc.dw) as nat) ==> r is Ok
            && final(block)@ == old(block)@,
        r is Ok ==> valid_codeword(
            final(block)@.subrange(0, ecc.bs as int),
            (ecc.bs - ecc.dw) as nat,
        ),
        r is Err ==> r == Err::<(), DeQRError>(DeQRError::DataEcc),
        forall|cw: Seq<u8>|
            #![trigger valid_codeword(cw, (ecc.bs - ecc.dw) as nat)]
            within_one_change(old(block)@.subrange(0, ecc.bs as int), cw, ecc.bs - ecc.dw) ==> {
                &&& r is Ok
                &&& final(block)@.subrange(0, ecc.bs as int) == cw
            },
{
    let bs = ecc.bs;
    let npar = bs - ecc.dw;
    let ghost r0 = block@.subrange(0, bs as int);
    let mut sigma_deriv: [u8; 64] = [0u8; 64];
    let first = vstd::slice::slice_subrange(block, 0, bs);
    let res0 = block_syndromes(first, npar);
    proof {
        assert(first@ == r0);
    }
    let s = match res0 {
        Ok(_) => {
            proof {
                assert forall|cw: Seq<u8>|
                    #![trigger valid_codeword(cw, npar as nat)]
                    within_one_change(r0, cw, npar as int) implies r0 == cw by {
                    lemma_one_change_cases(r0, cw, npar as nat);
                }
            }
            return Ok(());
        },
        Err(s) => s,
    };
    proof {
        assert(res0 == Err::<[u8; 64], [u8; 64]>(s));
        assert forall|i: int| 0 <= i < npar implies #[trigger] s@[i] == syndrome(r0, i as nat) by {}
    }
    let sigma = berlekamp_massey(&s, npar);
    // A codeword one change away, if there is one, and the change.
    let ghost good = exists|cw: Seq<u8>|
        #![trigger valid_codeword(cw, npar as nat)]
        within_one_change(r0, cw, npar as int);
    let ghost cw0 = choose|cw: Seq<u8>|
        #![trigger valid_codeword(cw, npar as nat)]
        within_one_change(r0, cw, npar as int);
    let ghost p0 = choose|p: int| 0 <= p < r0.len() && one_change_at(r0, cw0, npar as int, p);
    let ghost e = cw0[p0] ^ r0[p0];
    let ghost x = locator(bs as int, p0);
    proof {
        if good {
            lemma_one_change_cases(r0, cw0, npar as nat);
            assert forall|i: int| 0 <= i < npar implies #[trigger] s@[i] == gf_mul(
                e,
                gf_pow(x, i as nat),
            ) by {
                assert(s@[i] == syndrome(r0, i as nat));
                assert(syndrome(r0, i as nat) == gf_mul(e, gf_pow(x, i as nat)));
            }
            assert(cw0 == add_at(r0, p0, e));
            let l = choose|l: int|
                #[trigger] generates(sigma@, s@, l, npar as int) && shortest(s@, l, npar as int);
            lemma_single_error_register(sigma@, s@, l, npar as int, e, x);
            lemma_locator_nonzero(bs as int, p0);
        }
    }
    let mut i: usize = 1;
    while i < 64
        invariant
            1 <= i <= 65,
            i % 2 == 1,
            sigma_deriv@.len() == 64,
            forall|q: int|
                0 <= q < 64 ==> #[trigger] sigma_deriv@[q] == if q + 1 < i && q % 2 == 0 {
                    sigma@[q + 1]
                } else {
                    0u8
                },
        decreases 65 - i,
    {
        sigma_deriv[i - 1] = sigma[i];
        i += 2;
    }
    proof {
        assert(sigma_deriv@ =~= derivative(sigma@));
    }
    let omega = eloc_poly(&s, &sigma, npar - 1);
    let ghost b0 = block@;
    let mut i: usize = 0;
    while i < bs
        invariant
            bs == ecc.bs,
            bs <= 256,
            bs <= block@.len(),
            i <= bs,
            npar == bs - ecc.dw,
            2 <= npar ==> npar - 1 < 64,
            b0 == old(block)@,
            r0 == b0.subrange(0, bs as int),
            !valid_codeword(r0, npar as nat),
            good == exists|cw: Seq<u8>|
                #![trigger valid_codeword(cw, npar as nat)]
                within_one_change(r0, cw, npar as int),
            block@.len() == b0.len(),
            forall|p: int| bs <= p < b0.len() ==> #[trigger] block@[p] == b0[p],
            good ==> {
                &&& single_error_seq_state(r0, npar as int, s@, sigma@, p0, e)
                &&& x == locator(bs as int, p0)
                &&& x != 0
                &&& sigma_deriv@ == derivative(sigma@)
                &&& forall|t: int|
                    0 <= t < 64 ==> #[trigger] omega@[t] == if t < npar - 1 {
                        conv(sigma@, s@, t, 1)
                    } else {
                        0u8
                    }
                &&& forall|q: int|
                    0 <= q < bs ==> #[trigger] block@[q] == if q == p0 && q >= bs - i {
                        r0[q] ^ e
                    } else {
                        r0[q]
                    }
            },
        decreases bs - i,
    {
        let xinv = G::gen_pow(255 - i);
        let ghost idx_g = bs - i - 1;
        proof {
            if good {
                lemma_chien_single_n(bs as int, p0, idx_g as int, 64);
                assert(sigma@.take(64) =~= sigma@);
            }
        }
        if poly_eval(&sigma, xinv.0) == 0 {
            let sd_x = poly_eval(&sigma_deriv, xinv.0);
            let omega_x = poly_eval(&omega, xinv.0);
            proof {
                if good {
                    lemma_derivative_single(x, xinv.0);
                    lemma_omega_single(omega@, s@, npar as int, e, x, xinv.0);
                    lemma_forney_single(e, x);
                }
            }
            if sd_x == 0 {
                proof {
                    assert forall|cw: Seq<u8>|
                        #![trigger valid_codeword(cw, npar as nat)]
                        within_one_change(r0, cw, npar as int) implies false by {
                        assert(good);
                    }
                }
                return Err(DeQRError::DataEcc);
            }
            let error = match G(omega_x).div(G(sd_x)) {
                Ok(e) => e,
                Err(_) => {
                    proof {
                        assert(false);
                    }
                    G(0)
                },
            };
            let idx = bs - i - 1;
            block[idx] = G(block[idx]).add(error).0;
        }
        proof {
            if good {
                assert forall|q: int| 0 <= q < bs implies #[trigger] block@[q] == if q == p0 && q
                    >= bs - (i + 1) {
                    r0[q] ^ e
                } else {
                    r0[q]
                } by {}
            }
        }
        i += 1;
    }
    let res = block_syndromes(vstd::slice::slice_subrange(block, 0, bs), npar);
    proof {
        if good {
            assert(block@.subrange(0, bs as int) =~= add_at(r0, p0, e));
        }
        assert forall|cw: Seq<u8>|
            #![trigger valid_codeword(cw, npar as nat)]
            within_one_change(r0, cw, npar as int) implies block@.subrange(0, bs as int) == cw by {
            assert(good);
            lemma_one_change_cases(r0, cw, npar as nat);
            lemma_one_change_cases(r0, cw0, npar as nat);
            let p = choose|p: int| 0 <= p < r0.len() && one_change_at(r0, cw, npar as int, p);
            lemma_one_change_unique(r0, cw, cw0, npar as int, p, p0);
        }
    }
    match res {
        Ok(_) => Ok(()),
        Err(_) => Err(DeQRError::DataEcc),
    }
}
} // verus!
