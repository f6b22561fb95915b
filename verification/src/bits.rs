//! Mathematical model of bit strings: the bits of a natural number, the value of a
//! most-significant-bit-first bit sequence, and the facts that tie machine shifts to them.
use vstd::arithmetic::div_mod::*;
use vstd::arithmetic::power2::*;
use vstd::bits::*;
use vstd::prelude::*;

verus! {

/// Bit `k` (counting from the least significant bit) of `v`.
pub open spec fn nat_bit(v: nat, k: nat) -> bool {
    (v / pow2(k)) % 2 == 1
}

/// The low `n` bits of `v`, most significant first.
pub open spec fn int_bits(v: nat, n: nat) -> Seq<bool> {
    Seq::new(n, |i: int| nat_bit(v, (n - 1 - i) as nat))
}

/// The number that a most-significant-bit-first bit sequence spells.
pub open spec fn bits_value(s: Seq<bool>) -> nat
    decreases s.len(),
{
    if s.len() == 0 {
        0
    } else {
        2 * bits_value(s.drop_last()) + if s.last() {
            1nat
        } else {
            0nat
        }
    }
}

/// `v` fits in `n` bits.
pub open spec fn fits(v: nat, n: nat) -> bool {
    v < pow2(n)
}

/// Bit `k` of `v` is bit `j + k` of `v * 2^j`'s source: shifting right by `j` drops `j` bits.
pub proof fn lemma_nat_bit_shift(v: nat, j: nat, k: nat)
    ensures
        nat_bit(v, j + k) == nat_bit(v / pow2(j), k),
{
    lemma_pow2_pos(j);
    lemma_pow2_pos(k);
    lemma_pow2_adds(j, k);
    lemma_div_denominator(v as int, pow2(j) as int, pow2(k) as int);
}

/// Taking `v` modulo `2^m` keeps the bits below `m`.
pub proof fn lemma_nat_bit_mod(v: nat, m: nat, k: nat)
    requires
        k < m,
    ensures
        nat_bit((v % pow2(m)) as nat, k) == nat_bit(v, k),
{
    let d = (m - k) as nat;
    lemma_pow2_pos(k);
    lemma_pow2_pos(d);
    lemma_pow2_adds(k, d);
    assert(k + d == m);
    lemma_mod_breakdown(v as int, pow2(k) as int, pow2(d) as int);
    let y = v / pow2(k);
    // (v % 2^m) == 2^k * (y % 2^d) + v % 2^k, so dividing by 2^k leaves y % 2^d.
    let r = v % pow2(k);
    assert(0 <= r < pow2(k)) by {
        lemma_mod_bound(v as int, pow2(k) as int);
    }
    assert((v % pow2(m)) as int == pow2(k) * (y % pow2(d)) + r);
    assert(((pow2(k) * (y % pow2(d)) + r) as int / pow2(k) as int) == (y % pow2(d)) as int) by {
        lemma_div_multiples_vanish_fancy((y % pow2(d)) as int, r as int, pow2(k) as int);
    }
    lemma_pow2_unfold(d);
    lemma_mod_mod(y as int, 2, pow2((d - 1) as nat) as int);
}

/// A number below `2^n` has no bits at or above `n`.
pub proof fn lemma_nat_bit_high_zero(v: nat, n: nat, k: nat)
    requires
        v < pow2(n),
        n <= k,
    ensures
        !nat_bit(v, k),
{
    if n < k {
        lemma_pow2_strictly_increases(n, k);
    }
    lemma_pow2_pos(k);
    lemma_basic_div(v as int, pow2(k) as int);
}

/// Bit zero is the parity.
pub proof fn lemma_nat_bit_zero(v: nat)
    ensures
        nat_bit(v, 0) == (v % 2 == 1),
{
    lemma2_to64();
}

/// The value of the `n`-bit spelling of `v` is `v`, when `v` fits in `n` bits.
pub proof fn lemma_bits_value_int_bits(v: nat, n: nat)
    requires
        v < pow2(n),
    ensures
        bits_value(int_bits(v, n)) == v,
    decreases n,
{
    if n == 0 {
        lemma2_to64();
        assert(int_bits(v, n) =~= Seq::<bool>::empty());
    } else {
        let s = int_bits(v, n);
        let h = v / 2;
        assert(s.drop_last() =~= int_bits(h, (n - 1) as nat)) by {
            assert forall|i: int| 0 <= i < n - 1 implies s.drop_last()[i] == int_bits(
                h,
                (n - 1) as nat,
            )[i] by {
                lemma_nat_bit_shift(v, 1, (n - 2 - i) as nat);
                lemma2_to64();
            }
        }
        lemma_pow2_unfold(n);
        lemma_nat_bit_zero(v);
        lemma_bits_value_int_bits(h, (n - 1) as nat);
    }
}

/// The value of a concatenation.
pub proof fn lemma_bits_value_append(a: Seq<bool>, b: Seq<bool>)
    ensures
        bits_value(a + b) == bits_value(a) * pow2(b.len()) + bits_value(b),
    decreases b.len(),
{
    if b.len() == 0 {
        assert(a + b =~= a);
        lemma2_to64();
    } else {
        assert((a + b).drop_last() =~= a + b.drop_last());
        assert((a + b).last() == b.last());
        lemma_bits_value_append(a, b.drop_last());
        lemma_pow2_unfold(b.len());
        let p = pow2((b.len() - 1) as nat) as int;
        let x = bits_value(a) as int;
        let y = bits_value(b.drop_last()) as int;
        assert(2 * (x * p + y) == x * (2 * p) + 2 * y) by (nonlinear_arith);
    }
}

/// A bit sequence of length `n` spells a number below `2^n`.
pub proof fn lemma_bits_value_bound(s: Seq<bool>)
    ensures
        bits_value(s) < pow2(s.len()),
    decreases s.len(),
{
    if s.len() == 0 {
        lemma2_to64();
    } else {
        lemma_bits_value_bound(s.drop_last());
        lemma_pow2_unfold(s.len());
    }
}

/// `int_bits(v, n)` of a number that fits splits into its high and low parts.
pub proof fn lemma_int_bits_split(v: nat, n: nat, m: nat)
    requires
        m <= n,
    ensures
        int_bits(v, n) =~= int_bits(v / pow2(m), (n - m) as nat) + int_bits(
            (v % pow2(m)) as nat,
            m,
        ),
{
    let lhs = int_bits(v, n);
    let rhs = int_bits(v / pow2(m), (n - m) as nat) + int_bits((v % pow2(m)) as nat, m);
    assert forall|i: int| 0 <= i < n implies lhs[i] == rhs[i] by {
        if i < n - m {
            lemma_nat_bit_shift(v, m, (n - m - 1 - i) as nat);
        } else {
            lemma_nat_bit_mod(v, m, (n - 1 - i) as nat);
        }
    }
}

// Machine shifts and masks as division and remainder.
/// Shifts and low-bit masks of a `usize` are division and remainder by powers of two.
pub proof fn lemma_usize_div_mod(x: usize)
    by (bit_vector)
    ensures
        x >> 3usize == x / 8,
        x & 7usize == x % 8,
        x >> 6usize == x / 64,
        x & 63usize == x % 64,
{
}

/// Shifting a small `usize` left by three multiplies it by eight.
pub proof fn lemma_usize_shl3(x: usize)
    by (bit_vector)
    requires
        x <= 0x1000_0000,
    ensures
        x << 3usize == x * 8,
{
}

/// Shifts and low-bit masks of a `u32` are division and remainder by powers of two.
pub proof fn lemma_u32_div_mod(x: u32)
    by (bit_vector)
    ensures
        x >> 6u32 == x / 64,
        x & 63u32 == x % 64,
{
}

/// The lowest bit of a machine integer is its parity.
proof fn lemma_parity_u8(a: u8)
    by (bit_vector)
    ensures
        (a & 1u8 == 1u8) == (a % 2 == 1),
{
}

proof fn lemma_parity_u32(a: u32)
    by (bit_vector)
    ensures
        (a & 1u32 == 1u32) == (a % 2 == 1),
{
}

// Bridges between machine shifts and `nat_bit`.
/// Bit `k` of a byte, read with a shift.
pub open spec fn u8_bit(b: u8, k: u8) -> bool {
    (b >> k) & 1u8 == 1u8
}

pub proof fn lemma_u8_bit(b: u8, k: u8)
    requires
        k < 8,
    ensures
        u8_bit(b, k) == nat_bit(b as nat, k as nat),
{
    lemma_u8_shr_is_div(b, k);
    let x = b >> k;
    lemma_parity_u8(x);
}

pub proof fn lemma_u32_bit(b: u32, k: u32)
    requires
        k < 32,
    ensures
        ((b >> k) & 1u32 == 1u32) == nat_bit(b as nat, k as nat),
{
    lemma_u32_shr_is_div(b, k);
    let x = b >> k;
    lemma_parity_u32(x);
}

/// A left shift of one by `n` is `2^n`.
pub proof fn lemma_shl1_u32(n: u32)
    requires
        n <= 16,
    ensures
        (1u32 << n) as nat == pow2(n as nat),
{
    vstd::bits::lemma_u32_pow2_no_overflow(n as nat);
    lemma2_to64();
    vstd::bits::lemma_u32_shl_is_mul(1u32, n);
}

} // verus!
