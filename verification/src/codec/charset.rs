//! The character set of alphanumeric mode.
use crate::codec::types::{alnum_char, alnum_digit, is_alphanumeric};
use vstd::prelude::*;

verus! {

/// The 45 characters of alphanumeric mode, as ASCII codes in the order of their values:
/// the ten digits `0` to `9`, the 26 capital letters `A` to `Z`, then space, `$`, `%`,
/// `*`, `+`, `-`, `.`, `/` and `:`.
pub open spec fn alphanumeric_charset() -> Seq<u8> {
    Seq::new(10, |i: int| (48 + i) as u8) + Seq::new(26, |i: int| (65 + i) as u8) + seq![
        32u8,
        36u8,
        37u8,
        42u8,
        43u8,
        45u8,
        46u8,
        47u8,
        58u8,
    ]
}

/// Value `d` of alphanumeric mode decodes to the `d`-th character of the set, and that
/// character encodes back to `d`.
pub proof fn lemma_alnum_charset(d: nat)
    requires
        d < 45,
    ensures
        alnum_char(d) == alphanumeric_charset()[d as int],
        is_alphanumeric(alphanumeric_charset()[d as int]),
        alnum_digit(alphanumeric_charset()[d as int]) == d,
{
    let digits = Seq::new(10, |i: int| (48 + i) as u8);
    let letters = Seq::new(26, |i: int| (65 + i) as u8);
    let specials = seq![32u8, 36u8, 37u8, 42u8, 43u8, 45u8, 46u8, 47u8, 58u8];
    let t = alphanumeric_charset();
    assert(t == digits + letters + specials);
    if d < 10 {
        assert(t[d as int] == digits[d as int]);
    } else if d < 36 {
        assert(t[d as int] == letters[d - 10]);
    } else {
        let k = d - 36;
        assert(t[d as int] == specials[k]);
        assert(specials[0] == 32u8);
        assert(specials[1] == 36u8);
        assert(specials[2] == 37u8);
        assert(specials[3] == 42u8);
        assert(specials[4] == 43u8);
        assert(specials[5] == 45u8);
        assert(specials[6] == 46u8);
        assert(specials[7] == 47u8);
        assert(specials[8] == 58u8);
    }
}

} // verus!
