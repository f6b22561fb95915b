//! Kanji values and the Shift JIS words they stand for.
use crate::codec::types::kanji_bytes;
use vstd::arithmetic::div_mod::{lemma_fundamental_div_mod, lemma_fundamental_div_mod_converse};
use vstd::prelude::*;

verus! {

/// The Shift JIS word that two bytes make, high byte first.
pub open spec fn shift_jis_word(b: Seq<u8>) -> int {
    b[0] * 256 + b[1]
}

/// A double-byte Shift JIS word that kanji mode carries: one of the two ranges
/// `0x8140..=0x9FFC` and `0xE040..=0xEBBF`, with a second byte of at least `0x40`.
pub open spec fn kanji_word(s: int) -> bool {
    &&& (0x8140 <= s <= 0x9ffc || 0xe040 <= s <= 0xebbf)
    &&& s % 256 >= 0x40
}

/// The 13-bit value that kanji mode writes for the Shift JIS word `s`: the start of its
/// range (`0x8140` below `0xA000`, `0xC140` above) is taken off, and the high byte of
/// what is left counts `0xC0` and the low byte one.
pub open spec fn kanji_value(s: int) -> int {
    let t = if s <= 0x9ffc {
        s - 0x8140
    } else {
        s - 0xc140
    };
    (t / 256) * 0xc0 + t % 256
}

/// Decoding a 13-bit kanji value `v`: with `t = (v / 0xC0) * 256 + v % 0xC0 + 0x8140`,
/// the two bytes make the word `t` when `t` is at most `0x9FFC`, and the word
/// `t + 0xC140 - 0x8140` otherwise.
pub proof fn lemma_kanji_bytes_word(v: u16)
    requires
        v < 0x2000,
    ensures
        kanji_bytes(v).len() == 2,
        ({
            let t = (v / 0xc0) * 256 + v % 0xc0 + 0x8140;
            &&& t <= 0x9ffc ==> shift_jis_word(kanji_bytes(v)) == t
            &&& t > 0x9ffc ==> shift_jis_word(kanji_bytes(v)) == t + 0xc140 - 0x8140
        }),
{
    let t = (v / 0xc0) * 256 + v % 0xc0 + 0x8140;
    assert(t <= 42 * 256 + 0xbf + 0x8140);
    let sjw = if t <= 0x9ffc {
        t
    } else {
        t + 0x4000
    };
    lemma_fundamental_div_mod(sjw, 256);
}

/// Decoding gives back every kanji word: the value that kanji mode writes for a word of
/// either Shift JIS range fits in 13 bits, and decoding it yields the word's two bytes.
pub proof fn lemma_kanji_bytes_inverts_value(s: int)
    requires
        kanji_word(s),
    ensures
        0 <= kanji_value(s) < 0x2000,
        kanji_bytes(kanji_value(s) as u16) == seq![(s / 256) as u8, (s % 256) as u8],
{
    let t = if s <= 0x9ffc {
        s - 0x8140
    } else {
        s - 0xc140
    };
    let hi = t / 256;
    let lo = t % 256;
    lemma_fundamental_div_mod(t, 256);
    lemma_fundamental_div_mod(s, 256);
    assert(lo == s % 256 - 0x40);
    assert(0 <= hi <= 42);
    let v = hi * 0xc0 + lo;
    assert(v == kanji_value(s));
    assert(0 <= v < 0x2000);
    lemma_fundamental_div_mod_converse(v, 0xc0, hi, lo);
    let d = v as u16;
    assert(d as int == v);
    assert(d / 0xc0 == hi);
    assert(d % 0xc0 == lo);
    let temp = (d / 0xc0) * 256 + d % 0xc0 + 0x8140;
    assert(temp == t + 0x8140);
    let sjw = if temp <= 0x9ffc {
        temp
    } else {
        temp + 0x4000
    };
    assert(sjw == s);
    assert(kanji_bytes(d) =~= seq![(s / 256) as u8, (s % 256) as u8]);
}

/// Every 13-bit value decodes to a word that kanji mode writes as that same value.
pub proof fn lemma_kanji_value_of_bytes(v: u16)
    requires
        v < 0x2000,
    ensures
        kanji_value(shift_jis_word(kanji_bytes(v))) == v,
{
    lemma_kanji_bytes_word(v);
    let s = shift_jis_word(kanji_bytes(v));
    let hi = (v / 0xc0) as int;
    let lo = (v % 0xc0) as int;
    let t = if s <= 0x9ffc {
        s - 0x8140
    } else {
        s - 0xc140
    };
    assert(t == hi * 256 + lo);
    lemma_fundamental_div_mod_converse(t, 256, hi, lo);
    lemma_fundamental_div_mod(v as int, 0xc0);
}

} // verus!
