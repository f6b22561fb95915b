//! The decoder: reads segments back out of a bit stream, as bytes or as text.
use crate::bit_types::BitStream;
use crate::bits::bits_value;
use crate::codec::types::{alnum_digits, kanji_bytes, numeric_digits, Mode};
use crate::error::{QRError, QRResult};
use crate::metadata::{ECLevel, Version};
use vstd::prelude::*;
use vstd::string::StringExecFns;
use vstd::utf8::{decode_utf8, valid_utf8};

verus! {

// Grammar of encoded data
//------------------------------------------------------------------------------
/// The mode a four-bit indicator stands for, if any.
pub open spec fn mode_of_indicator(v: nat) -> Option<Mode> {
    if v == 0 {
        Some(Mode::Terminator)
    } else if v == 1 {
        Some(Mode::Numeric)
    } else if v == 2 {
        Some(Mode::Alphanumeric)
    } else if v == 4 {
        Some(Mode::Byte)
    } else if v == 8 {
        Some(Mode::Kanji)
    } else {
        None
    }
}

/// The segment header at `pos`: its mode, character count and the position after it. Fewer
/// than four bits left read as the terminator.
pub open spec fn spec_header(ver: Version, bits: Seq<bool>, pos: int) -> QRResult<(Mode, nat, int)> {
    if pos + 4 > bits.len() {
        Ok((Mode::Terminator, 0, pos))
    } else {
        let v = bits_value(bits.subrange(pos, pos + 4));
        match mode_of_indicator(v) {
            None => Err(QRError::InvalidMode(v as u8)),
            Some(m) => {
                let cc = ver.spec_char_cnt_bits(m);
                if pos + 4 + cc > bits.len() {
                    Err(QRError::CorruptDataSegment)
                } else {
                    Ok((m, bits_value(bits.subrange(pos + 4, pos + 4 + cc)), pos + 4 + cc))
                }
            },
        }
    }
}

/// Characters in the next chunk when `left` are still to be read.
pub open spec fn chunk_chars(mode: Mode, left: nat) -> nat {
    match mode {
        Mode::Numeric => if left < 3 {
            left
        } else {
            3
        },
        Mode::Alphanumeric => if left < 2 {
            left
        } else {
            2
        },
        _ => 1,
    }
}

/// Bits of the next chunk when `left` characters are still to be read.
pub open spec fn chunk_bits(mode: Mode, left: nat) -> nat {
    match mode {
        Mode::Numeric => if left > 2 {
            10
        } else {
            (left % 3) * 3 + 1
        },
        Mode::Alphanumeric => if left > 1 {
            11
        } else {
            6
        },
        Mode::Kanji => 13,
        _ => 8,
    }
}

/// The bytes a chunk of `bl` bits with value `v` decodes to.
pub open spec fn chunk_decode(mode: Mode, v: nat, bl: nat) -> Seq<u8> {
    match mode {
        Mode::Numeric => numeric_digits(v, bl / 3),
        Mode::Alphanumeric => alnum_digits(v, bl / 5),
        Mode::Kanji => kanji_bytes(v as u16),
        _ => seq![v as u8],
    }
}

/// Bits that `cnt` characters of `mode` take.
pub open spec fn data_bits_len(mode: Mode, cnt: nat) -> nat
    decreases cnt,
{
    if cnt == 0 || chunk_chars(mode, cnt) == 0 {
        0
    } else {
        chunk_bits(mode, cnt) + data_bits_len(mode, (cnt - chunk_chars(mode, cnt)) as nat)
    }
}

/// The bytes that `cnt` characters of `mode` decode to from the bits `b`.
pub open spec fn decode_bits(mode: Mode, cnt: nat, b: Seq<bool>) -> Seq<u8>
    decreases cnt,
{
    if cnt == 0 || chunk_chars(mode, cnt) == 0 {
        Seq::empty()
    } else {
        let bl = chunk_bits(mode, cnt);
        chunk_decode(mode, bits_value(b.take(bl as int)), bl) + decode_bits(
            mode,
            (cnt - chunk_chars(mode, cnt)) as nat,
            b.skip(bl as int),
        )
    }
}

/// Reading stops early, without a terminator, once fewer than four bits of the capacity are
/// left after a segment: only for a single channel.
pub open spec fn stops_after(used: int, bcap: nat, mono: bool) -> bool {
    mono && used <= bcap && bcap - used < 4
}

/// The bytes read from `pos` on, segment after segment, or the first error met.
pub open spec fn decode_bytes_from(
    ver: Version,
    bits: Seq<bool>,
    pos: int,
    start: int,
    bcap: nat,
    mono: bool,
) -> QRResult<Seq<u8>>
    decreases bits.len() - pos,
{
    match spec_header(ver, bits, pos) {
        Err(e) => Err(e),
        Ok((m, cnt, p1)) => if m == Mode::Terminator || p1 < pos + 4 {
            Ok(Seq::empty())
        } else {
            let p2 = p1 + data_bits_len(m, cnt);
            if p2 > bits.len() {
                Err(QRError::CorruptDataSegment)
            } else {
                let d = decode_bits(m, cnt, bits.subrange(p1, p2));
                if stops_after(p2 - start, bcap, mono) {
                    Ok(d)
                } else {
                    match decode_bytes_from(ver, bits, p2, start, bcap, mono) {
                        Ok(rest) => Ok(d + rest),
                        Err(e) => Err(e),
                    }
                }
            }
        },
    }
}

// Text
//------------------------------------------------------------------------------
/// What `encoding_rs`'s `SHIFT_JIS.decode` makes of `bytes`: the text, and whether malformed
/// sequences were replaced. The call sniffs a byte-order mark first: bytes that start with a
/// UTF-8 or UTF-16 mark are decoded in that encoding instead.
pub uninterp spec fn shift_jis_decode(bytes: Seq<u8>) -> (Seq<char>, bool);

/// Decodes `bytes` with `encoding_rs`'s `SHIFT_JIS.decode`: as Shift JIS, or as UTF-8 or
/// UTF-16 when they start with that encoding's byte-order mark. Its text, and whether it met
/// malformed sequences; what the text is, is left to the named result.
#[verifier::external_body]
fn decode_shift_jis(bytes: &[u8]) -> (r: (String, bool))
    requires
        bytes@.len() <= 0x1000_0000,
    ensures
        (r.0@, r.1) == shift_jis_decode(bytes@),
{
    let (text, _, had_errors) = encoding_rs::SHIFT_JIS.decode(bytes);
    (text.into_owned(), had_errors)
}

/// `String::from_utf8`: the text of `bytes` when they are valid UTF-8, nothing otherwise.
#[verifier::external_body]
fn utf8_string(bytes: Vec<u8>) -> (r: Option<String>)
    ensures
        match r {
            Some(s) => valid_utf8(bytes@) && s@ == decode_utf8(bytes@),
            None => !valid_utf8(bytes@),
        },
{
    String::from_utf8(bytes).ok()
}

/// The characters of ASCII bytes.
pub open spec fn ascii_chars(d: Seq<u8>) -> Seq<char> {
    d.map_values(|b: u8| b as char)
}

/// Every byte is below 128.
pub open spec fn is_ascii_bytes(d: Seq<u8>) -> bool {
    forall|i: int| 0 <= i < d.len() ==> #[trigger] d[i] < 128
}

/// ASCII bytes are valid UTF-8 and spell their own characters.
pub proof fn lemma_ascii_utf8(d: Seq<u8>)
    requires
        is_ascii_bytes(d),
    ensures
        valid_utf8(d),
        decode_utf8(d) == ascii_chars(d),
    decreases d.len(),
{
    if d.len() > 0 {
        let b = d[0];
        assert(b < 128);
        assert(b & 0x7f == b) by (bit_vector)
            requires
                b < 128,
        ;
        let rest = d.subrange(1, d.len() as int);
        assert(is_ascii_bytes(rest)) by {
            assert forall|i: int| 0 <= i < rest.len() implies #[trigger] rest[i] < 128 by {
                assert(rest[i] == d[i + 1]);
            }
        }
        lemma_ascii_utf8(rest);
        assert(ascii_chars(d) =~= seq![b as char] + ascii_chars(rest));
    } else {
        assert(ascii_chars(d) =~= Seq::<char>::empty());
    }
}

/// The text of kanji bytes, two bytes per character, each pair decoded on its own.
pub open spec fn kanji_text(d: Seq<u8>) -> QRResult<Seq<char>>
    decreases d.len(),
{
    if d.len() < 2 {
        Ok(Seq::empty())
    } else {
        let (t, err) = shift_jis_decode(d.take(2));
        if err {
            Err(QRError::CorruptDataSegment)
        } else {
            match kanji_text(d.skip(2)) {
                Ok(rest) => Ok(t + rest),
                Err(e) => Err(e),
            }
        }
    }
}

/// The text a segment's bytes stand for in its mode: UTF-8, with Shift JIS as the fallback
/// for bytes, and Shift JIS pairs for kanji.
pub open spec fn segment_text(mode: Mode, d: Seq<u8>) -> QRResult<Seq<char>> {
    match mode {
        Mode::Byte => if valid_utf8(d) {
            Ok(decode_utf8(d))
        } else if shift_jis_decode(d).1 {
            Err(QRError::InvalidCharacterEncoding)
        } else {
            Ok(shift_jis_decode(d).0)
        },
        Mode::Kanji => kanji_text(d),
        _ => if valid_utf8(d) {
            Ok(decode_utf8(d))
        } else {
            Err(QRError::InvalidUTF8Encoding)
        },
    }
}

/// The text read from `pos` on, segment by segment, or the first error met.
pub open spec fn decode_text(
    ver: Version,
    bits: Seq<bool>,
    pos: int,
    start: int,
    bcap: nat,
    mono: bool,
) -> QRResult<Seq<char>>
    decreases bits.len() - pos,
{
    match spec_header(ver, bits, pos) {
        Err(e) => Err(e),
        Ok((m, cnt, p1)) => if m == Mode::Terminator || p1 < pos + 4 {
            Ok(Seq::empty())
        } else {
            let p2 = p1 + data_bits_len(m, cnt);
            if p2 > bits.len() {
                Err(QRError::CorruptDataSegment)
            } else {
                match segment_text(m, decode_bits(m, cnt, bits.subrange(p1, p2))) {
                    Err(e) => Err(e),
                    Ok(t) => if stops_after(p2 - start, bcap, mono) {
                        Ok(t)
                    } else {
                        match decode_text(ver, bits, p2, start, bcap, mono) {
                            Ok(rest) => Ok(t + rest),
                            Err(e) => Err(e),
                        }
                    },
                }
            }
        },
    }
}

// Reader
//------------------------------------------------------------------------------
/// Reads a segment header: the mode and the character count.
pub fn take_header(inp: &mut BitStream, ver: Version) -> (r: QRResult<(Mode, usize)>)
    requires
        old(inp).wf(),
        ver.valid(),
    ensures
        final(inp).wf(),
        final(inp).bytes() == old(inp).bytes(),
        final(inp).spec_len() == old(inp).spec_len(),
        final(inp).spec_capacity() == old(inp).spec_capacity(),
        old(inp).spec_cursor() <= final(inp).spec_cursor(),
        match spec_header(ver, old(inp).bits(), old(inp).spec_cursor() as int) {
            Ok((m, cnt, p)) => {
                &&& r == Ok::<(Mode, usize), QRError>((m, cnt as usize))
                &&& final(inp).spec_cursor() == p
                &&& cnt < 0x10000
            },
            Err(e) => r == Err::<(Mode, usize), QRError>(e),
        },
{
    let ghost bits = inp.bits();
    let ghost pos = inp.spec_cursor() as int;
    let mode_bits: u16 = match inp.take_bits(4) {
        Some(v) => v,
        None => 0,
    };
    proof {
        if pos + 4 <= bits.len() {
            crate::bits::lemma_bits_value_bound(bits.subrange(pos, pos + 4));
            vstd::arithmetic::power2::lemma2_to64();
        }
    }
    let mode = if mode_bits == 0 {
        Mode::Terminator
    } else if mode_bits == 1 {
        Mode::Numeric
    } else if mode_bits == 2 {
        Mode::Alphanumeric
    } else if mode_bits == 4 {
        Mode::Byte
    } else if mode_bits == 8 {
        Mode::Kanji
    } else {
        return Err(QRError::InvalidMode(mode_bits as u8));
    };
    let len_bits = ver.char_cnt_bits(mode);
    let ghost p1 = inp.spec_cursor() as int;
    match inp.take_bits(len_bits) {
        Some(char_cnt) => {
            proof {
                assert(inp.bits() == bits);
                if pos + 4 > bits.len() {
                    assert(len_bits == 0);
                    assert(p1 == pos);
                    assert(bits.subrange(p1, p1) =~= Seq::<bool>::empty());
                    assert(char_cnt == 0);
                } else {
                    assert(p1 == pos + 4);
                    assert(mode_of_indicator(mode_bits as nat) == Some(mode));
                    assert(mode_bits as nat == bits_value(bits.subrange(pos, pos + 4)));
                    assert(char_cnt as nat == bits_value(bits.subrange(pos + 4, pos + 4 + len_bits)));
                }
                assert(spec_header(ver, bits, pos) == Ok::<(Mode, nat, int), QRError>(
                    (mode, char_cnt as nat, p1 + len_bits),
                ));
            }
            Ok((mode, char_cnt as usize))
        },
        None => {
            proof {
                inp.lemma_wf_facts();
                assert(inp.bits() == bits);
                assert(pos + 4 <= bits.len());
                assert(p1 == pos + 4);
                assert(mode_of_indicator(mode_bits as nat) == Some(mode));
                assert(mode_bits as nat == bits_value(bits.subrange(pos, pos + 4)));
                assert(spec_header(ver, bits, pos) == Err::<(Mode, nat, int), QRError>(
                    QRError::CorruptDataSegment,
                ));
            }
            Err(QRError::CorruptDataSegment)
        },
    }
}

/// Reads `char_cnt` characters of `mode`, chunk by chunk, as bytes.
fn take_chunks(mode: Mode, inp: &mut BitStream, char_cnt: usize) -> (r: QRResult<Vec<u8>>)
    requires
        old(inp).wf(),
        mode == Mode::Numeric || mode == Mode::Alphanumeric || mode == Mode::Byte || mode
            == Mode::Kanji,
    ensures
        final(inp).wf(),
        final(inp).bytes() == old(inp).bytes(),
        final(inp).spec_len() == old(inp).spec_len(),
        final(inp).spec_capacity() == old(inp).spec_capacity(),
        old(inp).spec_cursor() <= final(inp).spec_cursor(),
        ({
            let c = old(inp).spec_cursor() as int;
            let end = c + data_bits_len(mode, char_cnt as nat);
            if end <= old(inp).spec_len() {
                &&& r is Ok
                &&& r.unwrap()@ == decode_bits(
                    mode,
                    char_cnt as nat,
                    old(inp).bits().subrange(c, end),
                )
                &&& final(inp).spec_cursor() == end
            } else {
                r == Err::<Vec<u8>, QRError>(QRError::CorruptDataSegment)
            }
        }),
{
    let ghost bits = inp.bits();
    let ghost c = inp.spec_cursor() as int;
    let ghost total = data_bits_len(mode, char_cnt as nat);
    let mut res: Vec<u8> = Vec::new();
    let mut left = char_cnt;
    proof {
        inp.lemma_wf_facts();
        if c + total <= bits.len() {
            assert(bits.subrange(c, c + total) == bits.subrange(inp.spec_cursor() as int, c + total));
        }
        lemma_data_bits_len_pos(mode, char_cnt as nat);
    }
    while left > 0
        invariant
            mode == Mode::Numeric || mode == Mode::Alphanumeric || mode == Mode::Byte || mode
                == Mode::Kanji,
            inp.wf(),
            inp.bytes() == old(inp).bytes(),
            inp.spec_len() == old(inp).spec_len(),
            inp.spec_capacity() == old(inp).spec_capacity(),
            bits == inp.bits(),
            c == old(inp).spec_cursor(),
            total == data_bits_len(mode, char_cnt as nat),
            c <= inp.spec_cursor(),
            inp.spec_cursor() - c + data_bits_len(mode, left as nat) == total,
            c + total <= bits.len() ==> res@ + decode_bits(
                mode,
                left as nat,
                bits.subrange(inp.spec_cursor() as int, c + total),
            ) == decode_bits(mode, char_cnt as nat, bits.subrange(c, c + total)),
        decreases left,
    {
        let bit_len: usize = match mode {
            Mode::Numeric => if left > 2 {
                10
            } else {
                (left % 3) * 3 + 1
            },
            Mode::Alphanumeric => if left > 1 {
                11
            } else {
                6
            },
            Mode::Kanji => 13,
            _ => 8,
        };
        let step: usize = match mode {
            Mode::Numeric => if left < 3 {
                left
            } else {
                3
            },
            Mode::Alphanumeric => if left < 2 {
                left
            } else {
                2
            },
            _ => 1,
        };
        let ghost cur = inp.spec_cursor() as int;
        proof {
            lemma_data_bits_len_pos(mode, (left - step) as nat);
            inp.lemma_wf_facts();
            assert(data_bits_len(mode, left as nat) == bit_len + data_bits_len(
                mode,
                (left - step) as nat,
            ));
        }
        match inp.take_bits(bit_len) {
            Some(chunk) => {
                let decoded = mode.decode_chunk(chunk, bit_len);
                proof {
                    let rest = bits.subrange(cur, c + total);
                    if c + total <= bits.len() {
                        assert(rest.take(bit_len as int) =~= bits.subrange(cur, cur + bit_len));
                        assert(rest.skip(bit_len as int) =~= bits.subrange(
                            cur + bit_len,
                            c + total,
                        ));
                        assert(decoded@ == chunk_decode(mode, chunk as nat, bit_len as nat));
                        assert(res@ + decoded@ + decode_bits(
                            mode,
                            (left - step) as nat,
                            bits.subrange(cur + bit_len, c + total),
                        ) =~= res@ + decode_bits(mode, left as nat, rest));
                    }
                }
                res.append(&mut decoded.clone());
                left = left - step;
            },
            None => {
                proof {
                    assert(data_bits_len(mode, left as nat) == bit_len + data_bits_len(
                        mode,
                        (left - step) as nat,
                    ));
                }
                return Err(QRError::CorruptDataSegment);
            },
        }
    }
    proof {
        inp.lemma_wf_facts();
        if c + total <= bits.len() {
            assert(bits.subrange(c + total, c + total) =~= Seq::<bool>::empty());
            assert(res@ + Seq::<u8>::empty() =~= res@);
        }
    }
    Ok(res)
}

/// Data bits are never negative in count; a non-empty run takes some.
proof fn lemma_data_bits_len_pos(mode: Mode, cnt: nat)
    ensures
        data_bits_len(mode, cnt) >= 0,
{
}

/// Reads `char_cnt` decimal digits.
pub fn take_numeric_data(inp: &mut BitStream, char_cnt: usize) -> (r: QRResult<Vec<u8>>)
    requires
        old(inp).wf(),
    ensures
        final(inp).wf(),
        final(inp).bytes() == old(inp).bytes(),
        final(inp).spec_len() == old(inp).spec_len(),
        final(inp).spec_capacity() == old(inp).spec_capacity(),
        old(inp).spec_cursor() <= final(inp).spec_cursor(),
        ({
            let c = old(inp).spec_cursor() as int;
            let end = c + data_bits_len(Mode::Numeric, char_cnt as nat);
            if end <= old(inp).spec_len() {
                &&& r is Ok
                &&& r.unwrap()@ == decode_bits(
                    Mode::Numeric,
                    char_cnt as nat,
                    old(inp).bits().subrange(c, end),
                )
                &&& final(inp).spec_cursor() == end
            } else {
                r == Err::<Vec<u8>, QRError>(QRError::CorruptDataSegment)
            }
        }),
{
    take_chunks(Mode::Numeric, inp, char_cnt)
}

/// Reads `char_cnt` alphanumerics.
pub fn take_alphanumeric_data(inp: &mut BitStream, char_cnt: usize) -> (r: QRResult<Vec<u8>>)
    requires
        old(inp).wf(),
    ensures
        final(inp).wf(),
        final(inp).bytes() == old(inp).bytes(),
        final(inp).spec_len() == old(inp).spec_len(),
        final(inp).spec_capacity() == old(inp).spec_capacity(),
        old(inp).spec_cursor() <= final(inp).spec_cursor(),
        ({
            let c = old(inp).spec_cursor() as int;
            let end = c + data_bits_len(Mode::Alphanumeric, char_cnt as nat);
            if end <= old(inp).spec_len() {
                &&& r is Ok
                &&& r.unwrap()@ == decode_bits(
                    Mode::Alphanumeric,
                    char_cnt as nat,
                    old(inp).bits().subrange(c, end),
                )
                &&& final(inp).spec_cursor() == end
            } else {
                r == Err::<Vec<u8>, QRError>(QRError::CorruptDataSegment)
            }
        }),
{
    take_chunks(Mode::Alphanumeric, inp, char_cnt)
}

/// Reads `char_cnt` bytes.
pub fn take_byte_data(inp: &mut BitStream, char_cnt: usize) -> (r: QRResult<Vec<u8>>)
    requires
        old(inp).wf(),
    ensures
        final(inp).wf(),
        final(inp).bytes() == old(inp).bytes(),
        final(inp).spec_len() == old(inp).spec_len(),
        final(inp).spec_capacity() == old(inp).spec_capacity(),
        old(inp).spec_cursor() <= final(inp).spec_cursor(),
        ({
            let c = old(inp).spec_cursor() as int;
            let end = c + data_bits_len(Mode::Byte, char_cnt as nat);
            if end <= old(inp).spec_len() {
                &&& r is Ok
                &&& r.unwrap()@ == decode_bits(
                    Mode::Byte,
                    char_cnt as nat,
                    old(inp).bits().subrange(c, end),
                )
                &&& final(inp).spec_cursor() == end
            } else {
                r == Err::<Vec<u8>, QRError>(QRError::CorruptDataSegment)
            }
        }),
{
    take_chunks(Mode::Byte, inp, char_cnt)
}

/// Reads `char_cnt` kanji, as their Shift JIS byte pairs.
pub fn take_kanji_data(inp: &mut BitStream, char_cnt: usize) -> (r: QRResult<Vec<u8>>)
    requires
        old(inp).wf(),
    ensures
        final(inp).wf(),
        final(inp).bytes() == old(inp).bytes(),
        final(inp).spec_len() == old(inp).spec_len(),
        final(inp).spec_capacity() == old(inp).spec_capacity(),
        old(inp).spec_cursor() <= final(inp).spec_cursor(),
        ({
            let c = old(inp).spec_cursor() as int;
            let end = c + data_bits_len(Mode::Kanji, char_cnt as nat);
            if end <= old(inp).spec_len() {
                &&& r is Ok
                &&& r.unwrap()@ == decode_bits(
                    Mode::Kanji,
                    char_cnt as nat,
                    old(inp).bits().subrange(c, end),
                )
                &&& final(inp).spec_cursor() == end
            } else {
                r == Err::<Vec<u8>, QRError>(QRError::CorruptDataSegment)
            }
        }),
{
    take_chunks(Mode::Kanji, inp, char_cnt)
}

/// What reading one segment at `pos` gives: its mode and bytes, and the position after it,
/// or the error met.
pub open spec fn spec_segment(ver: Version, bits: Seq<bool>, pos: int) -> QRResult<
    (Mode, Seq<u8>, int),
> {
    match spec_header(ver, bits, pos) {
        Err(e) => Err(e),
        Ok((m, cnt, p1)) => if m == Mode::Terminator {
            Ok((m, Seq::empty(), p1))
        } else {
            let p2 = p1 + data_bits_len(m, cnt);
            if p2 > bits.len() {
                Err(QRError::CorruptDataSegment)
            } else {
                Ok((m, decode_bits(m, cnt, bits.subrange(p1, p2)), p2))
            }
        },
    }
}

/// Reads one segment: its mode and its bytes. The terminator reads as no bytes.
pub fn take_segment(inp: &mut BitStream, ver: Version) -> (r: QRResult<(Mode, Vec<u8>)>)
    requires
        old(inp).wf(),
        ver.valid(),
    ensures
        final(inp).wf(),
        final(inp).bytes() == old(inp).bytes(),
        final(inp).spec_len() == old(inp).spec_len(),
        final(inp).spec_capacity() == old(inp).spec_capacity(),
        old(inp).spec_cursor() <= final(inp).spec_cursor(),
        match spec_segment(ver, old(inp).bits(), old(inp).spec_cursor() as int) {
            Ok((m, d, p)) => {
                &&& r is Ok
                &&& r.unwrap().0 == m
                &&& r.unwrap().1@ == d
                &&& final(inp).spec_cursor() == p
            },
            Err(e) => r == Err::<(Mode, Vec<u8>), QRError>(e),
        },
{
    let (mode, char_cnt) = take_header(inp, ver)?;
    let bytes = match mode {
        Mode::Terminator => {
            return Ok((mode, Vec::new()));
        },
        _ => take_chunks(mode, inp, char_cnt)?,
    };
    Ok((mode, bytes))
}

// Writer of text
//------------------------------------------------------------------------------
/// The text of a segment's bytes.
fn segment_to_text(mode: Mode, bytes: Vec<u8>) -> (r: QRResult<String>)
    requires
        bytes@.len() <= 0x10000 * 2,
    ensures
        match segment_text(mode, bytes@) {
            Ok(t) => r is Ok && r.unwrap()@ == t,
            Err(e) => r == Err::<String, QRError>(e),
        },
{
    let ghost d = bytes@;
    match mode {
        Mode::Byte => {
            let copy = bytes.clone();
            match utf8_string(bytes) {
                Some(text) => Ok(text),
                None => {
                    let (text, has_err) = decode_shift_jis(copy.as_slice());
                    if has_err {
                        Err(QRError::InvalidCharacterEncoding)
                    } else {
                        Ok(text)
                    }
                },
            }
        },
        Mode::Kanji => kanji_to_text(bytes),
        _ => match utf8_string(bytes) {
            Some(text) => Ok(text),
            None => Err(QRError::InvalidUTF8Encoding),
        },
    }
}

/// The text of kanji byte pairs, each pair decoded on its own.
fn kanji_to_text(bytes: Vec<u8>) -> (r: QRResult<String>)
    requires
        bytes@.len() <= 0x10000 * 2,
    ensures
        match kanji_text(bytes@) {
            Ok(t) => r is Ok && r.unwrap()@ == t,
            Err(e) => r == Err::<String, QRError>(e),
        },
{
    let ghost d = bytes@;
    let mut out = String::new();
    let mut i: usize = 0;
    let len = bytes.len();
    proof {
        assert(d.skip(0) =~= d);
        match kanji_text(d) {
            Ok(t) => {
                assert(out@ + t =~= t);
            },
            Err(e) => {
            },
        }
    }
    while len - i >= 2
        invariant
            len == d.len() == bytes@.len(),
            d == bytes@,
            i <= len,
            match kanji_text(d.skip(i as int)) {
                Ok(rest) => kanji_text(d) == Ok::<Seq<char>, QRError>(out@ + rest),
                Err(e) => kanji_text(d) == Err::<Seq<char>, QRError>(e),
            },
        decreases len - i,
    {
        let pair = &bytes.as_slice()[i..i + 2];
        let (text, has_err) = decode_shift_jis(pair);
        proof {
            assert(pair@ =~= d.skip(i as int).take(2));
            assert(d.skip(i as int).skip(2) =~= d.skip(i + 2));
        }
        if has_err {
            return Err(QRError::CorruptDataSegment);
        }
        proof {
            match kanji_text(d.skip(i + 2)) {
                Ok(rest) => {
                    assert(out@ + (text@ + rest) =~= out@ + text@ + rest);
                },
                Err(e) => {
                },
            }
        }
        out.append(text.as_str());
        i += 2;
    }
    proof {
        assert(kanji_text(d.skip(i as int)) == Ok::<Seq<char>, QRError>(Seq::empty()));
        assert(out@ + Seq::<char>::empty() =~= out@);
    }
    Ok(out)
}

/// Reads `char_cnt` digits and appends them to `out`.
pub fn write_numeric(inp: &mut BitStream, char_cnt: usize, out: &mut String) -> (r: QRResult<()>)
    requires
        old(inp).wf(),
        char_cnt < 0x10000,
    ensures
        final(inp).wf(),
        final(inp).bytes() == old(inp).bytes(),
        final(inp).spec_len() == old(inp).spec_len(),
        final(inp).spec_capacity() == old(inp).spec_capacity(),
        old(inp).spec_cursor() <= final(inp).spec_cursor(),
        write_result(Mode::Numeric, char_cnt as nat, *old(inp), *final(inp), old(out)@, final(out)@, r),
{
    write_run(Mode::Numeric, inp, char_cnt, out)
}

/// Reads `char_cnt` alphanumerics and appends them to `out`.
pub fn write_alphanumeric(inp: &mut BitStream, char_cnt: usize, out: &mut String) -> (r: QRResult<
    (),
>)
    requires
        old(inp).wf(),
        char_cnt < 0x10000,
    ensures
        final(inp).wf(),
        final(inp).bytes() == old(inp).bytes(),
        final(inp).spec_len() == old(inp).spec_len(),
        final(inp).spec_capacity() == old(inp).spec_capacity(),
        old(inp).spec_cursor() <= final(inp).spec_cursor(),
        write_result(Mode::Alphanumeric, char_cnt as nat, *old(inp), *final(inp), old(out)@, final(out)@, r),
{
    write_run(Mode::Alphanumeric, inp, char_cnt, out)
}

/// Reads `char_cnt` bytes and appends their text to `out`.
pub fn write_byte(inp: &mut BitStream, char_cnt: usize, out: &mut String) -> (r: QRResult<()>)
    requires
        old(inp).wf(),
        char_cnt < 0x10000,
    ensures
        final(inp).wf(),
        final(inp).bytes() == old(inp).bytes(),
        final(inp).spec_len() == old(inp).spec_len(),
        final(inp).spec_capacity() == old(inp).spec_capacity(),
        old(inp).spec_cursor() <= final(inp).spec_cursor(),
        write_result(Mode::Byte, char_cnt as nat, *old(inp), *final(inp), old(out)@, final(out)@, r),
{
    write_run(Mode::Byte, inp, char_cnt, out)
}

/// Reads `char_cnt` kanji and appends their text to `out`.
pub fn write_kanji(inp: &mut BitStream, char_cnt: usize, out: &mut String) -> (r: QRResult<()>)
    requires
        old(inp).wf(),
        char_cnt < 0x10000,
    ensures
        final(inp).wf(),
        final(inp).bytes() == old(inp).bytes(),
        final(inp).spec_len() == old(inp).spec_len(),
        final(inp).spec_capacity() == old(inp).spec_capacity(),
        old(inp).spec_cursor() <= final(inp).spec_cursor(),
        write_result(Mode::Kanji, char_cnt as nat, *old(inp), *final(inp), old(out)@, final(out)@, r),
{
    write_run(Mode::Kanji, inp, char_cnt, out)
}

/// What writing a run of `cnt` characters of `mode` did: on success the stream moved past
/// the run and its text was appended; on failure `out` is unchanged and the error is that
/// of a short stream or of the text.
pub open spec fn write_result(
    mode: Mode,
    cnt: nat,
    before: BitStream,
    after: BitStream,
    out_before: Seq<char>,
    out_after: Seq<char>,
    r: QRResult<()>,
) -> bool {
    let c = before.spec_cursor() as int;
    let end = c + data_bits_len(mode, cnt);
    if end > before.spec_len() {
        &&& r == Err::<(), QRError>(QRError::CorruptDataSegment)
        &&& out_after == out_before
    } else {
        match segment_text(mode, decode_bits(mode, cnt, before.bits().subrange(c, end))) {
            Ok(t) => {
                &&& r == Ok::<(), QRError>(())
                &&& out_after == out_before + t
                &&& after.spec_cursor() == end
            },
            Err(e) => {
                &&& r == Err::<(), QRError>(e)
                &&& out_after == out_before
            },
        }
    }
}

/// Data bits run to at most 13 per character.
proof fn lemma_decode_bits_len(mode: Mode, cnt: nat, b: Seq<bool>)
    requires
        mode == Mode::Numeric || mode == Mode::Alphanumeric || mode == Mode::Byte || mode
            == Mode::Kanji,
    ensures
        decode_bits(mode, cnt, b).len() <= 2 * cnt,
    decreases cnt,
{
    if cnt > 0 {
        lemma_decode_bits_len(mode, (cnt - chunk_chars(mode, cnt)) as nat, b.skip(chunk_bits(mode, cnt) as int));
        reveal_with_fuel(numeric_digits, 4);
        reveal_with_fuel(alnum_digits, 3);
    }
}

fn write_run(mode: Mode, inp: &mut BitStream, char_cnt: usize, out: &mut String) -> (r: QRResult<()>)
    requires
        old(inp).wf(),
        char_cnt < 0x10000,
        mode == Mode::Numeric || mode == Mode::Alphanumeric || mode == Mode::Byte || mode
            == Mode::Kanji,
    ensures
        final(inp).wf(),
        final(inp).bytes() == old(inp).bytes(),
        final(inp).spec_len() == old(inp).spec_len(),
        final(inp).spec_capacity() == old(inp).spec_capacity(),
        old(inp).spec_cursor() <= final(inp).spec_cursor(),
        write_result(mode, char_cnt as nat, *old(inp), *final(inp), old(out)@, final(out)@, r),
{
    let bytes = take_chunks(mode, inp, char_cnt)?;
    proof {
        let c = old(inp).spec_cursor() as int;
        lemma_decode_bits_len(mode, char_cnt as nat, old(inp).bits().subrange(c, c + data_bits_len(mode, char_cnt as nat)));
    }
    let text = segment_to_text(mode, bytes)?;
    out.append(text.as_str());
    Ok(())
}

/// Reads one segment and appends its text to `out`. Returns the bits the segment took, or
/// zero at the terminator.
pub fn write_segment(inp: &mut BitStream, ver: Version, out: &mut String) -> (r: QRResult<usize>)
    requires
        old(inp).wf(),
        ver.valid(),
    ensures
        final(inp).wf(),
        final(inp).bytes() == old(inp).bytes(),
        final(inp).spec_len() == old(inp).spec_len(),
        final(inp).spec_capacity() == old(inp).spec_capacity(),
        old(inp).spec_cursor() <= final(inp).spec_cursor(),
        match spec_segment(ver, old(inp).bits(), old(inp).spec_cursor() as int) {
            Err(e) => r == Err::<usize, QRError>(e) && final(out)@ == old(out)@,
            Ok((m, d, p)) => if m == Mode::Terminator {
                &&& r == Ok::<usize, QRError>(0)
                &&& final(out)@ == old(out)@
                &&& final(inp).spec_cursor() == p
            } else {
                match segment_text(m, d) {
                    Ok(t) => {
                        &&& r == Ok::<usize, QRError>((p - old(inp).spec_cursor()) as usize)
                        &&& final(out)@ == old(out)@ + t
                        &&& final(inp).spec_cursor() == p
                        &&& p >= old(inp).spec_cursor() + 4
                    },
                    Err(e) => r == Err::<usize, QRError>(e) && final(out)@ == old(out)@,
                }
            },
        },
{
    proof {
        inp.lemma_wf_facts();
    }
    let before = inp.bits_left();
    let (mode, char_cnt) = take_header(inp, ver)?;
    match mode {
        Mode::Numeric => write_numeric(inp, char_cnt, out)?,
        Mode::Alphanumeric => write_alphanumeric(inp, char_cnt, out)?,
        Mode::Byte => write_byte(inp, char_cnt, out)?,
        Mode::Kanji => write_kanji(inp, char_cnt, out)?,
        _ => {
            return Ok(0);
        },
    }
    proof {
        inp.lemma_wf_facts();
    }
    Ok(before - inp.bits_left())
}

/// One step of `decode_text`: the segment at `pos`, then the rest.
proof fn lemma_decode_text_step(ver: Version, bits: Seq<bool>, pos: int, start: int, bcap: nat, mono: bool)
    ensures
        match spec_segment(ver, bits, pos) {
            Err(e) => decode_text(ver, bits, pos, start, bcap, mono) == Err::<Seq<char>, QRError>(e),
            Ok((m, d, p)) => if m == Mode::Terminator {
                decode_text(ver, bits, pos, start, bcap, mono) == Ok::<Seq<char>, QRError>(Seq::empty())
            } else {
                match segment_text(m, d) {
                    Err(e) => decode_text(ver, bits, pos, start, bcap, mono) == Err::<Seq<char>, QRError>(e),
                    Ok(t) => if stops_after(p - start, bcap, mono) {
                        decode_text(ver, bits, pos, start, bcap, mono) == Ok::<Seq<char>, QRError>(t)
                    } else {
                        decode_text(ver, bits, pos, start, bcap, mono) == match decode_text(ver, bits, p, start, bcap, mono) {
                            Ok(rest) => Ok::<Seq<char>, QRError>(t + rest),
                            Err(e) => Err::<Seq<char>, QRError>(e),
                        }
                    },
                }
            },
        },
{
}

/// One step of `decode_bytes_from`: the segment at `pos`, then the rest.
proof fn lemma_decode_bytes_step(ver: Version, bits: Seq<bool>, pos: int, start: int, bcap: nat, mono: bool)
    ensures
        match spec_segment(ver, bits, pos) {
            Err(e) => decode_bytes_from(ver, bits, pos, start, bcap, mono) == Err::<Seq<u8>, QRError>(e),
            Ok((m, d, p)) => if m == Mode::Terminator {
                decode_bytes_from(ver, bits, pos, start, bcap, mono) == Ok::<Seq<u8>, QRError>(Seq::empty())
            } else if stops_after(p - start, bcap, mono) {
                decode_bytes_from(ver, bits, pos, start, bcap, mono) == Ok::<Seq<u8>, QRError>(d)
            } else {
                decode_bytes_from(ver, bits, pos, start, bcap, mono) == match decode_bytes_from(ver, bits, p, start, bcap, mono) {
                    Ok(rest) => Ok::<Seq<u8>, QRError>(d + rest),
                    Err(e) => Err::<Seq<u8>, QRError>(e),
                }
            },
        },
{
}

/// The text of the data bits from the cursor on, segment by segment, up to the terminator;
/// a single channel stops early once fewer than four bits of its capacity are left.
pub fn decode(encoded: &mut BitStream, ver: Version, ecl: ECLevel, hi_cap: bool) -> (r: QRResult<
    String,
>)
    requires
        old(encoded).wf(),
        ver.valid(),
    ensures
        final(encoded).wf(),
        final(encoded).bytes() == old(encoded).bytes(),
        final(encoded).spec_len() == old(encoded).spec_len(),
        final(encoded).spec_capacity() == old(encoded).spec_capacity(),
        match decode_text(
            ver,
            old(encoded).bits(),
            old(encoded).spec_cursor() as int,
            old(encoded).spec_cursor() as int,
            ver.spec_data_bit_capacity(ecl, false),
            !hi_cap,
        ) {
            Ok(t) => r is Ok && r.unwrap()@ == t,
            Err(e) => r == Err::<String, QRError>(e),
        },
{
    let bcap = ver.data_bit_capacity(ecl, false);
    let mut res = String::new();
    let ghost bits = encoded.bits();
    let ghost start = encoded.spec_cursor() as int;
    let ghost target = decode_text(ver, bits, start, start, bcap as nat, !hi_cap);
    proof {
        encoded.lemma_wf_facts();
        match target {
            Ok(t) => {
                assert(res@ + t =~= t);
            },
            Err(e) => {
            },
        }
    }
    let start_left = encoded.bits_left();
    loop
        invariant_except_break
            match decode_text(ver, bits, encoded.spec_cursor() as int, start, bcap as nat, !hi_cap) {
                Ok(rest) => target == Ok::<Seq<char>, QRError>(res@ + rest),
                Err(e) => target == Err::<Seq<char>, QRError>(e),
            },
        invariant
            encoded.wf(),
            ver.valid(),
            bcap == ver.spec_data_bit_capacity(ecl, false),
            encoded.bytes() == old(encoded).bytes(),
            encoded.spec_len() == old(encoded).spec_len(),
            encoded.spec_capacity() == old(encoded).spec_capacity(),
            bits == encoded.bits(),
            start == old(encoded).spec_cursor(),
            start <= encoded.spec_cursor(),
            start_left == bits.len() - start,
            target == decode_text(ver, bits, start, start, bcap as nat, !hi_cap),
        ensures
            match target {
                Ok(t) => res@ == t,
                Err(e) => false,
            },
        decreases encoded.spec_len() - encoded.spec_cursor(),
    {
        let ghost pos = encoded.spec_cursor() as int;
        let ghost before = res@;
        proof {
            lemma_decode_text_step(ver, bits, pos, start, bcap as nat, !hi_cap);
        }
        let seg_bit_len = write_segment(encoded, ver, &mut res)?;
        if seg_bit_len == 0 {
            proof {
                assert(before + Seq::<char>::empty() =~= before);
            }
            break;
        }
        proof {
            encoded.lemma_wf_facts();
        }
        let used = start_left - encoded.bits_left();
        if !hi_cap && used <= bcap && bcap - used < 4 {
            break;
        }
        proof {
            let seg = spec_segment(ver, bits, pos);
            let (m, d, p) = seg.unwrap();
            let t = segment_text(m, d).unwrap();
            assert(seg is Ok && m != Mode::Terminator && segment_text(m, d) is Ok);
            assert(p == encoded.spec_cursor());
            assert(res@ == before + t);
            assert(!stops_after(p - start, bcap as nat, !hi_cap));
            match decode_text(ver, bits, p, start, bcap as nat, !hi_cap) {
                Ok(rest) => {
                    assert(before + (t + rest) =~= res@ + rest);
                },
                Err(e) => {
                },
            }
        }
    }
    Ok(res)
}

/// The bytes of the data bits from the cursor on, segment by segment, up to the terminator;
/// a single channel stops early once fewer than four bits of its capacity are left.
pub fn decode_bytes(encoded: &mut BitStream, ver: Version, ecl: ECLevel, hi_cap: bool) -> (r:
    QRResult<Vec<u8>>)
    requires
        old(encoded).wf(),
        ver.valid(),
    ensures
        final(encoded).wf(),
        final(encoded).bytes() == old(encoded).bytes(),
        final(encoded).spec_len() == old(encoded).spec_len(),
        final(encoded).spec_capacity() == old(encoded).spec_capacity(),
        match decode_bytes_from(
            ver,
            old(encoded).bits(),
            old(encoded).spec_cursor() as int,
            old(encoded).spec_cursor() as int,
            ver.spec_data_bit_capacity(ecl, false),
            !hi_cap,
        ) {
            Ok(d) => r is Ok && r.unwrap()@ == d,
            Err(e) => r == Err::<Vec<u8>, QRError>(e),
        },
{
    let bcap = ver.data_bit_capacity(ecl, false);
    let mut res: Vec<u8> = Vec::new();
    let ghost bits = encoded.bits();
    let ghost start = encoded.spec_cursor() as int;
    let ghost target = decode_bytes_from(ver, bits, start, start, bcap as nat, !hi_cap);
    proof {
        encoded.lemma_wf_facts();
        match target {
            Ok(t) => {
                assert(res@ + t =~= t);
            },
            Err(e) => {
            },
        }
    }
    let start_left = encoded.bits_left();
    loop
        invariant_except_break
            match decode_bytes_from(ver, bits, encoded.spec_cursor() as int, start, bcap as nat, !hi_cap) {
                Ok(rest) => target == Ok::<Seq<u8>, QRError>(res@ + rest),
                Err(e) => target == Err::<Seq<u8>, QRError>(e),
            },
        invariant
            encoded.wf(),
            ver.valid(),
            bcap == ver.spec_data_bit_capacity(ecl, false),
            encoded.bytes() == old(encoded).bytes(),
            encoded.spec_len() == old(encoded).spec_len(),
            encoded.spec_capacity() == old(encoded).spec_capacity(),
            bits == encoded.bits(),
            start == old(encoded).spec_cursor(),
            start <= encoded.spec_cursor(),
            start_left == bits.len() - start,
            target == decode_bytes_from(ver, bits, start, start, bcap as nat, !hi_cap),
        ensures
            match target {
                Ok(t) => res@ == t,
                Err(e) => false,
            },
        decreases encoded.spec_len() - encoded.spec_cursor(),
    {
        let ghost pos = encoded.spec_cursor() as int;
        proof {
            lemma_decode_bytes_step(ver, bits, pos, start, bcap as nat, !hi_cap);
        }
        let (mode, mut bytes) = take_segment(encoded, ver)?;
        if mode == Mode::Terminator {
            proof {
                assert(res@ + Seq::<u8>::empty() =~= res@);
            }
            break;
        }
        let ghost before = res@;
        let ghost d = bytes@;
        res.append(&mut bytes);
        proof {
            encoded.lemma_wf_facts();
            match decode_bytes_from(ver, bits, encoded.spec_cursor() as int, start, bcap as nat, !hi_cap) {
                Ok(rest) => {
                    assert(before + (d + rest) =~= res@ + rest);
                },
                Err(e) => {
                },
            }
        }
        let used = start_left - encoded.bits_left();
        if !hi_cap && used <= bcap && bcap - used < 4 {
            proof {
                assert(res@ =~= before + d);
            }
            break;
        }
    }
    Ok(res)
}

} // verus!
