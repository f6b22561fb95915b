//! The encoder: writes segments, the terminator and padding into a bit stream.
use crate::bit_types::{BitStream, MAX_PAYLOAD_SIZE};
use crate::bits::int_bits;
use crate::bits::lemma_shl1_u32;
use crate::codec::stream::{
    char_modes_of, chunk_len, flatten, headers_for, lemma_mode_data_bits_len, max_count,
    maximal_runs, mode_data_bits, mode_runs, split_run, split_runs, pad_codeword_bits, seg_view, segment_bits, segments_bits,
    segs_view, valid_segments, zeros,
};
use crate::error::{QRError, QRResult};
use crate::metadata::{lemma_normal_capacity, ECLevel, Version};
use crate::codec::types::{
    lemma_alnum_roundtrip, lemma_numeric_roundtrip, Mode, Segment, MODES, PADDING_CODEWORDS,
};
use vstd::arithmetic::power2::*;
use vstd::arithmetic::power::*;
use vstd::prelude::*;

verus! {

/// The header of a segment as written: mode indicator, then character count.
pub open spec fn header_bits(seg: Segment) -> Seq<bool> {
    int_bits(seg.mode.indicator() as nat, seg.mode_bits as nat) + int_bits(
        seg.data@.len(),
        seg.len_bits as nat,
    )
}

/// A segment as written: header, then data.
pub open spec fn written_segment(seg: Segment) -> Seq<bool> {
    header_bits(seg) + mode_data_bits(seg.mode, seg.data@)
}

/// What a segment needs to be writable: a data mode holding all its characters, and header
/// fields wide enough for its mode and count.
pub open spec fn writable(seg: Segment) -> bool {
    &&& seg.mode.is_data()
    &&& seg.mode.holds_all(seg.data@)
    &&& 4 <= seg.mode_bits <= 16
    &&& seg.len_bits <= 16
    &&& seg.data@.len() < pow2(seg.len_bits as nat)
}

/// Writes the mode indicator and the character count of `seg`.
pub fn push_header(seg: &Segment, out: &mut BitStream)
    requires
        old(out).wf(),
        old(out).tail_clear(),
        4 <= seg.mode_bits <= 16,
        seg.len_bits <= 16,
        seg.data@.len() < pow2(seg.len_bits as nat),
        old(out).has_room((seg.mode_bits + seg.len_bits) as nat),
    ensures
        final(out).wf(),
        final(out).tail_clear(),
        final(out).bits() == old(out).bits() + header_bits(*seg),
        final(out).spec_len() == old(out).spec_len() + seg.mode_bits + seg.len_bits,
        final(out).spec_capacity() == old(out).spec_capacity(),
        final(out).spec_cursor() == old(out).spec_cursor(),
{
    proof {
        lemma2_to64();
        if seg.mode_bits > 4 {
            lemma_pow2_strictly_increases(4, seg.mode_bits as nat);
        }
        if seg.mode_bits < 16 {
            lemma_pow2_strictly_increases(seg.mode_bits as nat, 16);
        }
        if seg.len_bits < 16 {
            lemma_pow2_strictly_increases(seg.len_bits as nat, 16);
        }
    }
    out.push_bits(seg.mode.bits() as u16, seg.mode_bits);
    let char_cnt = seg.data.len();
    out.push_bits(char_cnt as u16, seg.len_bits);
    proof {
        assert(final(out).bits() =~= old(out).bits() + header_bits(*seg));
    }
}

/// Writes `data` in `mode`, chunk by chunk.
fn push_chunks(mode: Mode, data: &[u8], out: &mut BitStream)
    requires
        old(out).wf(),
        old(out).tail_clear(),
        mode.is_data(),
        mode.holds_all(data@),
        old(out).has_room(mode.spec_encoded_len(data@.len())),
    ensures
        final(out).wf(),
        final(out).tail_clear(),
        final(out).bits() == old(out).bits() + mode_data_bits(mode, data@),
        final(out).spec_len() == old(out).spec_len() + mode.spec_encoded_len(data@.len()),
        final(out).spec_capacity() == old(out).spec_capacity(),
        final(out).spec_cursor() == old(out).spec_cursor(),
{
    let len = data.len();
    let step: usize = match mode {
        Mode::Numeric => 3,
        Mode::Alphanumeric => 2,
        _ => 1,
    };
    proof {
        lemma_mode_data_bits_len(mode, data@);
        lemma2_to64();
    }
    let mut i: usize = 0;
    proof {
        assert(data@.skip(0) =~= data@);
    }
    while i < len
        invariant
            len == data@.len(),
            i <= len,
            step == chunk_len(mode),
            mode.is_data(),
            mode.holds_all(data@),
            out.wf(),
            out.tail_clear(),
            out.spec_capacity() == old(out).spec_capacity(),
            out.spec_cursor() == old(out).spec_cursor(),
            out.bits() + mode_data_bits(mode, data@.skip(i as int)) == old(out).bits()
                + mode_data_bits(mode, data@),
            old(out).spec_len() + mode_data_bits(mode, data@) .len() <= old(out).spec_capacity(),
            old(out).spec_len() + mode_data_bits(mode, data@) .len() <= 8 * MAX_PAYLOAD_SIZE,
        decreases len - i,
    {
        let end = if len - i < step {
            len
        } else {
            i + step
        };
        let chunk = &data[i..end];
        let k = end - i;
        let ghost rest = data@.skip(i as int);
        proof {
            assert(chunk@ =~= rest.take(k as int));
            assert forall|t: int| 0 <= t < chunk@.len() implies mode.holds(#[trigger] chunk@[t]) by {
                assert(mode.holds(data@[i + t]));
            }
            assert(rest.skip(k as int) =~= data@.skip(end as int));
            lemma_mode_data_bits_len(mode, rest);
            lemma_mode_data_bits_len(mode, data@.skip(end as int));
            let lhs = out.bits() + mode_data_bits(mode, rest);
            assert(lhs.len() == out.bits().len() + mode_data_bits(mode, rest).len());
            assert(mode_data_bits(mode, rest).len() >= k);
        }
        let value = mode.encode_chunk(chunk);
        let size = mode.encoded_len(k);
        proof {
            lemma_chunk_fits(mode, chunk@);
        }
        out.push_bits(value, size);
        proof {
            assert(mode_data_bits(mode, rest) == int_bits(value as nat, size as nat)
                + mode_data_bits(mode, data@.skip(end as int)));
            assert(out.bits() + mode_data_bits(mode, data@.skip(end as int)) =~= old(out).bits()
                + mode_data_bits(mode, data@));
        }
        i = end;
    }
    proof {
        assert(data@.skip(len as int) =~= Seq::<u8>::empty());
        assert(out.bits() =~= old(out).bits() + mode_data_bits(mode, data@));
    }
}

/// A chunk's value fits the bits its length calls for.
pub proof fn lemma_chunk_fits(mode: Mode, s: Seq<u8>)
    requires
        mode.is_data(),
        mode.holds_all(s),
        s.len() >= 1,
        s.len() <= chunk_len(mode),
    ensures
        mode.chunk_value(s) < pow2(mode.spec_encoded_len(s.len())),
        mode.spec_encoded_len(s.len()) <= 16,
{
    lemma2_to64();
    reveal(pow);
    match mode {
        Mode::Numeric => {
            lemma_numeric_roundtrip(s);
            reveal_with_fuel(pow, 4);
        },
        Mode::Alphanumeric => {
            lemma_alnum_roundtrip(s);
            reveal_with_fuel(pow, 3);
        },
        _ => {
        },
    }
}

/// Writes a run of decimal digits, three to ten bits.
pub fn push_numeric_data(data: &[u8], out: &mut BitStream)
    requires
        old(out).wf(),
        old(out).tail_clear(),
        Mode::Numeric.holds_all(data@),
        old(out).has_room(Mode::Numeric.spec_encoded_len(data@.len())),
    ensures
        final(out).wf(),
        final(out).tail_clear(),
        final(out).bits() == old(out).bits() + mode_data_bits(Mode::Numeric, data@),
        final(out).spec_len() == old(out).spec_len() + Mode::Numeric.spec_encoded_len(
            data@.len(),
        ),
        final(out).spec_capacity() == old(out).spec_capacity(),
        final(out).spec_cursor() == old(out).spec_cursor(),
{
    push_chunks(Mode::Numeric, data, out);
}

/// Writes a run of alphanumerics, two to eleven bits.
pub fn push_alphanumeric_data(data: &[u8], out: &mut BitStream)
    requires
        old(out).wf(),
        old(out).tail_clear(),
        Mode::Alphanumeric.holds_all(data@),
        old(out).has_room(Mode::Alphanumeric.spec_encoded_len(data@.len())),
    ensures
        final(out).wf(),
        final(out).tail_clear(),
        final(out).bits() == old(out).bits() + mode_data_bits(Mode::Alphanumeric, data@),
        final(out).spec_len() == old(out).spec_len() + Mode::Alphanumeric.spec_encoded_len(
            data@.len(),
        ),
        final(out).spec_capacity() == old(out).spec_capacity(),
        final(out).spec_cursor() == old(out).spec_cursor(),
{
    push_chunks(Mode::Alphanumeric, data, out);
}

/// Writes bytes, eight bits each.
pub fn push_byte_data(data: &[u8], out: &mut BitStream)
    requires
        old(out).wf(),
        old(out).tail_clear(),
        old(out).has_room(Mode::Byte.spec_encoded_len(data@.len())),
    ensures
        final(out).wf(),
        final(out).tail_clear(),
        final(out).bits() == old(out).bits() + mode_data_bits(Mode::Byte, data@),
        final(out).spec_len() == old(out).spec_len() + Mode::Byte.spec_encoded_len(data@.len()),
        final(out).spec_capacity() == old(out).spec_capacity(),
        final(out).spec_cursor() == old(out).spec_cursor(),
{
    push_chunks(Mode::Byte, data, out);
}

/// Writes a whole segment: header, then data.
pub fn push_segment(seg: Segment, out: &mut BitStream)
    requires
        old(out).wf(),
        old(out).tail_clear(),
        writable(seg),
        old(out).has_room(seg.spec_bit_len()),
    ensures
        final(out).wf(),
        final(out).tail_clear(),
        final(out).bits() == old(out).bits() + written_segment(seg),
        final(out).spec_len() == old(out).spec_len() + seg.spec_bit_len(),
        final(out).spec_capacity() == old(out).spec_capacity(),
        final(out).spec_cursor() == old(out).spec_cursor(),
{
    push_header(&seg, out);
    match seg.mode {
        Mode::Numeric => push_numeric_data(seg.data, out),
        Mode::Alphanumeric => push_alphanumeric_data(seg.data, out),
        _ => push_byte_data(seg.data, out),
    }
    proof {
        assert(final(out).bits() =~= old(out).bits() + written_segment(seg));
    }
}

/// Writes up to four zero bits, as many as the capacity leaves room for.
pub fn push_terminator(out: &mut BitStream)
    requires
        old(out).wf(),
        old(out).tail_clear(),
        old(out).spec_capacity() <= 8 * MAX_PAYLOAD_SIZE,
    ensures
        final(out).wf(),
        final(out).tail_clear(),
        final(out).bits() == old(out).bits() + zeros(terminator_len(*old(out))),
        final(out).spec_len() == old(out).spec_len() + terminator_len(*old(out)),
        final(out).spec_capacity() == old(out).spec_capacity(),
        final(out).spec_cursor() == old(out).spec_cursor(),
{
    let bit_len = out.len();
    let bit_capacity = out.capacity();
    if bit_len < bit_capacity {
        let term_len = if bit_capacity - bit_len < 4 {
            bit_capacity - bit_len
        } else {
            4
        };
        proof {
            lemma2_to64();
            lemma_pow2_pos(term_len as nat);
        }
        out.push_bits(0, term_len);
        proof {
            lemma_int_bits_zero(term_len as nat);
        }
    } else {
        proof {
            assert(old(out).bits() + zeros(0) =~= old(out).bits());
        }
    }
}

/// The terminator's length: four bits, or what is left of the capacity if less.
pub open spec fn terminator_len(bs: BitStream) -> nat {
    if bs.spec_len() >= bs.spec_capacity() {
        0
    } else if bs.spec_capacity() - bs.spec_len() < 4 {
        (bs.spec_capacity() - bs.spec_len()) as nat
    } else {
        4
    }
}

/// The bits of zero are all clear.
pub proof fn lemma_int_bits_zero(n: nat)
    ensures
        int_bits(0, n) == zeros(n),
{
    assert forall|i: int| 0 <= i < n implies !#[trigger] int_bits(0, n)[i] by {
        lemma_pow2_pos((n - 1 - i) as nat);
    }
    assert(int_bits(0, n) =~= zeros(n));
}

/// Zero bits up to the next byte boundary.
pub open spec fn padding_len(len: nat) -> nat {
    if len % 8 == 0 {
        0
    } else {
        (8 - len % 8) as nat
    }
}

/// Fills the last byte with zero bits.
pub fn push_padding_bits(out: &mut BitStream)
    requires
        old(out).wf(),
        old(out).tail_clear(),
        old(out).has_room(padding_len(old(out).spec_len())),
    ensures
        final(out).wf(),
        final(out).tail_clear(),
        final(out).bits() == old(out).bits() + zeros(padding_len(old(out).spec_len())),
        final(out).spec_len() == old(out).spec_len() + padding_len(old(out).spec_len()),
        final(out).spec_capacity() == old(out).spec_capacity(),
        final(out).spec_cursor() == old(out).spec_cursor(),
{
    let len = out.len();
    let offset = len & 7;
    proof {
        crate::bits::lemma_usize_div_mod(len);
    }
    if offset > 0 {
        let padding_bits_len = 8 - offset;
        proof {
            lemma2_to64();
            lemma_pow2_pos(padding_bits_len as nat);
        }
        out.push_bits(0, padding_bits_len);
        proof {
            lemma_int_bits_zero(padding_bits_len as nat);
        }
    } else {
        proof {
            assert(old(out).bits() + zeros(0) =~= old(out).bits());
        }
    }
}

/// Fills the remaining whole bytes with the pad codewords `0xEC 0x11 0xEC ...`.
pub fn push_padding_codewords(out: &mut BitStream)
    requires
        old(out).wf(),
        old(out).tail_clear(),
        old(out).spec_len() <= old(out).spec_capacity() <= 8 * MAX_PAYLOAD_SIZE,
    ensures
        final(out).wf(),
        final(out).tail_clear(),
        final(out).bits() == old(out).bits() + pad_codeword_bits(
            ((old(out).spec_capacity() - old(out).spec_len()) / 8) as nat,
        ),
        final(out).spec_len() == old(out).spec_len() + 8 * ((old(out).spec_capacity()
            - old(out).spec_len()) / 8),
        final(out).spec_capacity() == old(out).spec_capacity(),
        final(out).spec_cursor() == old(out).spec_cursor(),
{
    let d = out.capacity() - out.len();
    let remain = d >> 3;
    proof {
        crate::bits::lemma_usize_div_mod(d);
        lemma2_to64();
    }
    let mut i: usize = 0;
    while i < remain
        invariant
            i <= remain,
            remain == (old(out).spec_capacity() - old(out).spec_len()) / 8,
            old(out).spec_len() <= old(out).spec_capacity() <= 8 * MAX_PAYLOAD_SIZE,
            out.wf(),
            out.tail_clear(),
            out.bits() == old(out).bits() + pad_codeword_bits(i as nat),
            out.spec_len() == old(out).spec_len() + 8 * i,
            out.spec_capacity() == old(out).spec_capacity(),
            out.spec_cursor() == old(out).spec_cursor(),
        decreases remain - i,
    {
        let pc = PADDING_CODEWORDS[i % 2];
        proof {
            lemma2_to64();
        }
        out.push_bits(pc as u16, 8);
        proof {
            assert(pad_codeword_bits((i + 1) as nat) == pad_codeword_bits(i as nat) + int_bits(
                if i % 2 == 0 {
                    0xEC
                } else {
                    0x11
                },
                8,
            ));
            assert(out.bits() =~= old(out).bits() + pad_codeword_bits((i + 1) as nat));
        }
        i += 1;
    }
}

/// Pads to a byte boundary with zero bits, then fills the capacity with pad codewords.
pub fn pad_remaining_capacity(out: &mut BitStream)
    requires
        old(out).wf(),
        old(out).tail_clear(),
        old(out).spec_capacity() <= 8 * MAX_PAYLOAD_SIZE,
        old(out).spec_capacity() % 8 == 0,
        old(out).spec_len() <= old(out).spec_capacity(),
    ensures
        final(out).wf(),
        final(out).tail_clear(),
        final(out).bits() == old(out).bits() + zeros(padding_len(old(out).spec_len()))
            + pad_codeword_bits(
            ((old(out).spec_capacity() - old(out).spec_len() - padding_len(old(out).spec_len()))
                / 8) as nat,
        ),
        final(out).spec_len() == old(out).spec_capacity(),
        final(out).spec_capacity() == old(out).spec_capacity(),
        final(out).spec_cursor() == old(out).spec_cursor(),
{
    push_padding_bits(out);
    push_padding_codewords(out);
}

// Segmentation
//------------------------------------------------------------------------------
/// The most characters one segment in `mode` can count.
fn max_char_count(ver: Version, mode: Mode) -> (r: usize)
    requires
        ver.valid(),
        mode.is_data(),
    ensures
        r == max_count(ver, mode),
        r >= 1,
{
    let cc = ver.char_cnt_bits(mode);
    proof {
        lemma_shl1_u32(cc as u32);
        lemma2_to64();
        if cc > 1 {
            lemma_pow2_strictly_increases(1, cc as nat);
        }
    }
    ((1u32 << (cc as u32)) - 1) as usize
}

/// Cuts `data` into segments where the per-character mode changes.
pub fn build_segments<'a>(ver: Version, char_modes: Vec<Mode>, data: &'a [u8]) -> (r: Vec<
    Segment<'a>,
>)
    requires
        ver.valid(),
        char_modes@.len() == data@.len(),
        data@.len() > 0,
        forall|i: int|
            0 <= i < data@.len() ==> (#[trigger] char_modes@[i]).is_data() && char_modes@[i].holds(
                data@[i],
            ),
    ensures
        mode_runs(segs_view(r@)),
        flatten(segs_view(r@)) == data@,
        char_modes_of(segs_view(r@)) == char_modes@,
        maximal_runs(segs_view(r@)),
        headers_for(ver, r@),
{
    let len = data.len();
    let mode_bits = ver.mode_bits();
    let mut segs: Vec<Segment<'a>> = Vec::new();
    let mut seg_start: usize = 0;
    let mut seg_mode = char_modes[0];
    let mut i: usize = 1;
    proof {
        assert(flatten(segs_view(segs@)) =~= data@.take(0));
        assert(char_modes_of(segs_view(segs@)) =~= char_modes@.take(0));
    }
    while i < len
        invariant
            ver.valid(),
            len == data@.len() == char_modes@.len(),
            mode_bits == ver.spec_mode_bits(),
            forall|p: int|
                0 <= p < len ==> (#[trigger] char_modes@[p]).is_data() && char_modes@[p].holds(
                    data@[p],
                ),
            0 <= seg_start < i <= len,
            seg_mode.is_data(),
            forall|p: int| seg_start <= p < i ==> #[trigger] char_modes@[p] == seg_mode,
            mode_runs(segs_view(segs@)),
            flatten(segs_view(segs@)) == data@.take(seg_start as int),
            char_modes_of(segs_view(segs@)) == char_modes@.take(seg_start as int),
            maximal_runs(segs_view(segs@)),
            segs@.len() > 0 ==> segs@.last().mode != seg_mode,
            headers_for(ver, segs@),
        decreases len - i,
    {
        let m = char_modes[i];
        if seg_mode != m {
            let len_bits = ver.char_cnt_bits(seg_mode);
            let seg = Segment::new(seg_mode, mode_bits, len_bits, &data[seg_start..i]);
            proof {
                seg_push_facts(ver, segs@, seg, data@, char_modes@, seg_start as int, i as int);
            }
            segs.push(seg);
            seg_mode = m;
            seg_start = i;
        }
        i += 1;
    }
    let len_bits = ver.char_cnt_bits(seg_mode);
    let seg = Segment::new(seg_mode, mode_bits, len_bits, &data[seg_start..len]);
    proof {
        seg_push_facts(ver, segs@, seg, data@, char_modes@, seg_start as int, len as int);
        assert(data@.take(len as int) =~= data@);
        assert(char_modes@.take(len as int) =~= char_modes@);
    }
    segs.push(seg);
    segs
}

/// Closing the run `[start, end)` as a segment keeps the segmentation facts.
proof fn seg_push_facts(
    ver: Version,
    segs: Seq<Segment>,
    seg: Segment,
    data: Seq<u8>,
    modes: Seq<Mode>,
    start: int,
    end: int,
)
    requires
        0 <= start < end <= data.len() == modes.len(),
        seg.data@ == data.subrange(start, end),
        seg.mode.is_data(),
        seg.mode_bits == ver.spec_mode_bits(),
        seg.len_bits == ver.spec_char_cnt_bits(seg.mode),
        forall|p: int| 0 <= p < data.len() ==> #[trigger] modes[p].holds(data[p]),
        forall|p: int| start <= p < end ==> #[trigger] modes[p] == seg.mode,
        mode_runs(segs_view(segs)),
        flatten(segs_view(segs)) == data.take(start),
        char_modes_of(segs_view(segs)) == modes.take(start),
        maximal_runs(segs_view(segs)),
        segs.len() > 0 ==> segs.last().mode != seg.mode,
        headers_for(ver, segs),
    ensures
        mode_runs(segs_view(segs.push(seg))),
        flatten(segs_view(segs.push(seg))) == data.take(end),
        char_modes_of(segs_view(segs.push(seg))) == modes.take(end),
        maximal_runs(segs_view(segs.push(seg))),
        headers_for(ver, segs.push(seg)),
{
    let v = segs_view(segs);
    let w = segs_view(segs.push(seg));
    assert(w =~= v.push((seg.mode, seg.data@)));
    assert(w.drop_last() =~= v);
    assert(data.take(end) =~= data.take(start) + data.subrange(start, end));
    assert(modes.take(end) =~= modes.take(start) + Seq::new(
        (end - start) as nat,
        |p: int| seg.mode,
    ));
    assert(seg.mode.holds_all(seg.data@)) by {
        assert forall|t: int| 0 <= t < seg.data@.len() implies seg.mode.holds(
            #[trigger] seg.data@[t],
        ) by {
            assert(modes[start + t] == seg.mode);
            assert(modes[start + t].holds(data[start + t]));
        }
    }
    assert(mode_runs(w)) by {
        assert forall|i: int| 0 <= i < w.len() implies {
            let (m, s) = #[trigger] w[i];
            &&& m.is_data()
            &&& s.len() > 0
            &&& m.holds_all(s)
        } by {
            if i < v.len() {
                assert(w[i] == v[i]);
            }
        }
    }
    assert(maximal_runs(w)) by {
        assert forall|j: int, k: int| 0 <= j && k == j + 1 && k < w.len() implies #[trigger] w[j].0
            != #[trigger] w[k].0 by {
            if k < v.len() {
                assert(w[j] == v[j]);
                assert(w[k] == v[k]);
            } else {
                assert(w[j] == v[j]);
                assert(v[j] == seg_view(segs.last()));
            }
        }
    }
}

// Optimal segmentation
//------------------------------------------------------------------------------
/// Cost of one character in a mode, in sixths of a bit.
pub open spec fn char_weight(m: Mode) -> nat {
    match m {
        Mode::Numeric => 20,
        Mode::Alphanumeric => 33,
        _ => 48,
    }
}

/// Cost of a segment header in a mode, in sixths of a bit.
pub open spec fn header_weight(ver: Version, m: Mode) -> nat {
    ((4 + ver.spec_char_cnt_bits(m)) * 6) as nat
}

/// Rounds a cost up to a whole bit.
pub open spec fn round6(c: nat) -> nat {
    ((c + 5) / 6 * 6) as nat
}

/// Cost after one more character in `to`, from a run in `from` that cost `c`: a new header
/// when the mode changes.
pub open spec fn step_cost(ver: Version, c: nat, from: Mode, to: Mode) -> nat {
    if from == to {
        c + char_weight(to)
    } else {
        round6(c) + header_weight(ver, to) + char_weight(to)
    }
}

/// Cost of writing characters in the modes `p`, one mode per character.
pub open spec fn path_cost(ver: Version, p: Seq<Mode>) -> nat
    decreases p.len(),
{
    if p.len() == 0 {
        0
    } else if p.len() == 1 {
        header_weight(ver, p[0]) + char_weight(p[0])
    } else {
        step_cost(ver, path_cost(ver, p.drop_last()), p[p.len() - 2], p.last())
    }
}

/// `p` gives each of the first `p.len()` characters of `data` a data mode that holds it.
pub open spec fn valid_prefix(p: Seq<Mode>, data: Seq<u8>) -> bool {
    &&& p.len() <= data.len()
    &&& forall|i: int| 0 <= i < p.len() ==> (#[trigger] p[i]).is_data() && p[i].holds(data[i])
}

/// A mode for every character of `data`, each holding its character.
pub open spec fn valid_path(p: Seq<Mode>, data: Seq<u8>) -> bool {
    p.len() == data.len() && valid_prefix(p, data)
}

/// Position of a data mode in `MODES`.
pub open spec fn mode_index(m: Mode) -> int {
    match m {
        Mode::Numeric => 0,
        Mode::Alphanumeric => 1,
        _ => 2,
    }
}

/// The first index of the least of three costs.
pub open spec fn argmin3(c: [usize; 3]) -> int {
    if c[0] <= c[1] && c[0] <= c[2] {
        0
    } else if c[1] <= c[2] {
        1
    } else {
        2
    }
}

/// The mode index at position `t` on the path that ends in mode `j` at position `top`,
/// following the back pointers of `mp`.
pub open spec fn back_index(mp: Seq<[usize; 3]>, j: int, top: int, t: int) -> int
    decreases top - t,
{
    if t >= top {
        j
    } else {
        mp[t + 1][back_index(mp, j, top, t + 1)] as int
    }
}

/// Following a path from `top` goes through the back pointer at `top`.
proof fn lemma_back_index_step(mp: Seq<[usize; 3]>, j: int, top: int, t: int)
    requires
        0 <= t < top,
    ensures
        back_index(mp, j, top, t) == back_index(mp, mp[top][j] as int, top - 1, t),
    decreases top - t,
{
    let k = mp[top][j] as int;
    if t < top - 1 {
        lemma_back_index_step(mp, j, top, t + 1);
        assert(back_index(mp, j, top, t) == mp[t + 1][back_index(mp, j, top, t + 1)] as int);
        assert(back_index(mp, k, top - 1, t) == mp[t + 1][back_index(mp, k, top - 1, t + 1)] as int);
    } else {
        assert(back_index(mp, j, top, top) == j);
        assert(back_index(mp, j, top, t) == mp[top][back_index(mp, j, top, top)] as int);
        assert(back_index(mp, k, top - 1, t) == k);
    }
}

/// Back pointers above `top` do not change a path that ends at `top`.
proof fn lemma_back_index_frame(mp: Seq<[usize; 3]>, mp2: Seq<[usize; 3]>, j: int, top: int, t: int)
    requires
        0 <= t <= top,
        top < mp.len(),
        top < mp2.len(),
        forall|r: int| 0 <= r <= top ==> mp[r] == mp2[r],
    ensures
        back_index(mp, j, top, t) == back_index(mp2, j, top, t),
    decreases top - t,
{
    if t < top {
        lemma_back_index_frame(mp, mp2, j, top, t + 1);
    }
}

/// The cheapest way to reach mode `j` with one more character: the cost and the mode it
/// comes from, the first such mode when several tie.
fn relax(ver: Version, prev: [usize; 3], j: usize, bound: usize) -> (r: (usize, usize))
    requires
        ver.valid(),
        j < 3,
        prev[2] < usize::MAX,
        bound + 173 < usize::MAX,
        forall|k: int| 0 <= k < 3 && prev[k] < usize::MAX ==> prev[k] <= bound,
    ensures
        r.1 < 3,
        prev[r.1 as int] < usize::MAX,
        r.0 == step_cost(ver, prev[r.1 as int] as nat, MODES[r.1 as int], MODES[j as int]),
        r.0 <= bound + 173,
        forall|k: int|
            0 <= k < 3 && prev[k] < usize::MAX ==> r.0 <= step_cost(
                ver,
                prev[k] as nat,
                MODES[k],
                MODES[j as int],
            ),
        forall|k: int|
            0 <= k < r.1 && prev[k] < usize::MAX ==> r.0 < step_cost(
                ver,
                prev[k] as nat,
                MODES[k],
                MODES[j as int],
            ),
{
    let to_mode = MODES[j];
    let encoded_char_size: usize = match to_mode {
        Mode::Numeric => 20,
        Mode::Alphanumeric => 33,
        _ => 48,
    };
    let header = (4 + ver.char_cnt_bits(to_mode)) * 6;
    let mut best: usize = usize::MAX;
    let mut arg: usize = 3;
    let mut k: usize = 0;
    while k < 3
        invariant
            ver.valid(),
            j < 3,
            to_mode == MODES[j as int],
            encoded_char_size == char_weight(to_mode),
            header == header_weight(ver, to_mode),
            header <= 120,
            prev[2] < usize::MAX,
            bound + 173 < usize::MAX,
            forall|q: int| 0 <= q < 3 && prev[q] < usize::MAX ==> prev[q] <= bound,
            k <= 3,
            k > 2 ==> arg < 3,
            arg < 3 ==> prev[arg as int] < usize::MAX && best == step_cost(
                ver,
                prev[arg as int] as nat,
                MODES[arg as int],
                to_mode,
            ) && best <= bound + 173,
            arg >= 3 ==> best == usize::MAX,
            arg >= 3 ==> forall|q: int| 0 <= q < k ==> prev[q] == usize::MAX,
            arg < 3 ==> arg < k,
            forall|q: int|
                0 <= q < k && prev[q] < usize::MAX ==> best <= step_cost(
                    ver,
                    prev[q] as nat,
                    MODES[q],
                    to_mode,
                ),
            forall|q: int|
                0 <= q < k && q < arg && prev[q] < usize::MAX ==> best < step_cost(
                    ver,
                    prev[q] as nat,
                    MODES[q],
                    to_mode,
                ),
        decreases 3 - k,
    {
        if prev[k] != usize::MAX {
            let from_mode = MODES[k];
            let mut cost: usize = 0;
            if to_mode != from_mode {
                cost += (prev[k] + 5) / 6 * 6;
                cost += header;
            } else {
                cost += prev[k];
            }
            cost += encoded_char_size;
            if cost < best {
                proof {
                    assert forall|q: int| 0 <= q < k && prev[q] < usize::MAX implies cost
                        < step_cost(ver, prev[q] as nat, MODES[q], to_mode) by {
                        assert(arg < 3);
                    }
                }
                best = cost;
                arg = k;
            }
        }
        k += 1;
    }
    (best, arg)
}

/// The cost and back pointer of one cell of the table: none when `b` is not in mode `j`.
fn cell(ver: Version, prev: [usize; 3], j: usize, b: u8, bound: usize) -> (r: (usize, usize))
    requires
        ver.valid(),
        j < 3,
        prev[2] < usize::MAX,
        bound + 173 < usize::MAX,
        forall|k: int| 0 <= k < 3 && prev[k] < usize::MAX ==> prev[k] <= bound,
    ensures
        MODES[j as int].holds(b) ==> {
            &&& r.1 < 3
            &&& prev[r.1 as int] < usize::MAX
            &&& r.0 == step_cost(ver, prev[r.1 as int] as nat, MODES[r.1 as int], MODES[j as int])
            &&& r.0 <= bound + 173
            &&& forall|k: int|
                0 <= k < 3 && prev[k] < usize::MAX ==> r.0 <= step_cost(
                    ver,
                    prev[k] as nat,
                    MODES[k],
                    MODES[j as int],
                )
            &&& forall|k: int|
                0 <= k < r.1 && prev[k] < usize::MAX ==> r.0 < step_cost(
                    ver,
                    prev[k] as nat,
                    MODES[k],
                    MODES[j as int],
                )
        },
        !MODES[j as int].holds(b) ==> r.0 == usize::MAX && r.1 == usize::MAX,
{
    if MODES[j].contains(b) {
        relax(ver, prev, j, bound)
    } else {
        (usize::MAX, usize::MAX)
    }
}

/// Follows the back pointers from the cheapest final mode and returns the mode of every
/// character.
fn trace_optimal_modes(min_path: Vec<[usize; 3]>, prev_cost: [usize; 3]) -> (r: Vec<Mode>)
    requires
        min_path@.len() >= 1,
        prev_cost[2] < usize::MAX,
        forall|j: int|
            0 <= j < 3 && prev_cost[j] < usize::MAX ==> min_path@[min_path@.len() - 1][j] < 3,
        forall|p: int, j: int|
            1 <= p < min_path@.len() && 0 <= j < 3 && (#[trigger] min_path@[p][j]) < 3
                ==> min_path@[p - 1][min_path@[p][j] as int] < 3,
    ensures
        r@.len() == min_path@.len(),
        forall|t: int|
            0 <= t < r@.len() ==> #[trigger] r@[t] == MODES[back_index(
                min_path@,
                argmin3(prev_cost),
                min_path@.len() - 1,
                t,
            )],
{
    let len = min_path.len();
    let mut mode_index: usize = 0;
    if prev_cost[1] < prev_cost[mode_index] {
        mode_index = 1;
    }
    if prev_cost[2] < prev_cost[mode_index] {
        mode_index = 2;
    }
    let ghost start = argmin3(prev_cost);
    let ghost mp = min_path@;
    let ghost top = len - 1;
    assert(mode_index == start);
    let mut rev: Vec<Mode> = Vec::new();
    let mut mi = mode_index;
    let mut n: usize = 0;
    while n < len
        invariant
            len == mp.len() >= 1,
            mp == min_path@,
            top == len - 1,
            forall|p: int, j: int|
                1 <= p < mp.len() && 0 <= j < 3 && (#[trigger] mp[p][j]) < 3 ==> mp[p - 1][mp[p][j] as int]
                    < 3,
            n <= len,
            rev@.len() == n,
            n < len ==> mi < 3 && mi == back_index(mp, start, top, top - n),
            n < len && top - n >= 1 ==> mp[top - n][mi as int] < 3,
            forall|q: int| 0 <= q < n ==> #[trigger] rev@[q] == MODES[back_index(mp, start, top, top - q)],
        decreases len - n,
    {
        rev.push(MODES[mi]);
        let p = len - 1 - n;
        if p >= 1 {
            let next = min_path[p][mi];
            proof {
                assert(back_index(mp, start, top, p - 1) == mp[p as int][back_index(
                    mp,
                    start,
                    top,
                    p as int,
                )] as int);
            }
            mi = next;
        }
        n += 1;
    }
    let mut out: Vec<Mode> = Vec::new();
    let mut t: usize = 0;
    while t < len
        invariant
            len == mp.len(),
            mp == min_path@,
            top == len - 1,
            rev@.len() == len,
            forall|q: int| 0 <= q < len ==> #[trigger] rev@[q] == MODES[back_index(mp, start, top, top - q)],
            t <= len,
            out@.len() == t,
            forall|q: int| 0 <= q < t ==> #[trigger] out@[q] == MODES[back_index(mp, start, top, q)],
        decreases len - t,
    {
        out.push(rev[len - 1 - t]);
        t += 1;
    }
    out
}

/// Splits `data` into segments whose modes minimise the cost model of `path_cost`: the
/// dynamic program keeps, for each mode, the cheapest way to end the prefix read so far in
/// that mode; each run of one mode becomes one segment. Ties go as the back pointers break
/// them, to the first mode in the order numeric, alphanumeric, byte: among the cheapest ways
/// whose every prefix is cheapest for its last mode, the one that comes first read from the
/// end. The costs, at most 173 sixths of a bit per character above the first header, must
/// fit in `usize`.
pub fn compute_optimal_segments<'a>(data: &'a [u8], ver: Version) -> (r: Vec<Segment<'a>>)
    requires
        ver.valid(),
        data@.len() > 0,
        173 * data@.len() + 120 < usize::MAX,
    ensures
        optimal_segmentation(ver, data@, segs_view(r@)),
        headers_for(ver, r@),
        prefix_optimal(ver, data@, char_modes_of(segs_view(r@))),
        forall|q: Seq<Mode>|
            valid_path(q, data@) && prefix_optimal(ver, data@, q) && path_cost(ver, q) == path_cost(
                ver,
                char_modes_of(segs_view(r@)),
            ) ==> !#[trigger] rev_lex_less(q, char_modes_of(segs_view(r@))),
{
    let len = data.len();
    let mut prev_cost: [usize; 3] = [
        (4 + ver.char_cnt_bits(Mode::Numeric)) * 6,
        (4 + ver.char_cnt_bits(Mode::Alphanumeric)) * 6,
        (4 + ver.char_cnt_bits(Mode::Byte)) * 6,
    ];
    let mut min_path: Vec<[usize; 3]> = Vec::new();
    let ghost mut best: Seq<Seq<Mode>> = seq![Seq::empty(), Seq::empty(), Seq::empty()];
    let mut i: usize = 0;
    proof {
        reveal(dp_state);
        assert(MODES[0] == Mode::Numeric && MODES[1] == Mode::Alphanumeric && MODES[2] == Mode::Byte);
        assert(dp_state(ver, data@, 0, prev_cost, min_path@, best));
    }
    while i < len
        invariant
            ver.valid(),
            len == data@.len(),
            173 * len + 120 < usize::MAX,
            i <= len,
            dp_state(ver, data@, i as int, prev_cost, min_path@, best),
            dp_ties(ver, data@, i as int, prev_cost, best),
            min_path@.len() == i,
            prev_cost[2] < usize::MAX,
            forall|k: int| 0 <= k < 3 && prev_cost[k] < usize::MAX ==> prev_cost[k] <= 120 + 173 * i,
            forall|r: int, j: int|
                0 <= r < i && 0 <= j < 3 ==> ((#[trigger] min_path@[r][j]) < 3 <==> MODES[j].holds(
                    data@[r],
                )),
            forall|r: int, j: int|
                1 <= r < i && 0 <= j < 3 && (#[trigger] min_path@[r][j]) < 3 ==> MODES[min_path@[r][j] as int].holds(
                    data@[r - 1],
                ),
        decreases len - i,
    {
        let b = data[i];
        let bound = 120 + 173 * i;
        let (c0, r0) = cell(ver, prev_cost, 0, b, bound);
        let (c1, r1) = cell(ver, prev_cost, 1, b, bound);
        let (c2, r2) = cell(ver, prev_cost, 2, b, bound);
        let row: [usize; 3] = [r0, r1, r2];
        let cur: [usize; 3] = [c0, c1, c2];
        proof {
            assert(dp_cells(ver, data@, i as int, prev_cost, cur, row)) by {
                reveal(dp_cells);
            }
            assert(dp_first(ver, data@, i as int, prev_cost, cur, row)) by {
                assert forall|j: int, k: int|
                    0 <= j < 3 && MODES[j].holds(data@[i as int]) && 0 <= k < row[j] && prev_cost[k]
                        < usize::MAX implies cur[j] < #[trigger] step_cost(
                    ver,
                    prev_cost[k] as nat,
                    MODES[k],
                    MODES[j],
                ) by {
                    if j == 0 {
                    } else if j == 1 {
                    } else {
                    }
                }
            }
            dp_step(ver, data@, i as int, prev_cost, cur, row, min_path@, best);
            dp_step_ties(ver, data@, i as int, prev_cost, cur, row, min_path@, best);
            best = extend_best(i as int, best, row);
        }
        let ghost old_mp = min_path@;
        min_path.push(row);
        proof {
            assert forall|r: int, j: int| 0 <= r < i + 1 && 0 <= j < 3 implies ((
            #[trigger] min_path@[r][j]) < 3 <==> MODES[j].holds(data@[r])) by {
                if r < i {
                    assert(min_path@[r] == old_mp[r]);
                }
            }
            assert forall|r: int, j: int|
                1 <= r < i + 1 && 0 <= j < 3 && (#[trigger] min_path@[r][j]) < 3 implies MODES[min_path@[r][j] as int].holds(
                data@[r - 1]) by {
                if r < i {
                    assert(min_path@[r] == old_mp[r]);
                } else {
                    assert(min_path@[r] == row);
                }
            }
        }
        prev_cost = cur;
        i += 1;
    }
    proof {
        reveal(dp_state);
        assert(MODES[0] == Mode::Numeric && MODES[1] == Mode::Alphanumeric && MODES[2] == Mode::Byte);
    }
    let ghost mp = min_path@;
    let char_modes = trace_optimal_modes(min_path, prev_cost);
    let ghost start = argmin3(prev_cost);
    proof {
        assert(prev_cost[start] <= prev_cost[2]);
        assert(char_modes@ =~= best[start]);
        assert forall|p: Seq<Mode>| valid_path(p, data@) implies path_cost(ver, char_modes@)
            <= path_cost(ver, p) by {
            let j = mode_index(p.last());
            assert(p[len - 1].is_data());
            assert(MODES[j] == p.last());
        }
        assert(prefix_optimal(ver, data@, char_modes@));
        assert forall|q: Seq<Mode>|
            valid_path(q, data@) && prefix_optimal(ver, data@, q) && path_cost(ver, q) == path_cost(
                ver,
                char_modes@,
            ) implies !#[trigger] rev_lex_less(q, char_modes@) by {
            let j2 = mode_index(q.last());
            assert(q[len - 1].is_data());
            assert(MODES[j2] == q.last());
            assert(prev_cost[j2] <= path_cost(ver, q));
            if j2 < start {
                assert(prev_cost[j2] > prev_cost[start]);
            } else if j2 > start {
                if rev_lex_less(q, char_modes@) {
                    let t = choose|t: int|
                        0 <= t < q.len() && t < char_modes@.len() && mode_index(#[trigger] q[t])
                            < mode_index(char_modes@[t]) && forall|u: int|
                            t < u < q.len() ==> #[trigger] q[u] == char_modes@[u];
                    if t < len - 1 {
                        assert(q[len - 1] == char_modes@[len - 1]);
                    }
                }
            }
        }
    }
    build_segments(ver, char_modes, data)
}

/// A data mode's count field counts at least one character.
proof fn lemma_max_count_pos(ver: Version, m: Mode)
    requires
        ver.valid(),
        m.is_data(),
    ensures
        max_count(ver, m) >= 1,
{
    let cc = ver.spec_char_cnt_bits(m);
    assert(cc >= 1);
    lemma2_to64();
    if cc > 1 {
        lemma_pow2_strictly_increases(1, cc);
    }
}

/// Joining two lists of segments joins their characters.
pub proof fn lemma_flatten_concat(a: Seq<(Mode, Seq<u8>)>, b: Seq<(Mode, Seq<u8>)>)
    ensures
        flatten(a + b) == flatten(a) + flatten(b),
    decreases b.len(),
{
    if b.len() == 0 {
        assert(a + b =~= a);
        assert(flatten(a) + flatten(b) =~= flatten(a));
    } else {
        lemma_flatten_concat(a, b.drop_last());
        assert((a + b).drop_last() =~= a + b.drop_last());
        assert((a + b).last() == b.last());
        assert(flatten(a) + flatten(b) =~= flatten(a) + flatten(b.drop_last()) + b.last().1);
    }
}

/// Writable segments joined are writable.
proof fn lemma_valid_segments_concat(ver: Version, a: Seq<(Mode, Seq<u8>)>, b: Seq<(Mode, Seq<u8>)>)
    requires
        valid_segments(ver, a),
        valid_segments(ver, b),
    ensures
        valid_segments(ver, a + b),
{
    let ab = a + b;
    assert forall|i: int| 0 <= i < ab.len() implies {
        let (m, s) = #[trigger] ab[i];
        &&& m.is_data()
        &&& s.len() > 0
        &&& m.holds_all(s)
        &&& s.len() <= max_count(ver, m)
    } by {
        if i < a.len() {
            assert(ab[i] == a[i]);
        } else {
            assert(ab[i] == b[i - a.len()]);
        }
    }
}

/// The pieces of a run are writable segments that join to the run.
pub proof fn lemma_split_run(ver: Version, m: Mode, s: Seq<u8>)
    requires
        ver.valid(),
        m.is_data(),
        s.len() > 0,
        m.holds_all(s),
    ensures
        valid_segments(ver, split_run(ver, m, s)),
        flatten(split_run(ver, m, s)) == s,
    decreases s.len(),
{
    lemma_max_count_pos(ver, m);
    let max = max_count(ver, m);
    if s.len() <= max {
        let r = seq![(m, s)];
        assert(split_run(ver, m, s) == r);
        assert(r.drop_last() =~= Seq::<(Mode, Seq<u8>)>::empty());
        assert(r.last() == (m, s));
        assert(flatten(r.drop_last()) == Seq::<u8>::empty());
        assert(Seq::<u8>::empty() + s =~= s);
        assert(flatten(r) == flatten(r.drop_last()) + r.last().1);
        assert(valid_segments(ver, r)) by {
            assert forall|i: int| 0 <= i < r.len() implies {
                let (m2, s2) = #[trigger] r[i];
                &&& m2.is_data()
                &&& s2.len() > 0
                &&& m2.holds_all(s2)
                &&& s2.len() <= max_count(ver, m2)
            } by {
                assert(r[i] == (m, s));
            }
        }
    } else {
        let h = s.take(max as int);
        let t = s.skip(max as int);
        assert(m.holds_all(h)) by {
            assert forall|i: int| 0 <= i < h.len() implies m.holds(#[trigger] h[i]) by {
                assert(h[i] == s[i]);
            }
        }
        assert(m.holds_all(t)) by {
            assert forall|i: int| 0 <= i < t.len() implies m.holds(#[trigger] t[i]) by {
                assert(t[i] == s[i + max]);
            }
        }
        lemma_split_run(ver, m, t);
        lemma_split_run(ver, m, h);
        let first = seq![(m, h)];
        assert(split_run(ver, m, h) == first);
        lemma_flatten_concat(first, split_run(ver, m, t));
        lemma_valid_segments_concat(ver, first, split_run(ver, m, t));
        assert(split_run(ver, m, s) == first + split_run(ver, m, t));
        assert(h + t =~= s);
    }
}

/// The pieces of all segments are writable segments that join to the same characters.
pub proof fn lemma_split_runs(ver: Version, segs: Seq<(Mode, Seq<u8>)>)
    requires
        ver.valid(),
        mode_runs(segs),
    ensures
        valid_segments(ver, split_runs(ver, segs)),
        flatten(split_runs(ver, segs)) == flatten(segs),
    decreases segs.len(),
{
    if segs.len() == 0 {
        assert(valid_segments(ver, split_runs(ver, segs)));
    } else {
        let t = segs.drop_last();
        assert(mode_runs(t)) by {
            assert forall|i: int| 0 <= i < t.len() implies {
                let (m, s) = #[trigger] t[i];
                &&& m.is_data()
                &&& s.len() > 0
                &&& m.holds_all(s)
            } by {
                assert(t[i] == segs[i]);
            }
        }
        lemma_split_runs(ver, t);
        let (m, s) = segs.last();
        assert(segs[segs.len() - 1] == (m, s));
        lemma_split_run(ver, m, s);
        lemma_flatten_concat(split_runs(ver, t), split_run(ver, m, s));
        lemma_valid_segments_concat(ver, split_runs(ver, t), split_run(ver, m, s));
    }
}

/// Versions with the same header widths cut runs alike.
proof fn lemma_same_fields_split_run(v1: Version, v2: Version, m: Mode, s: Seq<u8>)
    requires
        same_fields(v1, v2),
    ensures
        split_run(v1, m, s) == split_run(v2, m, s),
    decreases s.len(),
{
    assert(v1.spec_char_cnt_bits(m) == v2.spec_char_cnt_bits(m));
    let max = max_count(v1, m);
    if !(s.len() <= max || max == 0) {
        lemma_same_fields_split_run(v1, v2, m, s.skip(max as int));
    }
}

proof fn lemma_same_fields_split_runs(v1: Version, v2: Version, segs: Seq<(Mode, Seq<u8>)>)
    requires
        same_fields(v1, v2),
    ensures
        split_runs(v1, segs) == split_runs(v2, segs),
    decreases segs.len(),
{
    if segs.len() > 0 {
        lemma_same_fields_split_runs(v1, v2, segs.drop_last());
        lemma_same_fields_split_run(v1, v2, segs.last().0, segs.last().1);
    }
}

/// Cuts each segment longer than its character count field can count into pieces that fit,
/// as `split_runs` describes, so that every header written states its true count.
pub fn split_long_runs<'a>(ver: Version, segs: &Vec<Segment<'a>>) -> (r: Vec<Segment<'a>>)
    requires
        ver.valid(),
        mode_runs(segs_view(segs@)),
        headers_for(ver, segs@),
    ensures
        segs_view(r@) == split_runs(ver, segs_view(segs@)),
        headers_for(ver, r@),
{
    let mode_bits = ver.mode_bits();
    let mut out: Vec<Segment<'a>> = Vec::new();
    let ghost v = segs_view(segs@);
    let mut k: usize = 0;
    proof {
        assert(v.take(0) =~= Seq::<(Mode, Seq<u8>)>::empty());
        assert(segs_view(out@) =~= Seq::<(Mode, Seq<u8>)>::empty());
    }
    while k < segs.len()
        invariant
            ver.valid(),
            mode_bits == ver.spec_mode_bits(),
            v == segs_view(segs@),
            mode_runs(v),
            k <= segs@.len(),
            segs_view(out@) == split_runs(ver, v.take(k as int)),
            headers_for(ver, out@),
        decreases segs@.len() - k,
    {
        let seg = segs[k];
        assert(v[k as int] == seg_view(seg));
        let m = seg.mode;
        let data = seg.data;
        let n = data.len();
        let max = max_char_count(ver, m);
        let len_bits = ver.char_cnt_bits(m);
        let ghost base = segs_view(out@);
        let ghost mut done: Seq<(Mode, Seq<u8>)> = Seq::empty();
        let mut start: usize = 0;
        proof {
            assert(data@.skip(0) =~= data@);
            assert(split_run(ver, m, data@) =~= done + split_run(ver, m, data@.skip(0)));
            assert(base + done =~= base);
        }
        while n - start > max
            invariant
                ver.valid(),
                mode_bits == ver.spec_mode_bits(),
                len_bits == ver.spec_char_cnt_bits(m),
                max == max_count(ver, m),
                max >= 1,
                n == data@.len(),
                start <= n,
                segs_view(out@) == base + done,
                split_run(ver, m, data@) == done + split_run(ver, m, data@.skip(start as int)),
                headers_for(ver, out@),
            decreases n - start,
        {
            let piece = Segment::new(m, mode_bits, len_bits, &data[start..start + max]);
            proof {
                let rest = data@.skip(start as int);
                assert(rest.take(max as int) =~= piece.data@);
                assert(rest.skip(max as int) =~= data@.skip(start + max));
                assert(split_run(ver, m, rest) == seq![(m, rest.take(max as int))] + split_run(
                    ver,
                    m,
                    rest.skip(max as int),
                ));
            }
            let ghost old_out = out@;
            out.push(piece);
            proof {
                assert(segs_view(out@) =~= segs_view(old_out).push(seg_view(piece)));
                done = done.push((m, piece.data@));
                assert(split_run(ver, m, data@) =~= done + split_run(
                    ver,
                    m,
                    data@.skip(start + max),
                ));
                assert(segs_view(out@) =~= base + done);
                assert forall|i: int| 0 <= i < out@.len() implies {
                    &&& (#[trigger] out@[i]).mode_bits == ver.spec_mode_bits()
                    &&& out@[i].len_bits == ver.spec_char_cnt_bits(out@[i].mode)
                } by {
                    if i < old_out.len() {
                        assert(out@[i] == old_out[i]);
                    }
                }
            }
            start = start + max;
        }
        let last = Segment::new(m, mode_bits, len_bits, &data[start..n]);
        proof {
            let rest = data@.skip(start as int);
            assert(rest =~= last.data@);
            assert(split_run(ver, m, rest) == seq![(m, rest)]);
        }
        let ghost old_out = out@;
        out.push(last);
        proof {
            assert(segs_view(out@) =~= segs_view(old_out).push(seg_view(last)));
            assert(segs_view(out@) =~= base + split_run(ver, m, data@));
            assert(v.take(k + 1).drop_last() =~= v.take(k as int));
            assert(v.take(k + 1).last() == v[k as int]);
            assert forall|i: int| 0 <= i < out@.len() implies {
                &&& (#[trigger] out@[i]).mode_bits == ver.spec_mode_bits()
                &&& out@[i].len_bits == ver.spec_char_cnt_bits(out@[i].mode)
            } by {
                if i < old_out.len() {
                    assert(out@[i] == old_out[i]);
                }
            }
        }
        k += 1;
    }
    proof {
        assert(v.take(segs@.len() as int) =~= v);
    }
    out
}

/// Every prefix of `p` costs no more than any other way of writing those characters that
/// ends in the same mode.
pub open spec fn prefix_optimal(ver: Version, data: Seq<u8>, p: Seq<Mode>) -> bool {
    forall|t: int, q: Seq<Mode>|
        0 <= t < p.len() && q.len() == t + 1 && valid_prefix(q, data) && q.last() == p[t]
            ==> #[trigger] path_cost(ver, p.take(t + 1)) <= #[trigger] path_cost(ver, q)
}

/// `p` comes before `q` read from the end: at the last place where they differ, `p`'s mode
/// comes first in the order numeric, alphanumeric, byte.
pub open spec fn rev_lex_less(p: Seq<Mode>, q: Seq<Mode>) -> bool {
    exists|t: int|
        0 <= t < p.len() && t < q.len() && mode_index(#[trigger] p[t]) < mode_index(q[t])
            && forall|u: int| t < u < p.len() ==> #[trigger] p[u] == q[u]
}

/// The table's paths break ties as the back pointers do: each is, among the prefix-optimal
/// paths of the same length, end mode and cost, the first read from the end.
pub open spec fn dp_ties(ver: Version, data: Seq<u8>, i: int, prev: [usize; 3], best: Seq<Seq<Mode>>) -> bool {
    i > 0 ==> forall|j: int|
        0 <= j < 3 && prev[j] < usize::MAX ==> {
            &&& prefix_optimal(ver, data, #[trigger] best[j])
            &&& forall|q: Seq<Mode>|
                q.len() == i && valid_prefix(q, data) && q.last() == MODES[j] && prefix_optimal(
                    ver,
                    data,
                    q,
                ) && path_cost(ver, q) == prev[j] ==> !#[trigger] rev_lex_less(q, best[j])
        }
}

/// Each cell's back pointer is the first of the cheapest modes to come from.
pub open spec fn dp_first(ver: Version, data: Seq<u8>, i: int, prev: [usize; 3], cur: [usize; 3], row: [usize; 3]) -> bool {
    forall|j: int, k: int|
        0 <= j < 3 && MODES[j].holds(data[i]) && 0 <= k < row[j] && prev[k] < usize::MAX
            ==> cur[j] < #[trigger] step_cost(ver, prev[k] as nat, MODES[k], MODES[j])
}

/// What the table holds for mode `j` after `i` characters: whether the mode is possible,
/// and then its path.
proof fn lemma_dp_best(ver: Version, data: Seq<u8>, i: int, prev: [usize; 3], mp: Seq<[usize; 3]>, best: Seq<Seq<Mode>>, j: int)
    requires
        dp_state(ver, data, i, prev, mp, best),
        0 < i,
        0 <= j < 3,
    ensures
        prev[j] < usize::MAX <==> MODES[j].holds(data[i - 1]),
        prev[j] < usize::MAX ==> {
            &&& best[j].len() == i
            &&& valid_prefix(best[j], data)
            &&& best[j].last() == MODES[j]
            &&& path_cost(ver, best[j]) == prev[j]
        },
{
    reveal(dp_state);
}

/// The table's costs are lower bounds on every path.
proof fn lemma_dp_lower(ver: Version, data: Seq<u8>, i: int, prev: [usize; 3], mp: Seq<[usize; 3]>, best: Seq<Seq<Mode>>, p: Seq<Mode>)
    requires
        dp_state(ver, data, i, prev, mp, best),
        0 < i,
        p.len() == i,
        valid_prefix(p, data),
    ensures
        prev[mode_index(p.last())] <= path_cost(ver, p),
{
    reveal(dp_state);
}

/// A cell of mode `j` that holds its character comes from its back pointer.
proof fn lemma_dp_cell(ver: Version, data: Seq<u8>, i: int, prev: [usize; 3], cur: [usize; 3], row: [usize; 3], j: int)
    requires
        dp_cells(ver, data, i, prev, cur, row),
        0 <= j < 3,
    ensures
        MODES[j].holds(data[i]) ==> {
            &&& row[j] < 3
            &&& prev[row[j] as int] < usize::MAX
            &&& cur[j] == step_cost(ver, prev[row[j] as int] as nat, MODES[row[j] as int], MODES[j])
        },
        !MODES[j].holds(data[i]) ==> cur[j] == usize::MAX,
{
    reveal(dp_cells);
}

/// The path a cell extends is cheapest at every prefix.
#[verifier::spinoff_prover]
proof fn dp_step_ties_prefix(
    ver: Version,
    data: Seq<u8>,
    i: int,
    prev: [usize; 3],
    cur: [usize; 3],
    row: [usize; 3],
    old_mp: Seq<[usize; 3]>,
    best: Seq<Seq<Mode>>,
    j: int,
)
    requires
        ver.valid(),
        0 <= i < data.len(),
        0 <= j < 3,
        cur[j] < usize::MAX,
        dp_cells(ver, data, i, prev, cur, row),
        dp_ties(ver, data, i, prev, best),
        dp_state(ver, data, i + 1, cur, old_mp.push(row), extend_best(i, best, row)),
    ensures
        prefix_optimal(ver, data, extend_best(i, best, row)[j]),
{
    let nb = extend_best(i, best, row);
    let b = nb[j];
    assert(MODES[0] == Mode::Numeric && MODES[1] == Mode::Alphanumeric && MODES[2] == Mode::Byte);
    assert(mode_index(MODES[j]) == j);
    lemma_dp_best(ver, data, i + 1, cur, old_mp.push(row), nb, j);
    lemma_dp_cell(ver, data, i, prev, cur, row, j);
    assert forall|t: int, q: Seq<Mode>|
        0 <= t < b.len() && q.len() == t + 1 && valid_prefix(q, data) && q.last() == b[t]
            implies #[trigger] path_cost(ver, b.take(t + 1)) <= #[trigger] path_cost(ver, q) by {
        if t == i {
            assert(b.take(t + 1) =~= b);
            lemma_dp_lower(ver, data, i + 1, cur, old_mp.push(row), nb, q);
        } else {
            let k = row[j] as int;
            let ob = best[k];
            assert(b == ob.push(MODES[j]));
            assert(b.take(t + 1) =~= ob.take(t + 1));
            assert(b[t] == ob[t]);
            assert(prefix_optimal(ver, data, ob));
        }
    }
}

/// A prefix-optimal path of the same end mode and cost as a cell's path does not come before
/// it read from the end.
#[verifier::spinoff_prover]
#[verifier::rlimit(60)]
proof fn dp_step_ties_order(
    ver: Version,
    data: Seq<u8>,
    i: int,
    prev: [usize; 3],
    cur: [usize; 3],
    row: [usize; 3],
    old_mp: Seq<[usize; 3]>,
    best: Seq<Seq<Mode>>,
    j: int,
    q: Seq<Mode>,
)
    requires
        ver.valid(),
        0 < i < data.len(),
        0 <= j < 3,
        cur[j] < usize::MAX,
        dp_state(ver, data, i, prev, old_mp, best),
        dp_cells(ver, data, i, prev, cur, row),
        dp_first(ver, data, i, prev, cur, row),
        dp_ties(ver, data, i, prev, best),
        q.len() == i + 1,
        valid_prefix(q, data),
        q.last() == MODES[j],
        prefix_optimal(ver, data, q),
        path_cost(ver, q) == cur[j],
    ensures
        !rev_lex_less(q, extend_best(i, best, row)[j]),
{
    assert(MODES[0] == Mode::Numeric && MODES[1] == Mode::Alphanumeric && MODES[2] == Mode::Byte);
    let b = extend_best(i, best, row)[j];
    lemma_dp_cell(ver, data, i, prev, cur, row, j);
    let k = row[j] as int;
    let ob = best[k];
    assert(b == ob.push(MODES[j]));
    let qd = q.drop_last();
    let m = q[i - 1];
    assert(m.is_data() && m.holds(data[i - 1]));
    let k2 = mode_index(m);
    assert(MODES[k2] == m);
    lemma_dp_best(ver, data, i, prev, old_mp, best, k2);
    lemma_dp_best(ver, data, i, prev, old_mp, best, k);
    let o2 = best[k2];
    assert(valid_prefix(qd, data)) by {
        assert forall|u: int| 0 <= u < qd.len() implies (#[trigger] qd[u]).is_data() && qd[u].holds(
            data[u],
        ) by {
            assert(qd[u] == q[u]);
        }
    }
    assert(q.take(i) =~= qd);
    assert(path_cost(ver, q.take((i - 1) + 1)) <= path_cost(ver, o2));
    lemma_dp_lower(ver, data, i, prev, old_mp, best, qd);
    assert(path_cost(ver, qd) == prev[k2]);
    assert(path_cost(ver, q) == step_cost(ver, path_cost(ver, qd), m, MODES[j]));
    assert(k <= k2) by {
        if k2 < k {
            assert(cur[j] < step_cost(ver, prev[k2] as nat, MODES[k2], MODES[j]));
        }
    }
    if rev_lex_less(q, b) {
        let t = choose|t: int|
            0 <= t < q.len() && t < b.len() && mode_index(#[trigger] q[t]) < mode_index(b[t])
                && forall|u: int| t < u < q.len() ==> #[trigger] q[u] == b[u];
        assert(t != i);
        assert(b[i - 1] == MODES[k]);
        if k < k2 {
            if t < i - 1 {
                assert(q[i - 1] == b[i - 1]);
            }
            assert(false);
        } else {
            assert(prefix_optimal(ver, data, qd)) by {
                assert forall|t2: int, q2: Seq<Mode>|
                    0 <= t2 < qd.len() && q2.len() == t2 + 1 && valid_prefix(q2, data) && q2.last()
                        == qd[t2] implies #[trigger] path_cost(ver, qd.take(t2 + 1))
                    <= #[trigger] path_cost(ver, q2) by {
                    assert(qd.take(t2 + 1) =~= q.take(t2 + 1));
                    assert(qd[t2] == q[t2]);
                }
            }
            assert(qd.last() == MODES[k]);
            assert(!rev_lex_less(qd, ob));
            assert(qd[t] == q[t] && ob[t] == b[t]);
            assert forall|u: int| t < u < qd.len() implies #[trigger] qd[u] == ob[u] by {
                assert(q[u] == b[u]);
            }
            assert(rev_lex_less(qd, ob));
        }
    }
}

/// One round of the dynamic program keeps its tie-breaking.
proof fn dp_step_ties(
    ver: Version,
    data: Seq<u8>,
    i: int,
    prev: [usize; 3],
    cur: [usize; 3],
    row: [usize; 3],
    old_mp: Seq<[usize; 3]>,
    best: Seq<Seq<Mode>>,
)
    requires
        ver.valid(),
        0 <= i < data.len(),
        dp_state(ver, data, i, prev, old_mp, best),
        dp_cells(ver, data, i, prev, cur, row),
        dp_first(ver, data, i, prev, cur, row),
        dp_ties(ver, data, i, prev, best),
        dp_state(ver, data, i + 1, cur, old_mp.push(row), extend_best(i, best, row)),
    ensures
        dp_ties(ver, data, i + 1, cur, extend_best(i, best, row)),
{
    let nb = extend_best(i, best, row);
    assert forall|j: int| 0 <= j < 3 && cur[j] < usize::MAX implies {
        &&& prefix_optimal(ver, data, #[trigger] nb[j])
        &&& forall|q: Seq<Mode>|
            q.len() == i + 1 && valid_prefix(q, data) && q.last() == MODES[j] && prefix_optimal(
                ver,
                data,
                q,
            ) && path_cost(ver, q) == cur[j] ==> !#[trigger] rev_lex_less(q, nb[j])
    } by {
        dp_step_ties_prefix(ver, data, i, prev, cur, row, old_mp, best, j);
        assert forall|q: Seq<Mode>|
            q.len() == i + 1 && valid_prefix(q, data) && q.last() == MODES[j] && prefix_optimal(
                ver,
                data,
                q,
            ) && path_cost(ver, q) == cur[j] implies !#[trigger] rev_lex_less(q, nb[j]) by {
            if i == 0 {
                reveal(dp_cells);
                assert(MODES[0] == Mode::Numeric && MODES[1] == Mode::Alphanumeric && MODES[2]
                    == Mode::Byte);
                assert(nb[j] =~= seq![MODES[j]]);
                assert(q =~= nb[j]);
            } else {
                dp_step_ties_order(ver, data, i, prev, cur, row, old_mp, best, j, q);
            }
        }
    }
}

/// A segmentation of `data` the encoder may choose for `ver`: maximal runs of characters
/// their mode holds, joining to `data`, in modes of least `path_cost`.
pub open spec fn optimal_segmentation(ver: Version, data: Seq<u8>, segs: Seq<(Mode, Seq<u8>)>) -> bool {
    &&& mode_runs(segs)
    &&& flatten(segs) == data
    &&& maximal_runs(segs)
    &&& valid_path(char_modes_of(segs), data)
    &&& forall|p: Seq<Mode>|
        valid_path(p, data) ==> path_cost(ver, char_modes_of(segs)) <= path_cost(ver, p)
}

/// What the table holds after `i` characters: for each mode that holds the last of them,
/// the cheapest cost of reading them ending in that mode and a path reaching it, traced by
/// the back pointers of `mp`.
#[verifier::opaque]
pub open spec fn dp_state(
    ver: Version,
    data: Seq<u8>,
    i: int,
    prev: [usize; 3],
    mp: Seq<[usize; 3]>,
    best: Seq<Seq<Mode>>,
) -> bool {
    &&& mp.len() == i
    &&& best.len() == 3
    &&& prev[2] < usize::MAX
    &&& i == 0 ==> forall|k: int| 0 <= k < 3 ==> prev[k] == header_weight(ver, #[trigger] MODES[k])
    &&& i > 0 ==> forall|j: int|
        0 <= j < 3 ==> (prev[j] < usize::MAX <==> (#[trigger] MODES[j]).holds(data[i - 1]))
    &&& i > 0 ==> forall|j: int|
        0 <= j < 3 && prev[j] < usize::MAX ==> {
            &&& (#[trigger] best[j]).len() == i
            &&& valid_prefix(best[j], data)
            &&& best[j].last() == MODES[j]
            &&& path_cost(ver, best[j]) == prev[j]
            &&& forall|t: int|
                0 <= t < i ==> #[trigger] best[j][t] == MODES[back_index(mp, j, i - 1, t)]
        }
    &&& i > 0 ==> forall|p: Seq<Mode>|
        p.len() == i && valid_prefix(p, data) ==> prev[mode_index(p.last())]
            <= #[trigger] path_cost(ver, p)
}

/// The cells computed for character `i` from the costs `prev`.
#[verifier::opaque]
pub open spec fn dp_cells(
    ver: Version,
    data: Seq<u8>,
    i: int,
    prev: [usize; 3],
    cur: [usize; 3],
    row: [usize; 3],
) -> bool {
    &&& forall|j: int|
        #![trigger row[j]]
        #![trigger cur[j]]
        0 <= j < 3 && MODES[j].holds(data[i]) ==> {
            &&& row[j] < 3
            &&& prev[row[j] as int] < usize::MAX
            &&& cur[j] < usize::MAX
            &&& cur[j] == step_cost(ver, prev[row[j] as int] as nat, MODES[row[j] as int], MODES[j])
            &&& forall|k: int|
                0 <= k < 3 && prev[k] < usize::MAX ==> cur[j] <= #[trigger] step_cost(
                    ver,
                    prev[k] as nat,
                    MODES[k],
                    MODES[j],
                )
        }
    &&& forall|j: int|
        0 <= j < 3 && !MODES[j].holds(data[i]) ==> cur[j] == usize::MAX && row[j] == usize::MAX
}

/// The paths extended by one character, following the new back pointers.
pub open spec fn extend_best(i: int, best: Seq<Seq<Mode>>, row: [usize; 3]) -> Seq<Seq<Mode>> {
    Seq::new(
        3,
        |j: int|
            if i == 0 {
                seq![MODES[j]]
            } else {
                best[row[j] as int].push(MODES[j])
            },
    )
}

/// One round of the dynamic program keeps its invariant.
proof fn dp_step(
    ver: Version,
    data: Seq<u8>,
    i: int,
    prev: [usize; 3],
    cur: [usize; 3],
    row: [usize; 3],
    old_mp: Seq<[usize; 3]>,
    best: Seq<Seq<Mode>>,
)
    requires
        ver.valid(),
        0 <= i < data.len(),
        dp_state(ver, data, i, prev, old_mp, best),
        dp_cells(ver, data, i, prev, cur, row),
    ensures
        dp_state(ver, data, i + 1, cur, old_mp.push(row), extend_best(i, best, row)),
        cur[2] < usize::MAX,
        forall|j: int| 0 <= j < 3 ==> (row[j] < 3 <==> (#[trigger] MODES[j]).holds(data[i])),
        forall|j: int|
            0 <= j < 3 && i >= 1 && #[trigger] row[j] < 3 ==> MODES[row[j] as int].holds(
                data[i - 1],
            ),
{
    reveal(dp_state);
    reveal(dp_cells);
    assert(MODES[0] == Mode::Numeric && MODES[1] == Mode::Alphanumeric && MODES[2] == Mode::Byte);
    assert forall|j: int| 0 <= j < 3 && i >= 1 && #[trigger] row[j] < 3 implies MODES[row[
        j
    ] as int].holds(data[i - 1]) by {
        let k = row[j] as int;
        if !MODES[j].holds(data[i]) {
            assert(row[j] == usize::MAX);
        }
        assert(prev[k] < usize::MAX);
        assert(MODES[k].holds(data[i - 1]));
    }
    dp_step_paths(ver, data, i, prev, cur, row, old_mp, best);
    dp_step_lower(ver, data, i, prev, cur, row, old_mp, best);
}

proof fn dp_step_paths(
    ver: Version,
    data: Seq<u8>,
    i: int,
    prev: [usize; 3],
    cur: [usize; 3],
    row: [usize; 3],
    old_mp: Seq<[usize; 3]>,
    best: Seq<Seq<Mode>>,
)
    requires
        ver.valid(),
        0 <= i < data.len(),
        dp_state(ver, data, i, prev, old_mp, best),
        dp_cells(ver, data, i, prev, cur, row),
    ensures
        ({
            let new_best = extend_best(i, best, row);
            let mp = old_mp.push(row);
            forall|j: int|
                0 <= j < 3 && cur[j] < usize::MAX ==> {
                    &&& (#[trigger] new_best[j]).len() == i + 1
                    &&& valid_prefix(new_best[j], data)
                    &&& new_best[j].last() == MODES[j]
                    &&& path_cost(ver, new_best[j]) == cur[j]
                    &&& forall|t: int|
                        0 <= t < i + 1 ==> #[trigger] new_best[j][t] == MODES[back_index(
                            mp,
                            j,
                            i,
                            t,
                        )]
                }
        }),
{
    reveal(dp_state);
    reveal(dp_cells);
    let new_best = extend_best(i, best, row);
    let mp = old_mp.push(row);
    assert(MODES[0] == Mode::Numeric && MODES[1] == Mode::Alphanumeric && MODES[2] == Mode::Byte);
    assert forall|j: int| 0 <= j < 3 && cur[j] < usize::MAX implies {
        &&& (#[trigger] new_best[j]).len() == i + 1
        &&& valid_prefix(new_best[j], data)
        &&& new_best[j].last() == MODES[j]
        &&& path_cost(ver, new_best[j]) == cur[j]
        &&& forall|t: int|
            0 <= t < i + 1 ==> #[trigger] new_best[j][t] == MODES[back_index(mp, j, i, t)]
    } by {
        let nb = new_best[j];
        let k = row[j] as int;
        assert(MODES[j].holds(data[i]));
        if i == 0 {
            assert(nb == seq![MODES[j]]);
            assert(cur[j] <= step_cost(ver, prev[j] as nat, MODES[j], MODES[j]));
            assert(path_cost(ver, nb) == header_weight(ver, MODES[j]) + char_weight(MODES[j]));
            assert(back_index(mp, j, 0, 0) == j);
        } else {
            let ob = best[k];
            assert(nb == ob.push(MODES[j]));
            assert(nb.drop_last() =~= ob);
            assert(path_cost(ver, nb) == step_cost(ver, path_cost(ver, ob), ob.last(), MODES[j]));
            assert forall|t: int| 0 <= t < i + 1 implies #[trigger] nb[t] == MODES[back_index(
                mp,
                j,
                i,
                t,
            )] by {
                if t < i {
                    lemma_back_index_step(mp, j, i, t);
                    assert(mp[i] == row);
                    assert forall|r: int| 0 <= r <= i - 1 implies old_mp[r] == mp[r] by {}
                    lemma_back_index_frame(old_mp, mp, k, i - 1, t);
                    assert(nb[t] == ob[t]);
                }
            }
            assert forall|t: int| 0 <= t < nb.len() implies (#[trigger] nb[t]).is_data()
                && nb[t].holds(data[t]) by {
                if t < i {
                    assert(nb[t] == ob[t]);
                }
            }
        }
    }
}

#[verifier::rlimit(40)]
#[verifier::spinoff_prover]
proof fn dp_step_lower(
    ver: Version,
    data: Seq<u8>,
    i: int,
    prev: [usize; 3],
    cur: [usize; 3],
    row: [usize; 3],
    old_mp: Seq<[usize; 3]>,
    best: Seq<Seq<Mode>>,
)
    requires
        ver.valid(),
        0 <= i < data.len(),
        dp_state(ver, data, i, prev, old_mp, best),
        dp_cells(ver, data, i, prev, cur, row),
    ensures
        forall|p: Seq<Mode>|
            p.len() == i + 1 && valid_prefix(p, data) ==> cur[mode_index(p.last())]
                <= #[trigger] path_cost(ver, p),
{
    reveal(dp_state);
    reveal(dp_cells);
    assert(MODES[0] == Mode::Numeric && MODES[1] == Mode::Alphanumeric && MODES[2] == Mode::Byte);
    assert forall|p: Seq<Mode>| p.len() == i + 1 && valid_prefix(p, data) implies cur[mode_index(
        p.last(),
    )] <= #[trigger] path_cost(ver, p) by {
        let j = mode_index(p.last());
        assert(p[i].holds(data[i]));
        assert(p[i].is_data());
        assert(MODES[j] == p.last());
        if i == 0 {
            assert(path_cost(ver, p) == header_weight(ver, MODES[j]) + char_weight(MODES[j]));
            assert(cur[j] <= step_cost(ver, prev[j] as nat, MODES[j], MODES[j]));
        } else {
            let q = p.drop_last();
            let k = mode_index(q.last());
            assert(q[i - 1] == p[i - 1]);
            assert(p[i - 1].is_data());
            assert(MODES[k] == q.last());
            assert(valid_prefix(q, data));
            assert(prev[k] <= path_cost(ver, q));
            assert(cur[j] <= step_cost(ver, prev[k] as nat, MODES[k], MODES[j]));
            assert(path_cost(ver, p) == step_cost(ver, path_cost(ver, q), q.last(), MODES[j]));
        }
    }
}

// Encoding
//------------------------------------------------------------------------------
/// The data bits of a symbol of `cap` bits: the segments, the terminator, zero bits to the
/// byte boundary, then pad codewords to the end.
pub open spec fn layout(ver: Version, segs: Seq<(Mode, Seq<u8>)>, cap: nat) -> Seq<bool> {
    let body = segments_bits(ver, segs);
    let t = if body.len() >= cap {
        0
    } else if cap - body.len() < 4 {
        (cap - body.len()) as nat
    } else {
        4nat
    };
    let p = padding_len(body.len() + t);
    body + zeros(t) + zeros(p) + pad_codeword_bits(((cap - body.len() - t - p) / 8) as nat)
}

/// A segment is written as `segment_bits` when its header fields are those of `ver`.
proof fn lemma_written_segment(ver: Version, seg: Segment)
    requires
        seg.mode_bits == ver.spec_mode_bits(),
        seg.len_bits == ver.spec_char_cnt_bits(seg.mode),
    ensures
        written_segment(seg) == segment_bits(ver, seg.mode, seg.data@),
{
}

/// The bit length of a segment is that of `segment_bits`.
pub proof fn lemma_segment_bits_len(ver: Version, m: Mode, s: Seq<u8>)
    requires
        m.is_data(),
    ensures
        segment_bits(ver, m, s).len() == ver.spec_mode_bits() + ver.spec_char_cnt_bits(m)
            + m.spec_encoded_len(s.len()),
{
    lemma_mode_data_bits_len(m, s);
}

/// Segments the encoder can write are mode runs.
proof fn lemma_valid_segments_runs(ver: Version, segs: Seq<(Mode, Seq<u8>)>)
    requires
        valid_segments(ver, segs),
    ensures
        mode_runs(segs),
{
    assert forall|i: int| 0 <= i < segs.len() implies {
        let (m, s) = #[trigger] segs[i];
        &&& m.is_data()
        &&& s.len() > 0
        &&& m.holds_all(s)
    } by {
        let (m, s) = segs[i];
        assert(s.len() <= max_count(ver, m));
    }
}

/// Bits the segments take, headers included.
fn total_bit_len(ver: Version, segs: &Vec<Segment>) -> (r: usize)
    requires
        ver.valid(),
        mode_runs(segs_view(segs@)),
        headers_for(ver, segs@),
        flatten(segs_view(segs@)).len() <= 8 * MAX_PAYLOAD_SIZE,
        segs@.len() <= 8 * MAX_PAYLOAD_SIZE,
    ensures
        r == segments_bits(ver, segs_view(segs@)).len(),
{
    let n = segs.len();
    let mut sz: usize = 0;
    let mut k: usize = 0;
    while k < n
        invariant
            ver.valid(),
            n == segs@.len(),
            k <= n,
            mode_runs(segs_view(segs@)),
            headers_for(ver, segs@),
            flatten(segs_view(segs@)).len() <= 8 * MAX_PAYLOAD_SIZE,
            n <= 8 * MAX_PAYLOAD_SIZE,
            sz == segments_bits(ver, segs_view(segs@.take(k as int))).len(),
            sz <= 20 * k + 8 * flatten(segs_view(segs@.take(k as int))).len(),
            flatten(segs_view(segs@.take(k as int))).len() <= flatten(segs_view(segs@)).len(),
        decreases n - k,
    {
        let seg = segs[k];
        proof {
            let v = segs_view(segs@.take(k as int));
            let w = segs_view(segs@.take(k + 1));
            assert(w.drop_last() =~= v);
            assert(w.last() == seg_view(seg));
            let (m, s) = segs_view(segs@)[k as int];
            assert(segs_view(segs@)[k as int] == seg_view(seg));
            lemma_segment_bits_len(ver, seg.mode, seg.data@);
            lemma_flatten_prefix(segs_view(segs@), k as int + 1);
            assert(segs_view(segs@).take(k + 1) =~= w);
            assert(segs@[k as int] == seg);
            lemma_encoded_len_bound(seg.mode, seg.data@.len());
            assert(flatten(w) == flatten(v) + seg.data@);
        }
        let bl = seg.bit_len();
        sz = sz + bl;
        k += 1;
    }
    proof {
        assert(segs@.take(n as int) =~= segs@);
    }
    sz
}

/// Writes the chosen segments, terminator and padding into a fresh stream of `bcap` bits,
/// or reports that they do not fit.
fn write_segments(ver: Version, segs: &Vec<Segment>, bcap: usize) -> (r: Option<BitStream>)
    requires
        ver.valid(),
        ver is Normal,
        valid_segments(ver, segs_view(segs@)),
        headers_for(ver, segs@),
        bcap <= 8 * MAX_PAYLOAD_SIZE,
        bcap % 8 == 0,
        flatten(segs_view(segs@)).len() <= 8 * MAX_PAYLOAD_SIZE,
        segs@.len() <= 8 * MAX_PAYLOAD_SIZE,
    ensures
        match r {
            Some(bs) => {
                &&& bs.wf()
                &&& bs.tail_clear()
                &&& bs.spec_cursor() == 0
                &&& bs.spec_capacity() == bcap
                &&& bs.spec_len() == bcap
                &&& segments_bits(ver, segs_view(segs@)).len() <= bcap
                &&& bs.bits() == layout(ver, segs_view(segs@), bcap as nat)
            },
            None => segments_bits(ver, segs_view(segs@)).len() > bcap,
        },
{
    let n = segs.len();
    proof {
        lemma_valid_segments_runs(ver, segs_view(segs@));
    }
    let sz = total_bit_len(ver, segs);
    if sz > bcap {
        return None;
    }
    let mut bs = BitStream::new(bcap);
    let mut k: usize = 0;
    proof {
        assert(segs_view(segs@.take(0)) =~= Seq::<(Mode, Seq<u8>)>::empty());
        assert(bs.bits() =~= segments_bits(ver, segs_view(segs@.take(0))));
    }
    while k < n
        invariant
            ver.valid(),
            ver is Normal,
            n == segs@.len(),
            k <= n,
            valid_segments(ver, segs_view(segs@)),
            headers_for(ver, segs@),
            sz == segments_bits(ver, segs_view(segs@)).len(),
            sz <= bcap <= 8 * MAX_PAYLOAD_SIZE,
            bs.wf(),
            bs.tail_clear(),
            bs.spec_cursor() == 0,
            bs.spec_capacity() == bcap,
            bs.bits() == segments_bits(ver, segs_view(segs@.take(k as int))),
            bs.spec_len() == bs.bits().len(),
        decreases n - k,
    {
        let seg = segs[k];
        proof {
            let v = segs_view(segs@.take(k as int));
            let w = segs_view(segs@.take(k + 1));
            assert(w.drop_last() =~= v);
            assert(segs@[k as int] == seg);
            assert(segs_view(segs@)[k as int] == seg_view(seg));
            assert(w.last() == seg_view(seg));
            lemma_written_segment(ver, seg);
            lemma_segment_bits_len(ver, seg.mode, seg.data@);
            lemma_segments_bits_prefix(ver, segs_view(segs@), k as int + 1);
            assert(segs_view(segs@).take(k + 1) =~= w);
            let (m, s) = segs_view(segs@)[k as int];
            lemma2_to64();
            assert(ver.spec_mode_bits() == 4);
            assert(seg.data@.len() < pow2(seg.len_bits as nat));
        }
        push_segment(seg, &mut bs);
        proof {
            let v = segs_view(segs@.take(k as int));
            let w = segs_view(segs@.take(k + 1));
            assert(w.drop_last() =~= v);
            assert(bs.bits() =~= segments_bits(ver, w));
        }
        k += 1;
    }
    proof {
        assert(segs@.take(n as int) =~= segs@);
    }
    let ghost body = bs.bits();
    let ghost before_term = bs;
    push_terminator(&mut bs);
    let ghost after_term = bs;
    pad_remaining_capacity(&mut bs);
    proof {
        assert(bs.bits() =~= layout(ver, segs_view(segs@), bcap as nat));
    }
    Some(bs)
}

/// Non-empty segments are no more than their characters.
proof fn lemma_segs_count(ver: Version, segs: Seq<(Mode, Seq<u8>)>)
    requires
        mode_runs(segs),
    ensures
        segs.len() <= flatten(segs).len(),
    decreases segs.len(),
{
    if segs.len() > 0 {
        let t = segs.drop_last();
        assert(mode_runs(t)) by {
            assert forall|i: int| 0 <= i < t.len() implies {
                let (m, s) = #[trigger] t[i];
                &&& m.is_data()
                &&& s.len() > 0
                &&& m.holds_all(s)
            } by {
                assert(t[i] == segs[i]);
            }
        }
        lemma_segs_count(ver, t);
        assert(segs[segs.len() - 1].1.len() > 0);
    }
}

/// Every character takes at least a bit.
proof fn lemma_segments_bits_ge_flatten(ver: Version, segs: Seq<(Mode, Seq<u8>)>)
    requires
        mode_runs(segs),
    ensures
        segments_bits(ver, segs).len() >= flatten(segs).len(),
    decreases segs.len(),
{
    if segs.len() > 0 {
        let t = segs.drop_last();
        assert(mode_runs(t)) by {
            assert forall|i: int| 0 <= i < t.len() implies {
                let (m, s) = #[trigger] t[i];
                &&& m.is_data()
                &&& s.len() > 0
                &&& m.holds_all(s)
            } by {
                assert(t[i] == segs[i]);
            }
        }
        lemma_segments_bits_ge_flatten(ver, t);
        let (m, s) = segs[segs.len() - 1];
        lemma_segment_bits_len(ver, m, s);
        lemma_encoded_len_bound(m, s.len());
    }
}

/// A prefix of the segments has no more characters than all of them.
proof fn lemma_flatten_prefix(segs: Seq<(Mode, Seq<u8>)>, k: int)
    requires
        0 <= k <= segs.len(),
    ensures
        flatten(segs.take(k)).len() <= flatten(segs).len(),
    decreases segs.len() - k,
{
    if k < segs.len() {
        lemma_flatten_prefix(segs, k + 1);
        assert(segs.take(k + 1).drop_last() =~= segs.take(k));
    } else {
        assert(segs.take(k) =~= segs);
    }
}

/// A prefix of the segments takes no more bits than all of them.
proof fn lemma_segments_bits_prefix(ver: Version, segs: Seq<(Mode, Seq<u8>)>, k: int)
    requires
        0 <= k <= segs.len(),
    ensures
        segments_bits(ver, segs.take(k)).len() <= segments_bits(ver, segs).len(),
    decreases segs.len() - k,
{
    if k < segs.len() {
        lemma_segments_bits_prefix(ver, segs, k + 1);
        assert(segs.take(k + 1).drop_last() =~= segs.take(k));
    } else {
        assert(segs.take(k) =~= segs);
    }
}

/// Each character takes at most eight bits.
proof fn lemma_encoded_len_bound(m: Mode, n: nat)
    requires
        m.is_data(),
    ensures
        m.spec_encoded_len(n) <= 8 * n,
        m.spec_encoded_len(n) >= n,
{
}

/// Two versions with the same header field widths.
pub open spec fn same_fields(v1: Version, v2: Version) -> bool {
    &&& v1.spec_mode_bits() == v2.spec_mode_bits()
    &&& forall|m: Mode| #[trigger] v1.spec_char_cnt_bits(m) == v2.spec_char_cnt_bits(m)
}

proof fn lemma_same_fields_path_cost(v1: Version, v2: Version, p: Seq<Mode>)
    requires
        same_fields(v1, v2),
    ensures
        path_cost(v1, p) == path_cost(v2, p),
    decreases p.len(),
{
    if p.len() > 1 {
        lemma_same_fields_path_cost(v1, v2, p.drop_last());
        assert(v1.spec_char_cnt_bits(p.last()) == v2.spec_char_cnt_bits(p.last()));
    } else if p.len() == 1 {
        assert(v1.spec_char_cnt_bits(p[0]) == v2.spec_char_cnt_bits(p[0]));
    }
}

proof fn lemma_same_fields_segments_bits(v1: Version, v2: Version, segs: Seq<(Mode, Seq<u8>)>)
    requires
        same_fields(v1, v2),
    ensures
        segments_bits(v1, segs) == segments_bits(v2, segs),
    decreases segs.len(),
{
    if segs.len() > 0 {
        lemma_same_fields_segments_bits(v1, v2, segs.drop_last());
        assert(v1.spec_char_cnt_bits(segs.last().0) == v2.spec_char_cnt_bits(segs.last().0));
    }
}

/// Versions with the same header widths write, cost and bound segments alike.
proof fn lemma_same_fields(v1: Version, v2: Version, data: Seq<u8>, segs: Seq<(Mode, Seq<u8>)>)
    requires
        same_fields(v1, v2),
    ensures
        optimal_segmentation(v1, data, segs) == optimal_segmentation(v2, data, segs),
        segments_bits(v1, segs) == segments_bits(v2, segs),
{
    lemma_same_fields_segments_bits(v1, v2, segs);
    assert forall|p: Seq<Mode>| path_cost(v1, p) == path_cost(v2, p) by {
        lemma_same_fields_path_cost(v1, v2, p);
    }
    assert forall|m: Mode| max_count(v1, m) == max_count(v2, m) by {
        assert(v1.spec_char_cnt_bits(m) == v2.spec_char_cnt_bits(m));
    }
    assert(valid_segments(v1, segs) == valid_segments(v2, segs));
}

/// Some optimal segmentation of `data` for `ver`, with its over-long runs cut, is too long
/// for the data capacity.
pub open spec fn overflows(ver: Version, ecl: ECLevel, hi_cap: bool, data: Seq<u8>) -> bool {
    exists|segs: Seq<(Mode, Seq<u8>)>|
        #[trigger] optimal_segmentation(ver, data, segs) && segments_bits(
            ver,
            split_runs(ver, segs),
        ).len() > ver.spec_data_bit_capacity(ecl, hi_cap)
}

/// The first of the normal versions of its band of character count widths: 1, 10 or 27.
pub open spec fn band_start(v: nat) -> nat {
    if v <= 9 {
        1
    } else if v <= 26 {
        10
    } else {
        27
    }
}

/// Finds the smallest normal version whose capacity holds `data`, with the segmentation
/// computed for its band of versions; the size compared is that of the segments as written,
/// over-long runs cut.
pub fn find_optimal_version_and_segments<'a>(data: &'a [u8], ecl: ECLevel, hi_cap: bool) -> (r:
    QRResult<(Version, Vec<Segment<'a>>)>)
    requires
        data@.len() > 0,
    ensures
        match r {
            Ok((ver, segs)) => {
                &&& ver is Normal
                &&& ver.valid()
                &&& optimal_segmentation(ver, data@, segs_view(segs@))
                &&& headers_for(ver, segs@)
                &&& segments_bits(ver, split_runs(ver, segs_view(segs@))).len()
                    <= ver.spec_data_bit_capacity(ecl, hi_cap)
                &&& forall|v: usize|
                    1 <= v < ver.num() ==> #[trigger] overflows(Version::Normal(v), ecl, hi_cap, data@)
            },
            Err(e) => {
                &&& e == QRError::DataTooLong
                &&& data@.len() > Version::Normal(40).spec_data_bit_capacity(ecl, hi_cap) || forall|
                    v: usize,
                | 1 <= v <= 40 ==> #[trigger] overflows(Version::Normal(v), ecl, hi_cap, data@)
            },
        },
{
    let max_cap = Version::Normal(40).data_bit_capacity(ecl, hi_cap);
    proof {
        lemma_normal_capacity(Version::Normal(40), ecl);
    }
    if data.len() > max_cap {
        return Err(QRError::DataTooLong);
    }
    let mut segs: Vec<Segment<'a>> = compute_optimal_segments(data, Version::Normal(1));
    let mut sz: usize = 0;
    let mut v: usize = 1;
    while v <= 40
        invariant
            1 <= v <= 41,
            data@.len() > 0,
            data@.len() <= max_cap <= 8 * MAX_PAYLOAD_SIZE,
            v <= 40 ==> (v != 1 && v != 10 && v != 27 ==> {
                &&& optimal_segmentation(
                    Version::Normal(band_start(v as nat) as usize),
                    data@,
                    segs_view(segs@),
                )
                &&& headers_for(Version::Normal(band_start(v as nat) as usize), segs@)
                &&& sz == segments_bits(
                    Version::Normal(band_start(v as nat) as usize),
                    split_runs(Version::Normal(band_start(v as nat) as usize), segs_view(segs@)),
                ).len()
            }),
            forall|u: usize| 1 <= u < v ==> #[trigger] overflows(Version::Normal(u), ecl, hi_cap, data@),
        decreases 41 - v,
    {
        let ver = Version::Normal(v);
        let bcap = ver.data_bit_capacity(ecl, hi_cap);
        if v == 1 || v == 10 || v == 27 {
            segs = compute_optimal_segments(data, ver);
            let pieces = split_long_runs(ver, &segs);
            proof {
                lemma_split_runs(ver, segs_view(segs@));
                lemma_valid_segments_runs(ver, segs_view(pieces@));
                lemma_segs_count(ver, segs_view(pieces@));
            }
            sz = total_bit_len(ver, &pieces);
        }
        let ghost start = Version::Normal(band_start(v as nat) as usize);
        proof {
            assert(same_fields(start, ver));
            lemma_same_fields(start, ver, data@, segs_view(segs@));
            lemma_same_fields(start, ver, data@, split_runs(start, segs_view(segs@)));
            lemma_same_fields_split_runs(start, ver, segs_view(segs@));
            assert(headers_for(ver, segs@)) by {
                assert forall|i: int| 0 <= i < segs@.len() implies {
                    &&& (#[trigger] segs@[i]).mode_bits == ver.spec_mode_bits()
                    &&& segs@[i].len_bits == ver.spec_char_cnt_bits(segs@[i].mode)
                } by {
                    assert(start.spec_char_cnt_bits(segs@[i].mode) == ver.spec_char_cnt_bits(
                        segs@[i].mode,
                    ));
                }
            }
        }
        if sz <= bcap {
            return Ok((ver, segs));
        }
        proof {
            assert(optimal_segmentation(ver, data@, segs_view(segs@)));
            assert(overflows(ver, ecl, hi_cap, data@));
        }
        v += 1;
    }
    Err(QRError::DataTooLong)
}

/// `bs` holds `data` encoded for `ver`: an optimal segmentation, its over-long runs cut, that
/// fits, laid out with terminator and padding to the full data capacity, ready to be read
/// from the start.
pub open spec fn encodes(ver: Version, ecl: ECLevel, hi_cap: bool, data: Seq<u8>, bs: BitStream) -> bool {
    let cap = ver.spec_data_bit_capacity(ecl, hi_cap);
    &&& bs.wf()
    &&& bs.tail_clear()
    &&& bs.spec_cursor() == 0
    &&& bs.spec_capacity() == cap
    &&& bs.spec_len() == cap
    &&& exists|segs: Seq<(Mode, Seq<u8>)>|
        #[trigger] optimal_segmentation(ver, data, segs) && segments_bits(
            ver,
            split_runs(ver, segs),
        ).len() <= cap && bs.bits() == layout(ver, split_runs(ver, segs), cap)
}

/// Encodes `data` into the smallest normal version that holds it.
pub fn encode(data: &[u8], ecl: ECLevel, hi_cap: bool) -> (r: QRResult<(BitStream, Version)>)
    requires
        data@.len() > 0,
    ensures
        match r {
            Ok((bs, ver)) => {
                &&& ver is Normal
                &&& ver.valid()
                &&& encodes(ver, ecl, hi_cap, data@, bs)
                &&& forall|v: usize|
                    1 <= v < ver.num() ==> #[trigger] overflows(Version::Normal(v), ecl, hi_cap, data@)
            },
            Err(e) => {
                &&& e == QRError::DataTooLong
                &&& data@.len() > Version::Normal(40).spec_data_bit_capacity(ecl, hi_cap) || forall|
                    v: usize,
                | 1 <= v <= 40 ==> #[trigger] overflows(Version::Normal(v), ecl, hi_cap, data@)
            },
        },
{
    let (ver, segs) = find_optimal_version_and_segments(data, ecl, hi_cap)?;
    let bcap = ver.data_bit_capacity(ecl, hi_cap);
    let pieces = split_long_runs(ver, &segs);
    proof {
        lemma_normal_capacity(ver, ecl);
        lemma_normal_capacity(Version::Normal(40), ecl);
        lemma_split_runs(ver, segs_view(segs@));
        lemma_valid_segments_runs(ver, segs_view(pieces@));
        lemma_segs_count(ver, segs_view(pieces@));
        lemma_segments_bits_ge_flatten(ver, segs_view(pieces@));
    }
    match write_segments(ver, &pieces, bcap) {
        Some(bs) => {
            proof {
                assert(optimal_segmentation(ver, data@, segs_view(segs@)));
            }
            Ok((bs, ver))
        },
        None => Err(QRError::DataTooLong),
    }
}

/// Encodes `data` into normal version `ver`, or reports that it does not fit.
pub fn encode_with_version(data: &[u8], ver: Version, ecl: ECLevel, hi_cap: bool) -> (r: QRResult<
    BitStream,
>)
    requires
        ver.valid(),
        ver is Normal,
        data@.len() > 0,
    ensures
        match r {
            Ok(bs) => encodes(ver, ecl, hi_cap, data@, bs),
            Err(e) => {
                &&& e == QRError::DataTooLong
                &&& data@.len() > ver.spec_data_bit_capacity(ecl, hi_cap) || overflows(
                    ver,
                    ecl,
                    hi_cap,
                    data@,
                )
            },
        },
{
    let bcap = ver.data_bit_capacity(ecl, hi_cap);
    proof {
        lemma_normal_capacity(ver, ecl);
    }
    if data.len() > bcap {
        return Err(QRError::DataTooLong);
    }
    let segs = compute_optimal_segments(data, ver);
    let pieces = split_long_runs(ver, &segs);
    proof {
        lemma_split_runs(ver, segs_view(segs@));
        lemma_valid_segments_runs(ver, segs_view(pieces@));
        lemma_segs_count(ver, segs_view(pieces@));
        assert(optimal_segmentation(ver, data@, segs_view(segs@)));
    }
    match write_segments(ver, &pieces, bcap) {
        Some(bs) => Ok(bs),
        None => Err(QRError::DataTooLong),
    }
}

} // verus!
