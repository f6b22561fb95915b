//! Decoding what the encoder wrote gives the data back.
use crate::bits::{bits_value, int_bits, lemma_bits_value_int_bits};
use crate::codec::decoder::{
    chunk_bits, chunk_chars, chunk_decode, data_bits_len, decode_bits, decode_bytes_from,
    decode_text, lemma_ascii_utf8, mode_of_indicator, segment_text, spec_header, spec_segment,
    stops_after,
};
use crate::codec::encoder::{
    lemma_split_runs, encodes, layout, lemma_chunk_fits, lemma_int_bits_zero, lemma_segment_bits_len,
    optimal_segmentation, padding_len,
};
use crate::codec::stream::{
    chunk_len, flatten, lemma_mode_data_bits_len, max_count, mode_data_bits, pad_codeword_bits,
    maximal_runs, mode_runs, segment_bits, segments_bits, split_run, split_runs, valid_segments, zeros,
};
use crate::codec::types::{lemma_alnum_roundtrip, lemma_numeric_roundtrip, Mode};
use crate::metadata::{lemma_normal_capacity, ECLevel, Version};
use vstd::arithmetic::power2::{lemma2_to64, lemma_pow2_pos};
use vstd::prelude::*;
use vstd::utf8::{
    decode_first_scalar, decode_utf8, is_char_boundary_iff_not_is_continuation_byte,
    is_continuation_byte, length_of_first_scalar, pop_first_scalar, valid_first_scalar,
    valid_utf8, valid_utf8_concat, valid_utf8_split,
};

verus! {

/// Reading `cnt` characters of a data mode takes the bits that writing them does.
pub proof fn lemma_data_bits_len_eq(m: Mode, n: nat)
    requires
        m.is_data(),
    ensures
        data_bits_len(m, n) == m.spec_encoded_len(n),
    decreases n,
{
    if n > 0 {
        let k = chunk_chars(m, n);
        lemma_data_bits_len_eq(m, (n - k) as nat);
        match m {
            Mode::Numeric => {
                assert((n * 10 + 2) / 3 == ((n - k) * 10 + 2) / 3 + (k * 10 + 2) / 3);
            },
            Mode::Alphanumeric => {
                assert((n * 11 + 1) / 2 == ((n - k) * 11 + 1) / 2 + (k * 11 + 1) / 2);
            },
            _ => {
            },
        }
    }
}

/// Decoding the data bits of a run gives the run back.
pub proof fn lemma_decode_mode_data_bits(m: Mode, s: Seq<u8>)
    requires
        m.is_data(),
        m.holds_all(s),
    ensures
        decode_bits(m, s.len(), mode_data_bits(m, s)) == s,
    decreases s.len(),
{
    let n = s.len();
    if n > 0 {
        let k = chunk_chars(m, n);
        assert(k == if n < chunk_len(m) {
            n
        } else {
            chunk_len(m)
        });
        let head = s.take(k as int);
        let tail = s.skip(k as int);
        let bl = chunk_bits(m, n);
        assert(bl == m.spec_encoded_len(k));
        assert(m.holds_all(head)) by {
            assert forall|i: int| 0 <= i < head.len() implies m.holds(#[trigger] head[i]) by {
                assert(head[i] == s[i]);
            }
        }
        assert(m.holds_all(tail)) by {
            assert forall|i: int| 0 <= i < tail.len() implies m.holds(#[trigger] tail[i]) by {
                assert(tail[i] == s[i + k]);
            }
        }
        lemma_chunk_fits(m, head);
        let cv = m.chunk_value(head);
        let b = mode_data_bits(m, s);
        assert(b == int_bits(cv, bl) + mode_data_bits(m, tail));
        assert(b.take(bl as int) =~= int_bits(cv, bl));
        assert(b.skip(bl as int) =~= mode_data_bits(m, tail));
        lemma_bits_value_int_bits(cv, bl);
        lemma_decode_mode_data_bits(m, tail);
        match m {
            Mode::Numeric => {
                lemma_numeric_roundtrip(head);
            },
            Mode::Alphanumeric => {
                lemma_alnum_roundtrip(head);
            },
            _ => {
                assert(seq![head[0]] =~= head);
            },
        }
        assert(chunk_decode(m, cv, bl) == head);
        assert(s =~= head + tail);
    } else {
        assert(s =~= Seq::<u8>::empty());
    }
}

/// A prefix of the segments writes a prefix of the bits.
pub proof fn lemma_segments_bits_take(ver: Version, segs: Seq<(Mode, Seq<u8>)>, j: int)
    requires
        0 <= j <= segs.len(),
    ensures
        segments_bits(ver, segs.take(j)).len() <= segments_bits(ver, segs).len(),
        segments_bits(ver, segs).take(segments_bits(ver, segs.take(j)).len() as int)
            == segments_bits(ver, segs.take(j)),
    decreases segs.len() - j,
{
    if j == segs.len() {
        assert(segs.take(j) =~= segs);
        assert(segments_bits(ver, segs).take(segments_bits(ver, segs).len() as int)
            =~= segments_bits(ver, segs));
    } else {
        lemma_segments_bits_take(ver, segs, j + 1);
        let a = segments_bits(ver, segs.take(j));
        let b = segments_bits(ver, segs.take(j + 1));
        assert(segs.take(j + 1).drop_last() =~= segs.take(j));
        assert(b == a + segment_bits(ver, segs[j].0, segs[j].1));
        assert(segments_bits(ver, segs).take(a.len() as int) =~= b.take(a.len() as int));
        assert(b.take(a.len() as int) =~= a);
    }
}

/// Joining segments from the front.
pub proof fn lemma_flatten_front(x: (Mode, Seq<u8>), rest: Seq<(Mode, Seq<u8>)>)
    ensures
        flatten(seq![x] + rest) == x.1 + flatten(rest),
    decreases rest.len(),
{
    let whole = seq![x] + rest;
    if rest.len() == 0 {
        assert(whole =~= seq![x]);
        assert(whole.drop_last() =~= Seq::<(Mode, Seq<u8>)>::empty());
        assert(flatten(whole) == flatten(whole.drop_last()) + whole.last().1);
        assert(flatten(Seq::<(Mode, Seq<u8>)>::empty()) == Seq::<u8>::empty());
        assert(Seq::<u8>::empty() + x.1 =~= x.1);
        assert(x.1 + Seq::<u8>::empty() =~= x.1);
    } else {
        lemma_flatten_front(x, rest.drop_last());
        assert(whole.drop_last() =~= seq![x] + rest.drop_last());
        assert(whole.last() == rest.last());
        assert(flatten(whole) == flatten(whole.drop_last()) + whole.last().1);
        assert(flatten(rest) == flatten(rest.drop_last()) + rest.last().1);
        assert(x.1 + flatten(rest.drop_last()) + rest.last().1 =~= x.1 + (flatten(rest.drop_last())
            + rest.last().1));
    }
}

/// The data bits fill the capacity exactly when the capacity is whole bytes.
pub proof fn lemma_layout_len(ver: Version, segs: Seq<(Mode, Seq<u8>)>, cap: nat)
    requires
        segments_bits(ver, segs).len() <= cap,
        cap % 8 == 0,
    ensures
        layout(ver, segs, cap).len() == cap,
        cap - segments_bits(ver, segs).len() >= 4 ==> layout(ver, segs, cap).subrange(
            segments_bits(ver, segs).len() as int,
            segments_bits(ver, segs).len() + 4int,
        ) == zeros(4),
{
    let body = segments_bits(ver, segs);
    let t = if body.len() >= cap {
        0
    } else if cap - body.len() < 4 {
        (cap - body.len()) as nat
    } else {
        4nat
    };
    let p = padding_len(body.len() + t);
    let n = ((cap - body.len() - t - p) / 8) as nat;
    lemma_pad_codeword_bits_len(n);
    assert(body.len() + t + p <= cap);
    assert((cap - body.len() - t - p) % 8 == 0);
    let l = layout(ver, segs, cap);
    if cap - body.len() >= 4 {
        assert(l.subrange(body.len() as int, body.len() + 4int) =~= zeros(4));
    }
}

proof fn lemma_pad_codeword_bits_len(n: nat)
    ensures
        pad_codeword_bits(n).len() == 8 * n,
    decreases n,
{
    if n > 0 {
        lemma_pad_codeword_bits_len((n - 1) as nat);
    }
}

/// A window of a window.
proof fn lemma_subrange_of(l: Seq<bool>, pos: int, pos2: int, sb: Seq<bool>, a: int, b: int)
    requires
        0 <= pos <= pos2 <= l.len(),
        l.subrange(pos, pos2) == sb,
        0 <= a <= b <= sb.len(),
    ensures
        l.subrange(pos + a, pos + b) == sb.subrange(a, b),
{
    assert forall|q: int| 0 <= q < b - a implies l.subrange(pos + a, pos + b)[q] == sb.subrange(
        a,
        b,
    )[q] by {
        assert(l.subrange(pos, pos2)[a + q] == l[pos + a + q]);
    }
    assert(l.subrange(pos + a, pos + b) =~= sb.subrange(a, b));
}

/// The header and data of a segment written at `pos` read back as the segment.
proof fn lemma_segment_at(ver: Version, l: Seq<bool>, pos: int, m: Mode, s: Seq<u8>)
    requires
        ver.valid(),
        ver is Normal,
        m.is_data(),
        m.holds_all(s),
        s.len() <= max_count(ver, m),
        0 <= pos,
        pos + segment_bits(ver, m, s).len() <= l.len(),
        l.subrange(pos, pos + segment_bits(ver, m, s).len()) == segment_bits(ver, m, s),
    ensures
        spec_header(ver, l, pos) == Ok::<(Mode, nat, int), crate::error::QRError>(
            (m, s.len(), pos + 4 + ver.spec_char_cnt_bits(m)),
        ),
        pos + 4 + ver.spec_char_cnt_bits(m) + data_bits_len(m, s.len()) == pos + segment_bits(
            ver,
            m,
            s,
        ).len(),
        decode_bits(
            m,
            s.len(),
            l.subrange(
                pos + 4 + ver.spec_char_cnt_bits(m),
                pos + segment_bits(ver, m, s).len(),
            ),
        ) == s,
{
    lemma2_to64();
    let sb = segment_bits(ver, m, s);
    let pos2 = pos + sb.len();
    let cc = ver.spec_char_cnt_bits(m) as int;
    let ind = int_bits(m.indicator() as nat, 4);
    let cnt_bits = int_bits(s.len(), cc as nat);
    let md = mode_data_bits(m, s);
    lemma_segment_bits_len(ver, m, s);
    lemma_mode_data_bits_len(m, s);
    assert(sb == ind + cnt_bits + md);
    lemma_subrange_of(l, pos, pos2, sb, 0, 4);
    lemma_subrange_of(l, pos, pos2, sb, 4, 4 + cc);
    lemma_subrange_of(l, pos, pos2, sb, 4 + cc, sb.len() as int);
    assert(sb.subrange(0, 4) =~= ind);
    assert(sb.subrange(4, 4 + cc) =~= cnt_bits);
    assert(sb.subrange(4 + cc, sb.len() as int) =~= md);
    lemma_bits_value_int_bits(m.indicator() as nat, 4);
    assert(mode_of_indicator(m.indicator() as nat) == Some(m));
    lemma_pow2_pos(cc as nat);
    lemma_bits_value_int_bits(s.len(), cc as nat);
    lemma_data_bits_len_eq(m, s.len());
    lemma_decode_mode_data_bits(m, s);
}

/// Reading the layout from the start of segment `i` gives the characters of segments `i`
/// onwards.
#[verifier::rlimit(40)]
pub proof fn lemma_layout_decodes_from(
    ver: Version,
    segs: Seq<(Mode, Seq<u8>)>,
    cap: nat,
    bcap: nat,
    mono: bool,
    i: int,
)
    requires
        ver.valid(),
        ver is Normal,
        valid_segments(ver, segs),
        segments_bits(ver, segs).len() <= cap,
        cap % 8 == 0,
        mono ==> bcap == cap,
        0 <= i <= segs.len(),
    ensures
        decode_bytes_from(
            ver,
            layout(ver, segs, cap),
            segments_bits(ver, segs.take(i)).len() as int,
            0,
            bcap,
            mono,
        ) == Ok::<Seq<u8>, crate::error::QRError>(flatten(segs.skip(i))),
    decreases segs.len() - i,
{
    let l = layout(ver, segs, cap);
    let body = segments_bits(ver, segs);
    let pos = segments_bits(ver, segs.take(i)).len() as int;
    lemma_layout_len(ver, segs, cap);
    lemma_segments_bits_take(ver, segs, i);
    lemma2_to64();
    if i == segs.len() {
        assert(segs.take(i) =~= segs);
        assert(segs.skip(i) =~= Seq::<(Mode, Seq<u8>)>::empty());
        if pos + 4 <= l.len() {
            lemma_int_bits_zero(4);
            lemma_bits_value_int_bits(0, 4);
            assert(l.subrange(pos, pos + 4) == zeros(4));
            assert(bits_value(l.subrange(pos, pos + 4)) == 0);
        }
    } else {
        let (m, s) = segs[i];
        assert(segs[i] == (m, s));
        assert(m.is_data() && s.len() > 0 && m.holds_all(s) && s.len() <= max_count(ver, m));
        let sb = segment_bits(ver, m, s);
        lemma_segment_bits_len(ver, m, s);
        lemma_segments_bits_take(ver, segs, i + 1);
        let next = segments_bits(ver, segs.take(i + 1));
        assert(segs.take(i + 1).drop_last() =~= segs.take(i));
        assert(next == segments_bits(ver, segs.take(i)) + sb);
        let pos2 = next.len() as int;
        // the segment's bits sit at `pos` in the layout
        assert(l.subrange(pos, pos2) =~= sb) by {
            assert(body.take(pos2) == next);
            assert forall|q: int| 0 <= q < pos2 - pos implies l.subrange(pos, pos2)[q] == sb[q] by {
                assert(l[pos + q] == body[pos + q]);
                assert(body[pos + q] == next[pos + q]);
            }
        }
        let cc = ver.spec_char_cnt_bits(m);
        lemma_segment_at(ver, l, pos, m, s);
        assert(pos + 4 + cc + data_bits_len(m, s.len()) == pos2);
        assert(segs.skip(i) =~= seq![(m, s)] + segs.skip(i + 1));
        lemma_flatten_front((m, s), segs.skip(i + 1));
        if i + 1 < segs.len() {
            // another segment follows, so at least four bits of the capacity are left
            let (m2, s2) = segs[i + 1];
            lemma_segment_bits_len(ver, m2, s2);
            lemma_segments_bits_take(ver, segs, i + 2);
            assert(segs.take(i + 2).drop_last() =~= segs.take(i + 1));
            assert(!stops_after(pos2, bcap, mono));
            lemma_layout_decodes_from(ver, segs, cap, bcap, mono, i + 1);
        } else {
            assert(segs.skip(i + 1) =~= Seq::<(Mode, Seq<u8>)>::empty());
            assert(s + Seq::<u8>::empty() =~= s);
            lemma_layout_decodes_from(ver, segs, cap, bcap, mono, i + 1);
        }
    }
}

/// Reading written segments one at a time: at the start of segment `i` of the layout,
/// `take_segment` finds that segment's mode and characters and stops where segment `i + 1`
/// starts; past the last one, when four bits are left, it finds the terminator.
pub proof fn lemma_segments_read_back(ver: Version, segs: Seq<(Mode, Seq<u8>)>, cap: nat, i: int)
    requires
        ver.valid(),
        ver is Normal,
        valid_segments(ver, segs),
        segments_bits(ver, segs).len() <= cap,
        cap % 8 == 0,
        0 <= i <= segs.len(),
    ensures
        i < segs.len() ==> spec_segment(
            ver,
            layout(ver, segs, cap),
            segments_bits(ver, segs.take(i)).len() as int,
        ) == Ok::<(Mode, Seq<u8>, int), crate::error::QRError>(
            (segs[i].0, segs[i].1, segments_bits(ver, segs.take(i + 1)).len() as int),
        ),
        i == segs.len() && segments_bits(ver, segs).len() + 4 <= cap ==> spec_segment(
            ver,
            layout(ver, segs, cap),
            segments_bits(ver, segs).len() as int,
        ) is Ok && spec_segment(
            ver,
            layout(ver, segs, cap),
            segments_bits(ver, segs).len() as int,
        ).unwrap().0 == Mode::Terminator,
{
    let l = layout(ver, segs, cap);
    let body = segments_bits(ver, segs);
    let pos = segments_bits(ver, segs.take(i)).len() as int;
    lemma_layout_len(ver, segs, cap);
    lemma_segments_bits_take(ver, segs, i);
    lemma2_to64();
    if i == segs.len() {
        assert(segs.take(i) =~= segs);
        if pos + 4 <= cap {
            lemma_int_bits_zero(4);
            lemma_bits_value_int_bits(0, 4);
            assert(l.subrange(pos, pos + 4) == zeros(4));
            assert(bits_value(l.subrange(pos, pos + 4)) == 0);
        }
    } else {
        let (m, sg) = segs[i];
        assert(segs[i] == (m, sg));
        assert(m.is_data() && sg.len() > 0 && m.holds_all(sg) && sg.len() <= max_count(ver, m));
        let sb = segment_bits(ver, m, sg);
        lemma_segment_bits_len(ver, m, sg);
        lemma_segments_bits_take(ver, segs, i + 1);
        let next = segments_bits(ver, segs.take(i + 1));
        assert(segs.take(i + 1).drop_last() =~= segs.take(i));
        assert(next == segments_bits(ver, segs.take(i)) + sb);
        let pos2 = next.len() as int;
        assert(l.subrange(pos, pos2) =~= sb) by {
            assert(body.take(pos2) == next);
            assert forall|q: int| 0 <= q < pos2 - pos implies l.subrange(pos, pos2)[q] == sb[q] by {
                assert(l[pos + q] == body[pos + q]);
                assert(body[pos + q] == next[pos + q]);
            }
        }
        lemma_segment_at(ver, l, pos, m, sg);
    }
}

/// The segments, as written, behind a stream the encoder produced for `data`: an optimal
/// segmentation, its over-long runs cut.
proof fn lemma_encoded_pieces(
    ver: Version,
    ecl: ECLevel,
    hi_cap: bool,
    data: Seq<u8>,
    bs: crate::bit_types::BitStream,
) -> (r: (Seq<(Mode, Seq<u8>)>, Seq<(Mode, Seq<u8>)>))
    requires
        ver.valid(),
        encodes(ver, ecl, hi_cap, data, bs),
    ensures
        optimal_segmentation(ver, data, r.0),
        r.1 == split_runs(ver, r.0),
        valid_segments(ver, r.1),
        flatten(r.1) == data,
        segments_bits(ver, r.1).len() <= ver.spec_data_bit_capacity(ecl, hi_cap),
        bs.bits() == layout(ver, r.1, ver.spec_data_bit_capacity(ecl, hi_cap)),
{
    let cap = ver.spec_data_bit_capacity(ecl, hi_cap);
    let segs0 = choose|segs: Seq<(Mode, Seq<u8>)>|
        #[trigger] optimal_segmentation(ver, data, segs) && segments_bits(
            ver,
            split_runs(ver, segs),
        ).len() <= cap && bs.bits() == layout(ver, split_runs(ver, segs), cap);
    assert(optimal_segmentation(ver, data, segs0));
    lemma_split_runs(ver, segs0);
    (segs0, split_runs(ver, segs0))
}

/// Decoding the bits the encoder wrote for `data` gives `data` back, for a single channel
/// as for three.
#[verifier::spinoff_prover]
pub proof fn lemma_decode_encoded(ver: Version, ecl: ECLevel, hi_cap: bool, data: Seq<u8>, bs: crate::bit_types::BitStream)
    requires
        ver.valid(),
        ver is Normal,
        encodes(ver, ecl, hi_cap, data, bs),
    ensures
        decode_bytes_from(ver, bs.bits(), 0, 0, ver.spec_data_bit_capacity(ecl, false), !hi_cap)
            == Ok::<Seq<u8>, crate::error::QRError>(data),
{
    let cap = ver.spec_data_bit_capacity(ecl, hi_cap);
    let (segs0, segs) = lemma_encoded_pieces(ver, ecl, hi_cap, data, bs);
    lemma_normal_capacity(ver, ecl);
    assert(segs.take(0) =~= Seq::<(Mode, Seq<u8>)>::empty());
    assert(segs.skip(0) =~= segs);
    lemma_layout_decodes_from(ver, segs, cap, ver.spec_data_bit_capacity(ecl, false), !hi_cap, 0);
}


/// Joining two pieces of valid UTF-8 joins their text.
pub proof fn lemma_decode_utf8_concat(b1: Seq<u8>, b2: Seq<u8>)
    requires
        valid_utf8(b1),
        valid_utf8(b2),
    ensures
        valid_utf8(b1 + b2),
        decode_utf8(b1 + b2) == decode_utf8(b1) + decode_utf8(b2),
    decreases b1.len(),
{
    valid_utf8_concat(b1, b2);
    let whole = b1 + b2;
    if b1.len() == 0 {
        assert(whole =~= b2);
        assert(decode_utf8(b1) + decode_utf8(b2) =~= decode_utf8(b2));
    } else {
        let n = length_of_first_scalar(b1);
        assert(1 <= n <= b1.len());
        let rest = pop_first_scalar(b1);
        assert(rest.len() < b1.len());
        valid_utf8_concat(rest, b2);
        lemma_decode_utf8_concat(rest, b2);
        assert(whole[0] == b1[0]);
        assert(n >= 2 ==> whole[1] == b1[1]);
        assert(n >= 3 ==> whole[2] == b1[2]);
        assert(n >= 4 ==> whole[3] == b1[3]);
        assert(length_of_first_scalar(whole) == n);
        assert(decode_first_scalar(whole) == decode_first_scalar(b1));
        assert(pop_first_scalar(whole) =~= rest + b2);
        let c = seq![decode_first_scalar(b1) as char];
        assert(decode_utf8(whole) == c + decode_utf8(rest + b2));
        assert(decode_utf8(b1) == c + decode_utf8(rest));
        assert(decode_utf8(whole) =~= decode_utf8(b1) + decode_utf8(b2));
    }
}

/// Cutting valid UTF-8 where a character starts, or right after an ASCII byte, leaves two
/// pieces of valid UTF-8.
pub proof fn lemma_valid_utf8_cut(a: Seq<u8>, b: Seq<u8>)
    requires
        valid_utf8(a + b),
        b.len() == 0 || !is_continuation_byte(b[0]) || (a.len() > 0 && a.last() < 128),
    ensures
        valid_utf8(a),
        valid_utf8(b),
{
    let x = a + b;
    if b.len() == 0 {
        assert(x =~= a);
    } else if !is_continuation_byte(b[0]) {
        let i = a.len() as int;
        assert(x[i] == b[0]);
        is_char_boundary_iff_not_is_continuation_byte(x, i);
        valid_utf8_split(x, i);
        assert(x.subrange(0, i) =~= a);
        assert(x.subrange(i, x.len() as int) =~= b);
    } else {
        let i = a.len() - 1;
        assert(x[i] == a.last());
        is_char_boundary_iff_not_is_continuation_byte(x, i);
        valid_utf8_split(x, i);
        let a0 = x.subrange(0, i);
        let y = x.subrange(i, x.len() as int);
        assert(y[0] == a.last());
        assert(valid_first_scalar(y));
        assert(length_of_first_scalar(y) == 1);
        assert(pop_first_scalar(y) =~= b);
        let c = seq![a.last()];
        lemma_ascii_utf8(c);
        valid_utf8_concat(a0, c);
        assert(a0 + c =~= a);
    }
}

/// Where two byte segments meet, the second does not begin inside a character.
pub open spec fn byte_runs_cut_at_chars(segs: Seq<(Mode, Seq<u8>)>) -> bool {
    forall|j: int, k: int|
        #![trigger segs[j], segs[k]]
        0 <= j && k == j + 1 && k < segs.len() && segs[j].0 == Mode::Byte && segs[k].0
            == Mode::Byte ==> !is_continuation_byte(segs[k].1[0])
}

/// Runs that fit their count fields are written uncut.
pub proof fn lemma_split_runs_fit(ver: Version, segs: Seq<(Mode, Seq<u8>)>)
    requires
        valid_segments(ver, segs),
    ensures
        split_runs(ver, segs) == segs,
    decreases segs.len(),
{
    if segs.len() > 0 {
        let t = segs.drop_last();
        assert(valid_segments(ver, t)) by {
            assert forall|i: int| 0 <= i < t.len() implies {
                let (m, s) = #[trigger] t[i];
                &&& m.is_data()
                &&& s.len() > 0
                &&& m.holds_all(s)
                &&& s.len() <= max_count(ver, m)
            } by {
                assert(t[i] == segs[i]);
            }
        }
        lemma_split_runs_fit(ver, t);
        let (m, s) = segs[segs.len() - 1];
        assert(s.len() <= max_count(ver, m));
        assert(split_run(ver, m, s) == seq![(m, s)]);
        assert(segs =~= t + seq![(m, s)]);
    }
}

/// When no run of an optimal segmentation is longer than its count field, the written
/// segments meet on character boundaries.
pub proof fn lemma_short_runs_cut_at_chars(ver: Version, data: Seq<u8>, segs: Seq<(Mode, Seq<u8>)>)
    requires
        optimal_segmentation(ver, data, segs),
        valid_segments(ver, segs),
    ensures
        byte_runs_cut_at_chars(split_runs(ver, segs)),
{
    lemma_split_runs_fit(ver, segs);
    assert(maximal_runs(segs));
}

/// The characters of numeric and alphanumeric segments are ASCII.
proof fn lemma_data_mode_ascii(m: Mode, s: Seq<u8>, j: int)
    requires
        m.is_data(),
        m != Mode::Byte,
        m.holds_all(s),
        0 <= j < s.len(),
    ensures
        s[j] < 128,
{
    assert(m.holds(s[j]));
}

/// One segment's text, split off the front of the text of segments `i` onwards.
proof fn lemma_text_step(ver: Version, segs: Seq<(Mode, Seq<u8>)>, i: int)
    requires
        valid_segments(ver, segs),
        byte_runs_cut_at_chars(segs),
        0 <= i < segs.len(),
        valid_utf8(flatten(segs.skip(i))),
    ensures
        valid_utf8(flatten(segs.skip(i + 1))),
        decode_utf8(flatten(segs.skip(i))) == decode_utf8(segs[i].1) + decode_utf8(
            flatten(segs.skip(i + 1)),
        ),
        segment_text(segs[i].0, segs[i].1) == Ok::<Seq<char>, crate::error::QRError>(
            decode_utf8(segs[i].1),
        ),
{
    let (m, s) = segs[i];
    assert(segs[i] == (m, s));
    assert(m.is_data() && s.len() > 0 && m.holds_all(s));
    assert(segs.skip(i) =~= seq![(m, s)] + segs.skip(i + 1));
    lemma_flatten_front((m, s), segs.skip(i + 1));
    let rest = flatten(segs.skip(i + 1));
    if i + 1 < segs.len() {
        let (m2, s2) = segs[i + 1];
        assert(segs[i + 1] == (m2, s2));
        assert(segs.skip(i + 1) =~= seq![(m2, s2)] + segs.skip(i + 2));
        lemma_flatten_front((m2, s2), segs.skip(i + 2));
        assert(s2.len() > 0 && m2.holds_all(s2) && m2.is_data());
        assert(rest[0] == s2[0]);
        if m2 != Mode::Byte {
            lemma_data_mode_ascii(m2, s2, 0);
        } else if m != Mode::Byte {
            lemma_data_mode_ascii(m, s, s.len() - 1);
        } else {
            assert(segs[i].0 == Mode::Byte);
        }
    }
    lemma_valid_utf8_cut(s, rest);
    lemma_decode_utf8_concat(s, rest);
}

/// Reading the layout from the start of segment `i` gives the text of segments `i` onwards,
/// when that text is UTF-8.
#[verifier::rlimit(60)]
pub proof fn lemma_layout_text_from(
    ver: Version,
    segs: Seq<(Mode, Seq<u8>)>,
    cap: nat,
    bcap: nat,
    mono: bool,
    i: int,
)
    requires
        ver.valid(),
        ver is Normal,
        valid_segments(ver, segs),
        byte_runs_cut_at_chars(segs),
        segments_bits(ver, segs).len() <= cap,
        cap % 8 == 0,
        mono ==> bcap == cap,
        0 <= i <= segs.len(),
        valid_utf8(flatten(segs.skip(i))),
    ensures
        decode_text(
            ver,
            layout(ver, segs, cap),
            segments_bits(ver, segs.take(i)).len() as int,
            0,
            bcap,
            mono,
        ) == Ok::<Seq<char>, crate::error::QRError>(decode_utf8(flatten(segs.skip(i)))),
    decreases segs.len() - i,
{
    let l = layout(ver, segs, cap);
    let body = segments_bits(ver, segs);
    let pos = segments_bits(ver, segs.take(i)).len() as int;
    lemma_layout_len(ver, segs, cap);
    lemma_segments_bits_take(ver, segs, i);
    lemma2_to64();
    if i == segs.len() {
        assert(segs.take(i) =~= segs);
        assert(segs.skip(i) =~= Seq::<(Mode, Seq<u8>)>::empty());
        assert(decode_utf8(flatten(segs.skip(i))) =~= Seq::<char>::empty());
        if pos + 4 <= l.len() {
            lemma_int_bits_zero(4);
            lemma_bits_value_int_bits(0, 4);
            assert(l.subrange(pos, pos + 4) == zeros(4));
            assert(bits_value(l.subrange(pos, pos + 4)) == 0);
        }
    } else {
        let (m, s) = segs[i];
        assert(segs[i] == (m, s));
        assert(m.is_data() && s.len() > 0 && m.holds_all(s) && s.len() <= max_count(ver, m));
        let sb = segment_bits(ver, m, s);
        lemma_segment_bits_len(ver, m, s);
        lemma_segments_bits_take(ver, segs, i + 1);
        let next = segments_bits(ver, segs.take(i + 1));
        assert(segs.take(i + 1).drop_last() =~= segs.take(i));
        assert(next == segments_bits(ver, segs.take(i)) + sb);
        let pos2 = next.len() as int;
        assert(l.subrange(pos, pos2) =~= sb) by {
            assert(body.take(pos2) == next);
            assert forall|q: int| 0 <= q < pos2 - pos implies l.subrange(pos, pos2)[q] == sb[q] by {
                assert(l[pos + q] == body[pos + q]);
                assert(body[pos + q] == next[pos + q]);
            }
        }
        let cc = ver.spec_char_cnt_bits(m);
        lemma_segment_at(ver, l, pos, m, s);
        assert(pos + 4 + cc + data_bits_len(m, s.len()) == pos2);
        assert(segs.skip(i) =~= seq![(m, s)] + segs.skip(i + 1));
        let rest = flatten(segs.skip(i + 1));
        lemma_text_step(ver, segs, i);
        if i + 1 < segs.len() {
            let (m2, s2) = segs[i + 1];
            lemma_segment_bits_len(ver, m2, s2);
            lemma_segments_bits_take(ver, segs, i + 2);
            assert(segs.take(i + 2).drop_last() =~= segs.take(i + 1));
            assert(!stops_after(pos2, bcap, mono));
            lemma_layout_text_from(ver, segs, cap, bcap, mono, i + 1);
        } else {
            assert(segs.skip(i + 1) =~= Seq::<(Mode, Seq<u8>)>::empty());
            assert(decode_utf8(rest) =~= Seq::<char>::empty());
            assert(decode_utf8(s) + decode_utf8(rest) =~= decode_utf8(s));
            lemma_layout_text_from(ver, segs, cap, bcap, mono, i + 1);
        }
    }
}

/// Decoding, as text, the bits the encoder wrote for UTF-8 `data` gives the characters of
/// `data` back, for a single channel as for three, where the written segments meet on
/// character boundaries. A cut next to a numeric or alphanumeric segment always does; two
/// byte segments meet only where a byte run was longer than its count field, and
/// `lemma_short_runs_cut_at_chars` shows the condition holds whenever no run is.
#[verifier::spinoff_prover]
#[verifier::rlimit(50)]
pub proof fn lemma_decode_text_encoded(
    ver: Version,
    ecl: ECLevel,
    hi_cap: bool,
    data: Seq<u8>,
    bs: crate::bit_types::BitStream,
)
    requires
        ver.valid(),
        ver is Normal,
        encodes(ver, ecl, hi_cap, data, bs),
        valid_utf8(data),
        forall|segs: Seq<(Mode, Seq<u8>)>|
            #[trigger] optimal_segmentation(ver, data, segs) && segments_bits(
                ver,
                split_runs(ver, segs),
            ).len() <= ver.spec_data_bit_capacity(ecl, hi_cap) && bs.bits() == layout(
                ver,
                split_runs(ver, segs),
                ver.spec_data_bit_capacity(ecl, hi_cap),
            ) ==> byte_runs_cut_at_chars(split_runs(ver, segs)),
    ensures
        decode_text(ver, bs.bits(), 0, 0, ver.spec_data_bit_capacity(ecl, false), !hi_cap)
            == Ok::<Seq<char>, crate::error::QRError>(decode_utf8(data)),
{
    let cap = ver.spec_data_bit_capacity(ecl, hi_cap);
    let (segs0, segs) = lemma_encoded_pieces(ver, ecl, hi_cap, data, bs);
    assert(byte_runs_cut_at_chars(segs));
    lemma_normal_capacity(ver, ecl);
    assert(segs.take(0) =~= Seq::<(Mode, Seq<u8>)>::empty());
    assert(segs.skip(0) =~= segs);
    lemma_layout_text_from(ver, segs, cap, ver.spec_data_bit_capacity(ecl, false), !hi_cap, 0);
}


/// In one channel no run can outgrow its character count field: one character more than the
/// field counts already takes more bits than the channel holds.
proof fn lemma_count_field_outlasts_channel(ver: Version, ecl: ECLevel, m: Mode)
    requires
        ver.valid(),
        ver is Normal,
        m.is_data(),
    ensures
        m.spec_encoded_len(max_count(ver, m) + 1) > ver.spec_channel_bit_capacity(ecl),
{
    lemma2_to64();
    lemma_normal_capacity(ver, ecl);
    let v = ver->Normal_0;
    if v <= 9 {
        assert(ver.spec_channel_bit_capacity(ecl) <= 1856);
    } else if v <= 26 {
        assert(ver.spec_channel_bit_capacity(ecl) <= 10960);
    }
}


/// Segments joined write their bits joined.
proof fn lemma_segments_bits_concat(ver: Version, a: Seq<(Mode, Seq<u8>)>, b: Seq<(Mode, Seq<u8>)>)
    ensures
        segments_bits(ver, a + b) == segments_bits(ver, a) + segments_bits(ver, b),
    decreases b.len(),
{
    if b.len() == 0 {
        assert(a + b =~= a);
        assert(segments_bits(ver, a) + segments_bits(ver, b) =~= segments_bits(ver, a));
    } else {
        lemma_segments_bits_concat(ver, a, b.drop_last());
        assert((a + b).drop_last() =~= a + b.drop_last());
        assert((a + b).last() == b.last());
        let l = b.last();
        assert(segments_bits(ver, a) + segments_bits(ver, b) =~= segments_bits(ver, a)
            + segments_bits(ver, b.drop_last()) + segment_bits(ver, l.0, l.1));
    }
}

/// Characters written in pieces take at least the bits they take in one piece.
proof fn lemma_encoded_len_split(m: Mode, a: nat, b: nat)
    requires
        m.is_data(),
    ensures
        m.spec_encoded_len(a) + m.spec_encoded_len(b) >= m.spec_encoded_len(a + b),
        m.spec_encoded_len(a) <= m.spec_encoded_len(a + b),
{
    match m {
        Mode::Numeric => {
            assert((a * 10 + 2) / 3 + (b * 10 + 2) / 3 >= ((a + b) * 10 + 2) / 3) by (nonlinear_arith);
            assert((a * 10 + 2) / 3 <= ((a + b) * 10 + 2) / 3) by (nonlinear_arith);
        },
        Mode::Alphanumeric => {
            assert((a * 11 + 1) / 2 + (b * 11 + 1) / 2 >= ((a + b) * 11 + 1) / 2) by (nonlinear_arith);
            assert((a * 11 + 1) / 2 <= ((a + b) * 11 + 1) / 2) by (nonlinear_arith);
        },
        _ => {
            assert(a * 8 + b * 8 == (a + b) * 8) by (nonlinear_arith);
        },
    }
}

/// The pieces of a run take at least the bits of its characters.
proof fn lemma_split_run_bits(ver: Version, m: Mode, s: Seq<u8>)
    requires
        m.is_data(),
    ensures
        segments_bits(ver, split_run(ver, m, s)).len() >= m.spec_encoded_len(s.len()),
    decreases s.len(),
{
    let max = max_count(ver, m);
    let one = seq![(m, s)];
    if s.len() <= max || max == 0 {
        assert(split_run(ver, m, s) == one);
        assert(one.drop_last() =~= Seq::<(Mode, Seq<u8>)>::empty());
        lemma_segment_bits_len(ver, m, s);
    } else {
        let h = s.take(max as int);
        let t = s.skip(max as int);
        let first = seq![(m, h)];
        assert(split_run(ver, m, s) == first + split_run(ver, m, t));
        lemma_segments_bits_concat(ver, first, split_run(ver, m, t));
        assert(first.drop_last() =~= Seq::<(Mode, Seq<u8>)>::empty());
        lemma_segment_bits_len(ver, m, h);
        lemma_split_run_bits(ver, m, t);
        lemma_encoded_len_split(m, h.len(), t.len());
    }
}

/// The written pieces take at least the bits of the characters of any one segment.
proof fn lemma_split_runs_bits(ver: Version, segs: Seq<(Mode, Seq<u8>)>, k: int)
    requires
        mode_runs(segs),
        0 <= k < segs.len(),
    ensures
        segments_bits(ver, split_runs(ver, segs)).len() >= segs[k].0.spec_encoded_len(
            segs[k].1.len(),
        ),
    decreases segs.len(),
{
    let t = segs.drop_last();
    let (m, s) = segs.last();
    assert(segs[segs.len() - 1] == (m, s));
    lemma_segments_bits_concat(ver, split_runs(ver, t), split_run(ver, m, s));
    if k == segs.len() - 1 {
        lemma_split_run_bits(ver, m, s);
    } else {
        assert(mode_runs(t)) by {
            assert forall|i: int| 0 <= i < t.len() implies {
                let (m2, s2) = #[trigger] t[i];
                &&& m2.is_data()
                &&& s2.len() > 0
                &&& m2.holds_all(s2)
            } by {
                assert(t[i] == segs[i]);
            }
        }
        assert(t[k] == segs[k]);
        lemma_split_runs_bits(ver, t, k);
    }
}

/// Decoding, as text, the bits the encoder wrote into one channel for UTF-8 `data` gives
/// the characters of `data` back: one channel never holds a run longer than its count field,
/// so no run is cut.
pub proof fn lemma_decode_text_encoded_mono(
    ver: Version,
    ecl: ECLevel,
    data: Seq<u8>,
    bs: crate::bit_types::BitStream,
)
    requires
        ver.valid(),
        ver is Normal,
        encodes(ver, ecl, false, data, bs),
        valid_utf8(data),
    ensures
        decode_text(ver, bs.bits(), 0, 0, ver.spec_data_bit_capacity(ecl, false), true)
            == Ok::<Seq<char>, crate::error::QRError>(decode_utf8(data)),
{
    let cap = ver.spec_data_bit_capacity(ecl, false);
    assert forall|segs: Seq<(Mode, Seq<u8>)>|
        #[trigger] optimal_segmentation(ver, data, segs) && segments_bits(
            ver,
            split_runs(ver, segs),
        ).len() <= cap && bs.bits() == layout(
            ver,
            split_runs(ver, segs),
            cap,
        ) implies byte_runs_cut_at_chars(split_runs(ver, segs)) by {
        assert(valid_segments(ver, segs)) by {
            assert forall|i: int| 0 <= i < segs.len() implies {
                let (m, s) = #[trigger] segs[i];
                &&& m.is_data()
                &&& s.len() > 0
                &&& m.holds_all(s)
                &&& s.len() <= max_count(ver, m)
            } by {
                let (m, s) = segs[i];
                lemma_split_runs_bits(ver, segs, i);
                lemma_count_field_outlasts_channel(ver, ecl, m);
                if s.len() > max_count(ver, m) {
                    lemma_encoded_len_split(
                        m,
                        max_count(ver, m) + 1,
                        (s.len() - max_count(ver, m) - 1) as nat,
                    );
                }
            }
        }
        lemma_short_runs_cut_at_chars(ver, data, segs);
    }
    lemma_decode_text_encoded(ver, ecl, false, data, bs);
}

} // verus!
