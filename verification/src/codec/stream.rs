//! The layout of encoded data as a bit sequence: segments, terminator and padding.
use crate::bits::int_bits;
use crate::codec::types::{Mode, Segment};
use crate::metadata::Version;
use vstd::prelude::*;

verus! {

/// Characters per chunk: three digits, two alphanumerics or one byte.
pub open spec fn chunk_len(mode: Mode) -> nat {
    match mode {
        Mode::Numeric => 3,
        Mode::Alphanumeric => 2,
        _ => 1,
    }
}

/// The data bits of a run of characters in one mode, chunk by chunk from the front.
pub open spec fn mode_data_bits(mode: Mode, s: Seq<u8>) -> Seq<bool>
    decreases s.len(),
{
    if s.len() == 0 {
        Seq::empty()
    } else {
        let k = if s.len() < chunk_len(mode) {
            s.len()
        } else {
            chunk_len(mode)
        };
        int_bits(mode.chunk_value(s.take(k as int)), mode.spec_encoded_len(k)) + mode_data_bits(
            mode,
            s.skip(k as int),
        )
    }
}

/// One segment: mode indicator, character count, then the data bits.
pub open spec fn segment_bits(ver: Version, mode: Mode, s: Seq<u8>) -> Seq<bool> {
    int_bits(mode.indicator() as nat, ver.spec_mode_bits()) + int_bits(
        s.len(),
        ver.spec_char_cnt_bits(mode),
    ) + mode_data_bits(mode, s)
}

/// Segments one after another.
pub open spec fn segments_bits(ver: Version, segs: Seq<(Mode, Seq<u8>)>) -> Seq<bool>
    decreases segs.len(),
{
    if segs.len() == 0 {
        Seq::empty()
    } else {
        segments_bits(ver, segs.drop_last()) + segment_bits(ver, segs.last().0, segs.last().1)
    }
}

/// The characters of the segments, joined.
pub open spec fn flatten(segs: Seq<(Mode, Seq<u8>)>) -> Seq<u8>
    decreases segs.len(),
{
    if segs.len() == 0 {
        Seq::empty()
    } else {
        flatten(segs.drop_last()) + segs.last().1
    }
}

/// The mode of each character, segment by segment.
pub open spec fn char_modes_of(segs: Seq<(Mode, Seq<u8>)>) -> Seq<Mode>
    decreases segs.len(),
{
    if segs.len() == 0 {
        Seq::empty()
    } else {
        char_modes_of(segs.drop_last()) + Seq::new(segs.last().1.len(), |i: int| segs.last().0)
    }
}

/// The mode and characters of a segment.
pub open spec fn seg_view(seg: Segment) -> (Mode, Seq<u8>) {
    (seg.mode, seg.data@)
}

pub open spec fn segs_view(segs: Seq<Segment>) -> Seq<(Mode, Seq<u8>)> {
    segs.map_values(|s: Segment| seg_view(s))
}

/// The most characters a segment in `mode` can count for `ver`.
pub open spec fn max_count(ver: Version, mode: Mode) -> nat {
    (vstd::arithmetic::power2::pow2(ver.spec_char_cnt_bits(mode)) - 1) as nat
}

/// Header fields of each segment are those `ver` prescribes.
pub open spec fn headers_for(ver: Version, segs: Seq<Segment>) -> bool {
    forall|i: int|
        0 <= i < segs.len() ==> {
            &&& (#[trigger] segs[i]).mode_bits == ver.spec_mode_bits()
            &&& segs[i].len_bits == ver.spec_char_cnt_bits(segs[i].mode)
        }
}

/// Non-empty runs of characters their mode holds.
pub open spec fn mode_runs(segs: Seq<(Mode, Seq<u8>)>) -> bool {
    forall|i: int|
        0 <= i < segs.len() ==> {
            let (m, s) = #[trigger] segs[i];
            &&& m.is_data()
            &&& s.len() > 0
            &&& m.holds_all(s)
        }
}

/// A segmentation the encoder can write for `ver`: non-empty runs of characters their mode
/// holds, each short enough for its character count field.
pub open spec fn valid_segments(ver: Version, segs: Seq<(Mode, Seq<u8>)>) -> bool {
    forall|i: int|
        0 <= i < segs.len() ==> {
            let (m, s) = #[trigger] segs[i];
            &&& m.is_data()
            &&& s.len() > 0
            &&& m.holds_all(s)
            &&& s.len() <= max_count(ver, m)
        }
}

/// Segments run as long as they can: neighbouring segments differ in mode.
pub open spec fn maximal_runs(segs: Seq<(Mode, Seq<u8>)>) -> bool {
    forall|j: int, k: int|
        #![trigger segs[j], segs[k]]
        0 <= j && k == j + 1 && k < segs.len() ==> segs[j].0 != segs[k].0
}

/// A run cut into pieces of at most what `ver`'s count field for its mode can count, in
/// order: how the encoder writes a run longer than one segment header can state.
pub open spec fn split_run(ver: Version, m: Mode, s: Seq<u8>) -> Seq<(Mode, Seq<u8>)>
    decreases s.len(),
{
    let max = max_count(ver, m);
    if s.len() <= max || max == 0 {
        seq![(m, s)]
    } else {
        seq![(m, s.take(max as int))] + split_run(ver, m, s.skip(max as int))
    }
}

/// Each segment cut as `split_run` does, the pieces kept in order.
pub open spec fn split_runs(ver: Version, segs: Seq<(Mode, Seq<u8>)>) -> Seq<(Mode, Seq<u8>)>
    decreases segs.len(),
{
    if segs.len() == 0 {
        Seq::empty()
    } else {
        split_runs(ver, segs.drop_last()) + split_run(ver, segs.last().0, segs.last().1)
    }
}

/// `n` zero bits.
pub open spec fn zeros(n: nat) -> Seq<bool> {
    Seq::new(n, |i: int| false)
}

/// The pad codewords `0xEC 0x11 0xEC ...`, `n` of them, as bits.
pub open spec fn pad_codeword_bits(n: nat) -> Seq<bool>
    decreases n,
{
    if n == 0 {
        Seq::empty()
    } else {
        pad_codeword_bits((n - 1) as nat) + int_bits(
            if (n - 1) % 2 == 0 {
                0xEC
            } else {
                0x11
            },
            8,
        )
    }
}

} // verus!

verus! {

/// Each chunk takes the bits its length calls for, so a run takes `spec_encoded_len` bits.
pub proof fn lemma_mode_data_bits_len(mode: Mode, s: Seq<u8>)
    requires
        mode.is_data(),
    ensures
        mode_data_bits(mode, s).len() == mode.spec_encoded_len(s.len()),
    decreases s.len(),
{
    if s.len() > 0 {
        let n = s.len();
        let k = if n < chunk_len(mode) {
            n
        } else {
            chunk_len(mode)
        };
        lemma_mode_data_bits_len(mode, s.skip(k as int));
        assert(s.skip(k as int).len() == n - k);
        match mode {
            Mode::Numeric => {
                assert((n * 10 + 2) / 3 == ((n - k) * 10 + 2) / 3 + (k * 10 + 2) / 3);
            },
            Mode::Alphanumeric => {
                assert((n * 11 + 1) / 2 == ((n - k) * 11 + 1) / 2 + (k * 11 + 1) / 2);
            },
            _ => {
                assert(n * 8 == (n - k) * 8 + k * 8);
            },
        }
    }
}

} // verus!
