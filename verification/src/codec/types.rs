//! Encoding modes and segments.
use vstd::prelude::*;

verus! {

// Mode
//------------------------------------------------------------------------------
/// The encoding mode of a segment, or the terminator that ends the data.
#[derive(Debug, PartialEq, Eq, Copy, Clone, PartialOrd, Ord, Structural)]
pub enum Mode {
    Numeric,
    Alphanumeric,
    Byte,
    Kanji,
    Eci,
    Terminator,
}

/// A decimal digit character.
pub open spec fn is_numeric(c: u8) -> bool {
    48 <= c <= 57
}

/// A character of the 45-character alphanumeric set.
pub open spec fn is_alphanumeric(c: u8) -> bool {
    is_numeric(c) || (65 <= c <= 90) || c == 32 || c == 36 || c == 37 || c == 42 || c == 43 || c
        == 45 || c == 46 || c == 47 || c == 58
}

/// Value of an alphanumeric character.
pub open spec fn alnum_digit(c: u8) -> nat {
    if is_numeric(c) {
        (c - 48) as nat
    } else if 65 <= c <= 90 {
        (c - 55) as nat
    } else if c == 32 {
        36
    } else if c == 36 {
        37
    } else if c == 37 {
        38
    } else if c == 42 {
        39
    } else if c == 43 {
        40
    } else if c == 45 {
        41
    } else if c == 46 {
        42
    } else if c == 47 {
        43
    } else {
        44
    }
}

/// Character of an alphanumeric value.
pub open spec fn alnum_char(d: nat) -> u8 {
    if d <= 9 {
        (d + 48) as u8
    } else if d <= 35 {
        (d + 55) as u8
    } else if d == 36 {
        32
    } else if d == 37 {
        36
    } else if d == 38 {
        37
    } else if d == 39 {
        42
    } else if d == 40 {
        43
    } else if d == 41 {
        45
    } else if d == 42 {
        46
    } else if d == 43 {
        47
    } else {
        58
    }
}

/// The number that a run of decimal digit characters spells.
pub open spec fn numeric_value(s: Seq<u8>) -> nat
    decreases s.len(),
{
    if s.len() == 0 {
        0
    } else {
        10 * numeric_value(s.drop_last()) + (s.last() - 48) as nat
    }
}

/// The number that a run of alphanumeric characters spells in base 45.
pub open spec fn alnum_value(s: Seq<u8>) -> nat
    decreases s.len(),
{
    if s.len() == 0 {
        0
    } else {
        45 * alnum_value(s.drop_last()) + alnum_digit(s.last())
    }
}

/// The last `len` decimal digits of `v`, as characters.
pub open spec fn numeric_digits(v: nat, len: nat) -> Seq<u8>
    decreases len,
{
    if len == 0 {
        Seq::empty()
    } else {
        numeric_digits(v / 10, (len - 1) as nat).push(((v % 10) + 48) as u8)
    }
}

/// The last `len` base-45 digits of `v`, as alphanumeric characters.
pub open spec fn alnum_digits(v: nat, len: nat) -> Seq<u8>
    decreases len,
{
    if len == 0 {
        Seq::empty()
    } else {
        alnum_digits(v / 45, (len - 1) as nat).push(alnum_char(v % 45))
    }
}

/// The two Shift JIS bytes that a 13-bit kanji value stands for.
pub open spec fn kanji_bytes(data: u16) -> Seq<u8> {
    let temp = (data / 0xc0) * 256 + data % 0xc0 + 0x8140;
    let sjw = if temp <= 0x9ffc {
        temp
    } else {
        temp + 0x4000
    };
    seq![(sjw / 256) as u8, (sjw % 256) as u8]
}

impl Mode {
    /// The four-bit mode indicator.
    pub open spec fn indicator(self) -> u8 {
        match self {
            Mode::Numeric => 0b0001,
            Mode::Alphanumeric => 0b0010,
            Mode::Byte => 0b0100,
            Mode::Kanji => 0b1000,
            Mode::Eci => 0b0111,
            Mode::Terminator => 0b0000,
        }
    }

    /// A mode that carries characters of its own.
    pub open spec fn is_data(self) -> bool {
        self == Mode::Numeric || self == Mode::Alphanumeric || self == Mode::Byte
    }

    pub open spec fn holds(self, c: u8) -> bool {
        match self {
            Mode::Numeric => is_numeric(c),
            Mode::Alphanumeric => is_alphanumeric(c),
            Mode::Byte => true,
            _ => false,
        }
    }

    /// Every character of `s` is in this mode's set.
    pub open spec fn holds_all(self, s: Seq<u8>) -> bool {
        forall|i: int| 0 <= i < s.len() ==> self.holds(#[trigger] s[i])
    }

    /// Bits that `len` characters take in this mode.
    pub open spec fn spec_encoded_len(self, len: nat) -> nat {
        match self {
            Mode::Numeric => (len * 10 + 2) / 3,
            Mode::Alphanumeric => (len * 11 + 1) / 2,
            Mode::Byte => len * 8,
            Mode::Kanji => (len / 2) * 13,
            Mode::Eci => len,
            Mode::Terminator => 0,
        }
    }

    /// The number a chunk of at most three digits, two alphanumerics or one byte encodes to.
    pub open spec fn chunk_value(self, s: Seq<u8>) -> nat {
        match self {
            Mode::Numeric => numeric_value(s),
            Mode::Alphanumeric => alnum_value(s),
            _ => s[0] as nat,
        }
    }

    pub fn bits(self) -> (r: u8)
        ensures
            r == self.indicator(),
    {
        match self {
            Mode::Numeric => 0b0001,
            Mode::Alphanumeric => 0b0010,
            Mode::Byte => 0b0100,
            Mode::Kanji => 0b1000,
            Mode::Eci => 0b0111,
            Mode::Terminator => 0b0000,
        }
    }

    /// Value of a decimal digit character.
    pub fn numeric_digit(char: u8) -> (r: u16)
        requires
            is_numeric(char),
        ensures
            r == char - 48,
    {
        (char - 48u8) as u16
    }

    /// Value of an alphanumeric character.
    pub fn alphanumeric_digit(char: u8) -> (r: u16)
        requires
            is_alphanumeric(char),
        ensures
            r == alnum_digit(char),
    {
        if 48u8 <= char && char <= 57u8 {
            (char - 48u8) as u16
        } else if 65u8 <= char && char <= 90u8 {
            (char - 65u8 + 10) as u16
        } else if char == 32u8 {
            36
        } else if char == 36u8 {
            37
        } else if char == 37u8 {
            38
        } else if char == 42u8 {
            39
        } else if char == 43u8 {
            40
        } else if char == 45u8 {
            41
        } else if char == 46u8 {
            42
        } else if char == 47u8 {
            43
        } else {
            44
        }
    }

    /// The character a digit value stands for in this mode.
    pub fn byte(&self, mode_digit: u8) -> (r: u8)
        requires
            match *self {
                Mode::Numeric => mode_digit <= 9,
                Mode::Alphanumeric => mode_digit <= 44,
                Mode::Byte => true,
                _ => false,
            },
        ensures
            match *self {
                Mode::Numeric => r == mode_digit + 48,
                Mode::Alphanumeric => r == alnum_char(mode_digit as nat),
                _ => r == mode_digit,
            },
    {
        match self {
            Mode::Numeric => mode_digit + 48u8,
            Mode::Alphanumeric => {
                if mode_digit <= 9 {
                    mode_digit + 48u8
                } else if mode_digit <= 35 {
                    mode_digit - 10 + 65u8
                } else if mode_digit == 36 {
                    32u8
                } else if mode_digit == 37 {
                    36u8
                } else if mode_digit == 38 {
                    37u8
                } else if mode_digit == 39 {
                    42u8
                } else if mode_digit == 40 {
                    43u8
                } else if mode_digit == 41 {
                    45u8
                } else if mode_digit == 42 {
                    46u8
                } else if mode_digit == 43 {
                    47u8
                } else {
                    58u8
                }
            },
            _ => mode_digit,
        }
    }

    /// Encodes up to three digits, up to two alphanumerics, or one byte, as one number.
    pub fn encode_chunk(&self, data: &[u8]) -> (r: u16)
        requires
            self.is_data(),
            self.holds_all(data@),
            *self == Mode::Numeric ==> data@.len() <= 3,
            *self == Mode::Alphanumeric ==> data@.len() <= 2,
            *self == Mode::Byte ==> data@.len() == 1,
        ensures
            r == self.chunk_value(data@),
    {
        let len = data.len();
        match self {
            Mode::Numeric => {
                let mut n: u16 = 0;
                let mut i: usize = 0;
                while i < len
                    invariant
                        len == data@.len() <= 3,
                        i <= len,
                        Mode::Numeric.holds_all(data@),
                        n == numeric_value(data@.take(i as int)),
                        n < if i == 0 {
                            1int
                        } else if i == 1 {
                            10int
                        } else if i == 2 {
                            100int
                        } else {
                            1000int
                        },
                    decreases len - i,
                {
                    assert(Mode::Numeric.holds(data@[i as int]));
                    n = n * 10 + Self::numeric_digit(data[i]);
                    i += 1;
                    proof {
                        assert(data@.take(i as int).drop_last() =~= data@.take(i - 1));
                    }
                }
                proof {
                    assert(data@.take(len as int) =~= data@);
                }
                n
            },
            Mode::Alphanumeric => {
                let mut n: u16 = 0;
                let mut i: usize = 0;
                while i < len
                    invariant
                        len == data@.len() <= 2,
                        i <= len,
                        Mode::Alphanumeric.holds_all(data@),
                        n == alnum_value(data@.take(i as int)),
                        n < if i == 0 {
                            1int
                        } else if i == 1 {
                            45int
                        } else {
                            2025int
                        },
                    decreases len - i,
                {
                    assert(Mode::Alphanumeric.holds(data@[i as int]));
                    n = n * 45 + Self::alphanumeric_digit(data[i]);
                    i += 1;
                    proof {
                        assert(data@.take(i as int).drop_last() =~= data@.take(i - 1));
                    }
                }
                proof {
                    assert(data@.take(len as int) =~= data@);
                }
                n
            },
            _ => data[0] as u16,
        }
    }

    /// Decodes one chunk of `bit_len` bits back into its characters.
    pub fn decode_chunk(&self, data: u16, bit_len: usize) -> (r: Vec<u8>)
        requires
            match *self {
                Mode::Numeric => bit_len == 10 || bit_len == 7 || bit_len == 4,
                Mode::Alphanumeric => bit_len == 11 || bit_len == 6,
                Mode::Byte => bit_len == 8,
                Mode::Kanji => true,
                _ => false,
            },
        ensures
            r@ == match *self {
                Mode::Numeric => numeric_digits(data as nat, (bit_len / 3) as nat),
                Mode::Alphanumeric => alnum_digits(data as nat, (bit_len / 5) as nat),
                Mode::Byte => seq![data as u8],
                _ => kanji_bytes(data),
            },
    {
        match self {
            Mode::Numeric => Self::decode_numeric_chunk(data, bit_len),
            Mode::Alphanumeric => Self::decode_alphanumeric_chunk(data, bit_len),
            Mode::Byte => {
                let mut v = Vec::new();
                v.push(data as u8);
                proof {
                    assert(v@ =~= seq![data as u8]);
                }
                v
            },
            _ => Self::decode_kanji_chunk(data),
        }
    }

    fn decode_numeric_chunk(data: u16, bit_len: usize) -> (r: Vec<u8>)
        requires
            bit_len <= 16,
        ensures
            r@ == numeric_digits(data as nat, (bit_len / 3) as nat),
    {
        let len = bit_len / 3;
        let mut res = vec![0u8; len];
        let mut d = data;
        let mut i: usize = 0;
        while i < len
            invariant
                i <= len,
                res@.len() == len,
                numeric_digits(data as nat, len as nat) == numeric_digits(
                    d as nat,
                    (len - i) as nat,
                ) + res@.subrange(len - i, len as int),
            decreases len - i,
        {
            let ghost prev = res@;
            let digit = Mode::Numeric.byte((d % 10) as u8);
            res.set(len - 1 - i, digit);
            proof {
                assert(numeric_digits(d as nat, (len - i) as nat) == numeric_digits(
                    (d / 10) as nat,
                    (len - i - 1) as nat,
                ).push(((d % 10) + 48) as u8));
                assert(res@.subrange(len - 1 - i, len as int) =~= seq![digit] + prev.subrange(
                    len - i,
                    len as int,
                ));
            }
            d = d / 10;
            i += 1;
        }
        proof {
            assert(numeric_digits(d as nat, 0) =~= Seq::<u8>::empty());
            assert(res@.subrange(0, len as int) =~= res@);
        }
        res
    }

    fn decode_alphanumeric_chunk(data: u16, bit_len: usize) -> (r: Vec<u8>)
        requires
            bit_len <= 16,
        ensures
            r@ == alnum_digits(data as nat, (bit_len / 5) as nat),
    {
        let len = bit_len / 5;
        let mut res = vec![0u8; len];
        let mut d = data;
        let mut i: usize = 0;
        while i < len
            invariant
                i <= len,
                res@.len() == len,
                alnum_digits(data as nat, len as nat) == alnum_digits(d as nat, (len - i) as nat)
                    + res@.subrange(len - i, len as int),
            decreases len - i,
        {
            let ghost prev = res@;
            let digit = Mode::Alphanumeric.byte((d % 45) as u8);
            res.set(len - 1 - i, digit);
            proof {
                assert(alnum_digits(d as nat, (len - i) as nat) == alnum_digits(
                    (d / 45) as nat,
                    (len - i - 1) as nat,
                ).push(alnum_char((d % 45) as nat)));
                assert(res@.subrange(len - 1 - i, len as int) =~= seq![digit] + prev.subrange(
                    len - i,
                    len as int,
                ));
            }
            d = d / 45;
            i += 1;
        }
        proof {
            assert(alnum_digits(d as nat, 0) =~= Seq::<u8>::empty());
            assert(res@.subrange(0, len as int) =~= res@);
        }
        res
    }

    fn decode_kanji_chunk(data: u16) -> (r: Vec<u8>)
        ensures
            r@ == kanji_bytes(data),
    {
        let msbyte = (data / 0xc0) as u32;
        let lsbyte = (data % 0xc0) as u32;
        let temp = msbyte * 256 + lsbyte + 0x8140;
        let sjw = if temp <= 0x9ffc {
            temp
        } else {
            temp + 0x4000
        };
        let mut v = Vec::new();
        v.push((sjw / 256) as u8);
        v.push((sjw % 256) as u8);
        proof {
            assert(v@ =~= kanji_bytes(data));
        }
        v
    }

    /// Whether `byte` is in this mode's character set.
    pub fn contains(&self, byte: u8) -> (r: bool)
        requires
            *self != Mode::Kanji,
        ensures
            r == self.holds(byte),
    {
        match self {
            Mode::Numeric => 48u8 <= byte && byte <= 57u8,
            Mode::Alphanumeric => {
                (48u8 <= byte && byte <= 57u8) || (65u8 <= byte && byte <= 90u8) || byte == 32u8
                    || byte == 36u8 || byte == 37u8 || byte == 42u8 || byte == 43u8 || byte == 45u8
                    || byte == 46u8 || byte == 47u8 || byte == 58u8
            },
            Mode::Byte => true,
            _ => false,
        }
    }

    /// The arithmetic of `encoded_len` stays within `usize` for `len` characters.
    pub open spec fn encoded_len_fits(self, len: nat) -> bool {
        match self {
            Mode::Numeric => len * 10 + 2 <= usize::MAX,
            Mode::Alphanumeric => len * 11 + 1 <= usize::MAX,
            Mode::Byte => len * 8 <= usize::MAX,
            Mode::Kanji => (len / 2) * 13 <= usize::MAX,
            _ => true,
        }
    }

    /// Bits that `len` characters take in this mode.
    pub fn encoded_len(&self, len: usize) -> (r: usize)
        requires
            *self != Mode::Terminator,
            self.encoded_len_fits(len as nat),
        ensures
            r == self.spec_encoded_len(len as nat),
    {
        match self {
            Mode::Numeric => (len * 10 + 2) / 3,
            Mode::Alphanumeric => (len * 11 + 1) / 2,
            Mode::Byte => len * 8,
            Mode::Kanji => (len / 2) * 13,
            Mode::Eci => len,
            Mode::Terminator => 0,
        }
    }
}

/// Decoding the digits a run of decimal digits encodes to gives the run back.
pub proof fn lemma_numeric_roundtrip(s: Seq<u8>)
    requires
        Mode::Numeric.holds_all(s),
    ensures
        numeric_digits(numeric_value(s), s.len()) == s,
        numeric_value(s) < vstd::arithmetic::power::pow(10, s.len()),
    decreases s.len(),
{
    reveal(vstd::arithmetic::power::pow);
    if s.len() == 0 {
        assert(numeric_digits(0, 0) =~= s);
    } else {
        let t = s.drop_last();
        assert(Mode::Numeric.holds(s[s.len() - 1]));
        assert(Mode::Numeric.holds_all(t)) by {
            assert forall|i: int| 0 <= i < t.len() implies Mode::Numeric.holds(t[i]) by {
                assert(Mode::Numeric.holds(s[i]));
            }
        }
        lemma_numeric_roundtrip(t);
        let v = numeric_value(s);
        assert(v / 10 == numeric_value(t));
        assert(v % 10 == s.last() - 48);
        assert(numeric_digits(v, s.len()) =~= numeric_digits(numeric_value(t), t.len()).push(
            s.last(),
        ));
        assert(s =~= t.push(s.last()));
    }
}

/// Decoding the base-45 digits a run of alphanumerics encodes to gives the run back.
pub proof fn lemma_alnum_roundtrip(s: Seq<u8>)
    requires
        Mode::Alphanumeric.holds_all(s),
    ensures
        alnum_digits(alnum_value(s), s.len()) == s,
        alnum_value(s) < vstd::arithmetic::power::pow(45, s.len()),
    decreases s.len(),
{
    reveal(vstd::arithmetic::power::pow);
    if s.len() == 0 {
        assert(alnum_digits(0, 0) =~= s);
    } else {
        let t = s.drop_last();
        assert(Mode::Alphanumeric.holds(s[s.len() - 1]));
        assert(Mode::Alphanumeric.holds_all(t)) by {
            assert forall|i: int| 0 <= i < t.len() implies Mode::Alphanumeric.holds(t[i]) by {
                assert(Mode::Alphanumeric.holds(s[i]));
            }
        }
        lemma_alnum_roundtrip(t);
        let v = alnum_value(s);
        let c = s.last();
        assert(alnum_digit(c) < 45);
        assert(alnum_char(alnum_digit(c)) == c);
        assert(v / 45 == alnum_value(t));
        assert(v % 45 == alnum_digit(c));
        assert(alnum_digits(v, s.len()) =~= alnum_digits(alnum_value(t), t.len()).push(c));
        assert(s =~= t.push(c));
    }
}

// Segment
//------------------------------------------------------------------------------
/// A run of the input encoded in one mode, with the widths of its two header fields.
#[derive(Debug, Copy, Clone, PartialEq, Eq)]
pub struct Segment<'a> {
    pub mode: Mode,
    /// Bit length of the mode indicator
    pub mode_bits: usize,
    /// Bit length of the character count
    pub len_bits: usize,
    /// The characters of the segment
    pub data: &'a [u8],
}

impl<'a> Segment<'a> {
    /// Bits the whole segment takes, header included.
    pub open spec fn spec_bit_len(&self) -> nat {
        (self.mode_bits + self.len_bits + self.mode.spec_encoded_len(self.data@.len())) as nat
    }

    pub fn new(mode: Mode, mode_bits: usize, len_bits: usize, data: &'a [u8]) -> (res: Self)
        ensures
            res.mode == mode,
            res.mode_bits == mode_bits,
            res.len_bits == len_bits,
            res.data@ == data@,
    {
        Self { mode, mode_bits, len_bits, data }
    }

    pub fn bit_len(&self) -> (r: usize)
        requires
            self.mode != Mode::Terminator,
            self.mode.encoded_len_fits(self.data@.len()),
            self.mode_bits + self.len_bits + self.mode.spec_encoded_len(self.data@.len())
                <= usize::MAX,
        ensures
            r == self.spec_bit_len(),
    {
        let encoded_bits = self.mode.encoded_len(self.data.len());
        self.mode_bits + self.len_bits + encoded_bits
    }
}

// Global constants
//------------------------------------------------------------------------------
/// The two pad codewords that fill unused data capacity, alternately.
pub const PADDING_CODEWORDS: [u8; 2] = [0b1110_1100, 0b0001_0001];

/// The modes the segmenter chooses among.
pub const MODES: [Mode; 3] = [Mode::Numeric, Mode::Alphanumeric, Mode::Byte];

} // verus!
