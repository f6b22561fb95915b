//! QR symbol parameters: versions, error correction levels, colours, and the tables that the
//! standard fixes for each of them.
use crate::codec::Mode;
use crate::error::{decimal, push_decimal};
use crate::mask::MaskingPattern;
use vstd::prelude::*;
use vstd::string::StringExecFns;

verus! {

// Metadata
//------------------------------------------------------------------------------
/// What is known of a symbol: version, error correction level and mask, each possibly unknown.
#[derive(Debug, Copy, Clone)]
pub struct Metadata {
    pub ver: Option<Version>,
    pub ecl: Option<ECLevel>,
    pub mask: Option<MaskingPattern>,
}

impl Metadata {
    pub fn new(ver: Option<Version>, ecl: Option<ECLevel>, mask: Option<MaskingPattern>) -> (res: Self)
        ensures
            res.ver == ver,
            res.ecl == ecl,
            res.mask == mask,
    {
        Self { ver, ecl, mask }
    }

    /// The metadata in words: each part as its value is written in code, or `None`.
    pub fn describe(&self) -> (r: String)
        ensures
            r@ == metadata_text(self.ver, self.ecl, self.mask),
    {
        proof {
            reveal_strlit("Metadata: Version: ");
            reveal_strlit(", EC Level: ");
            reveal_strlit(", Masking Pattern: ");
            reveal_strlit(" ");
        }
        let mut res = String::new();
        res.append("Metadata: Version: ");
        push_version_text(&mut res, self.ver);
        res.append(", EC Level: ");
        push_level_text(&mut res, self.ecl);
        res.append(", Masking Pattern: ");
        push_mask_text(&mut res, self.mask);
        res.append(" ");
        proof {
            assert(res@ =~= metadata_text(self.ver, self.ecl, self.mask));
        }
        res
    }
}

fn push_version_text(out: &mut String, ver: Option<Version>)
    ensures
        final(out)@ == old(out)@ + match ver {
            Some(v) => version_text(v),
            None => "None"@,
        },
{
    proof {
        reveal_strlit("None");
        reveal_strlit("Normal(");
        reveal_strlit("Micro(");
        reveal_strlit(")");
    }
    match ver {
        Some(Version::Normal(v)) => {
            out.append("Normal(");
            push_decimal(out, v);
            out.append(")");
        },
        Some(Version::Micro(v)) => {
            out.append("Micro(");
            push_decimal(out, v);
            out.append(")");
        },
        None => out.append("None"),
    }
    proof {
        assert(out@ =~= old(out)@ + match ver {
            Some(v) => version_text(v),
            None => "None"@,
        });
    }
}

fn push_level_text(out: &mut String, ecl: Option<ECLevel>)
    ensures
        final(out)@ == old(out)@ + match ecl {
            Some(e) => level_text(e),
            None => "None"@,
        },
{
    proof {
        reveal_strlit("None");
        reveal_strlit("L");
        reveal_strlit("M");
        reveal_strlit("Q");
        reveal_strlit("H");
    }
    match ecl {
        Some(ECLevel::L) => out.append("L"),
        Some(ECLevel::M) => out.append("M"),
        Some(ECLevel::Q) => out.append("Q"),
        Some(ECLevel::H) => out.append("H"),
        None => out.append("None"),
    }
}

fn push_mask_text(out: &mut String, mask: Option<MaskingPattern>)
    ensures
        final(out)@ == old(out)@ + match mask {
            Some(m) => "MaskingPattern("@ + decimal(m.spec_value()) + ")"@,
            None => "None"@,
        },
{
    proof {
        reveal_strlit("None");
        reveal_strlit("MaskingPattern(");
        reveal_strlit(")");
    }
    match mask {
        Some(m) => {
            out.append("MaskingPattern(");
            push_decimal(out, m.value() as usize);
            out.append(")");
        },
        None => out.append("None"),
    }
    proof {
        assert(out@ =~= old(out)@ + match mask {
            Some(m) => "MaskingPattern("@ + decimal(m.spec_value()) + ")"@,
            None => "None"@,
        });
    }
}

/// The text of a version as its value is written in code.
pub open spec fn version_text(v: Version) -> Seq<char> {
    match v {
        Version::Normal(n) => "Normal("@ + decimal(n as nat) + ")"@,
        Version::Micro(n) => "Micro("@ + decimal(n as nat) + ")"@,
    }
}

/// The letter of an error correction level.
pub open spec fn level_text(e: ECLevel) -> Seq<char> {
    match e {
        ECLevel::L => "L"@,
        ECLevel::M => "M"@,
        ECLevel::Q => "Q"@,
        ECLevel::H => "H"@,
    }
}

/// The metadata in words.
pub open spec fn metadata_text(
    ver: Option<Version>,
    ecl: Option<ECLevel>,
    mask: Option<MaskingPattern>,
) -> Seq<char> {
    "Metadata: Version: "@ + match ver {
        Some(v) => version_text(v),
        None => "None"@,
    } + ", EC Level: "@ + match ecl {
        Some(e) => level_text(e),
        None => "None"@,
    } + ", Masking Pattern: "@ + match mask {
        Some(m) => "MaskingPattern("@ + decimal(m.spec_value()) + ")"@,
        None => "None"@,
    } + " "@
}

// Version
//------------------------------------------------------------------------------
/// A symbol version: micro symbols 1 to 4, normal symbols 1 to 40.
#[derive(Debug, PartialEq, Eq, Copy, Clone, Structural)]
pub enum Version {
    Micro(usize),
    Normal(usize),
}

impl Version {
    /// A version the standard defines.
    pub open spec fn valid(self) -> bool {
        match self {
            Version::Micro(v) => 1 <= v <= 4,
            Version::Normal(v) => 1 <= v <= 40,
        }
    }

    /// Row of this version in the per-version tables: normal versions first, then micro.
    pub open spec fn table_row(self) -> int {
        match self {
            Version::Micro(v) => 39 + v,
            Version::Normal(v) => v - 1,
        }
    }

    /// The version number.
    pub open spec fn num(self) -> nat {
        match self {
            Version::Micro(v) => v as nat,
            Version::Normal(v) => v as nat,
        }
    }

    pub open spec fn spec_width(self) -> int {
        match self {
            Version::Micro(v) => v * 2 + 9,
            Version::Normal(v) => v * 4 + 17,
        }
    }

    pub open spec fn spec_char_cnt_bits(self, mode: Mode) -> nat {
        match self {
            Version::Micro(v) => match mode {
                Mode::Numeric => (v + 2) as nat,
                Mode::Alphanumeric => (v + 1) as nat,
                Mode::Byte => (v + 1) as nat,
                Mode::Kanji => v as nat,
                Mode::Eci | Mode::Terminator => 0,
            },
            Version::Normal(v) => if v <= 9 {
                match mode {
                    Mode::Numeric => 10,
                    Mode::Alphanumeric => 9,
                    Mode::Byte => 8,
                    Mode::Kanji => 8,
                    Mode::Eci | Mode::Terminator => 0,
                }
            } else if v <= 26 {
                match mode {
                    Mode::Numeric => 12,
                    Mode::Alphanumeric => 11,
                    Mode::Byte => 16,
                    Mode::Kanji => 10,
                    Mode::Eci | Mode::Terminator => 0,
                }
            } else {
                match mode {
                    Mode::Numeric => 14,
                    Mode::Alphanumeric => 13,
                    Mode::Byte => 16,
                    Mode::Kanji => 12,
                    Mode::Eci | Mode::Terminator => 0,
                }
            },
        }
    }

    pub open spec fn spec_mode_bits(self) -> nat {
        match self {
            Version::Micro(v) => (v - 1) as nat,
            Version::Normal(_) => 4,
        }
    }

    /// Data bits of one channel.
    pub open spec fn spec_channel_bit_capacity(self, ecl: ECLevel) -> nat {
        VERSION_DATA_BIT_CAPACITY[self.table_row()][ecl.ord()] as nat
    }

    pub open spec fn spec_data_bit_capacity(self, ecl: ECLevel, hi_cap: bool) -> nat {
        if hi_cap {
            3 * self.spec_channel_bit_capacity(ecl)
        } else {
            self.spec_channel_bit_capacity(ecl)
        }
    }

    pub open spec fn spec_channel_codewords(self) -> nat {
        VERSION_TOTAL_CODEWORDS[self.table_row()] as nat
    }

    pub open spec fn spec_total_codewords(self, hi_cap: bool) -> nat {
        if hi_cap {
            3 * self.spec_channel_codewords()
        } else {
            self.spec_channel_codewords()
        }
    }

    pub open spec fn spec_blocks(self, ecl: ECLevel) -> (usize, usize, usize, usize) {
        DATA_CODEWORDS_PER_BLOCK[self.table_row()][ecl.ord()]
    }

    pub open spec fn spec_ecc_per_block(self, ecl: ECLevel) -> nat {
        ECC_PER_BLOCK[self.table_row()][ecl.ord()] as nat
    }

    /// The positions of alignment pattern centres along each axis.
    pub open spec fn spec_alignment_pattern(self) -> Seq<i32> {
        match self {
            Version::Micro(_) => Seq::empty(),
            Version::Normal(v) => ALIGNMENT_PATTERN_POSITIONS[v - 1]@.take(
                alignment_count(v as int),
            ),
        }
    }

    /// The grid size of a normal symbol, if `grid_size` is one.
    pub fn from_grid_size(grid_size: usize) -> (r: Option<Self>)
        ensures
            r == (if 21 <= grid_size <= 177 {
                Some(Version::Normal(((grid_size - 17) / 4) as usize))
            } else {
                None
            }),
    {
        if !(21 <= grid_size && grid_size <= 177) {
            return None;
        }
        Some(Version::Normal((grid_size - 17) / 4))
    }

    /// The version number.
    pub fn number(self) -> (r: usize)
        ensures
            r == self.num(),
    {
        match self {
            Version::Micro(v) => v,
            Version::Normal(v) => v,
        }
    }

    /// Modules along one side of the symbol.
    pub fn width(self) -> (r: usize)
        requires
            self.valid(),
        ensures
            r == self.spec_width(),
    {
        match self {
            Version::Micro(v) => v * 2 + 9,
            Version::Normal(v) => v * 4 + 17,
        }
    }

    /// The positions of alignment pattern centres along each axis.
    pub fn alignment_pattern(self) -> (r: Vec<i32>)
        requires
            self.valid(),
        ensures
            r@ == self.spec_alignment_pattern(),
    {
        match self {
            Version::Micro(_) => Vec::new(),
            Version::Normal(v) => {
                let row = ALIGNMENT_PATTERN_POSITIONS[v - 1];
                let cnt = if v == 1 {
                    0
                } else {
                    v / 7 + 2
                };
                let mut res = Vec::new();
                let mut i: usize = 0;
                while i < cnt
                    invariant
                        cnt == alignment_count(v as int),
                        cnt <= 7,
                        i <= cnt,
                        row == ALIGNMENT_PATTERN_POSITIONS[v - 1],
                        res@ == row@.take(i as int),
                    decreases cnt - i,
                {
                    res.push(row[i]);
                    i += 1;
                    proof {
                        assert(res@ =~= row@.take(i as int));
                    }
                }
                res
            },
        }
    }

    /// Bits of the mode indicator.
    pub fn mode_bits(self) -> (r: usize)
        requires
            self.valid(),
        ensures
            r == self.spec_mode_bits(),
    {
        match self {
            Version::Micro(v) => v - 1,
            Version::Normal(_) => 4,
        }
    }

    /// Bits of the character count indicator of a segment in `mode`.
    pub fn char_cnt_bits(&self, mode: Mode) -> (r: usize)
        requires
            self.valid(),
        ensures
            r == self.spec_char_cnt_bits(mode),
    {
        match self {
            Version::Micro(v) => match mode {
                Mode::Numeric => *v + 2,
                Mode::Alphanumeric => *v + 1,
                Mode::Byte => *v + 1,
                Mode::Kanji => *v,
                Mode::Eci | Mode::Terminator => 0,
            },
            Version::Normal(v) => if *v <= 9 {
                match mode {
                    Mode::Numeric => 10,
                    Mode::Alphanumeric => 9,
                    Mode::Byte => 8,
                    Mode::Kanji => 8,
                    Mode::Eci | Mode::Terminator => 0,
                }
            } else if *v <= 26 {
                match mode {
                    Mode::Numeric => 12,
                    Mode::Alphanumeric => 11,
                    Mode::Byte => 16,
                    Mode::Kanji => 10,
                    Mode::Eci | Mode::Terminator => 0,
                }
            } else {
                match mode {
                    Mode::Numeric => 14,
                    Mode::Alphanumeric => 13,
                    Mode::Byte => 16,
                    Mode::Kanji => 12,
                    Mode::Eci | Mode::Terminator => 0,
                }
            },
        }
    }

    fn row(self) -> (r: usize)
        requires
            self.valid(),
        ensures
            r == self.table_row(),
            r < 44,
    {
        match self {
            Version::Micro(v) => 39 + v,
            Version::Normal(v) => v - 1,
        }
    }

    /// Data bits of the symbol, three channels' worth when `hi_cap` is set.
    pub fn data_bit_capacity(self, ecl: ECLevel, hi_cap: bool) -> (r: usize)
        requires
            self.valid(),
        ensures
            r == self.spec_data_bit_capacity(ecl, hi_cap),
    {
        let mut bc = VERSION_DATA_BIT_CAPACITY[self.row()][ecl.ordinal()];
        if hi_cap {
            bc *= 3;
        }
        bc
    }

    /// Data bytes of the symbol, three channels' worth when `hi_cap` is set.
    pub fn data_capacity(self, ecl: ECLevel, hi_cap: bool) -> (r: usize)
        requires
            self.valid(),
        ensures
            r == self.spec_data_bit_capacity(ecl, hi_cap) / 8,
    {
        let mut bc = VERSION_DATA_BIT_CAPACITY[self.row()][ecl.ordinal()];
        if hi_cap {
            bc *= 3;
        }
        proof {
            crate::bits::lemma_usize_div_mod(bc);
        }
        bc >> 3
    }

    /// Codewords of the symbol, three channels' worth when `hi_cap` is set.
    pub fn total_codewords(self, hi_cap: bool) -> (r: usize)
        requires
            self.valid(),
        ensures
            r == self.spec_total_codewords(hi_cap),
    {
        let mut tc = VERSION_TOTAL_CODEWORDS[self.row()];
        if hi_cap {
            tc *= 3;
        }
        tc
    }

    /// Data bytes of one channel.
    pub fn channel_data_capacity(self, ecl: ECLevel) -> (r: usize)
        requires
            self.valid(),
        ensures
            r == self.spec_channel_bit_capacity(ecl) / 8,
    {
        let bc = VERSION_DATA_BIT_CAPACITY[self.row()][ecl.ordinal()];
        proof {
            crate::bits::lemma_usize_div_mod(bc);
        }
        bc >> 3
    }

    /// Codewords of one channel.
    pub fn channel_codewords(self) -> (r: usize)
        requires
            self.valid(),
        ensures
            r == self.spec_channel_codewords(),
    {
        VERSION_TOTAL_CODEWORDS[self.row()]
    }

    /// Sizes and counts of the two groups of error correction blocks.
    pub fn data_codewords_per_block(self, ecl: ECLevel) -> (r: (usize, usize, usize, usize))
        requires
            self.valid(),
        ensures
            r == self.spec_blocks(ecl),
    {
        DATA_CODEWORDS_PER_BLOCK[self.row()][ecl.ordinal()]
    }

    /// Error correction codewords of each block.
    pub fn ecc_per_block(self, ecl: ECLevel) -> (r: usize)
        requires
            self.valid(),
        ensures
            r == self.spec_ecc_per_block(ecl),
    {
        ECC_PER_BLOCK[self.row()][ecl.ordinal()]
    }

    pub open spec fn spec_remainder_bits(self) -> nat {
        match self {
            Version::Micro(_) => 0,
            Version::Normal(v) => if v == 1 {
                0
            } else if v <= 6 {
                7
            } else if v <= 13 {
                0
            } else if v <= 20 {
                3
            } else if v <= 27 {
                4
            } else if v <= 34 {
                3
            } else {
                0
            },
        }
    }

    /// Bits left over after the last codeword.
    pub fn remainder_bits(self) -> (r: usize)
        requires
            self.valid(),
        ensures
            r == self.spec_remainder_bits(),
    {
        match self {
            Version::Micro(_) => 0,
            Version::Normal(v) => if v == 1 {
                0
            } else if v <= 6 {
                7
            } else if v <= 13 {
                0
            } else if v <= 20 {
                3
            } else if v <= 27 {
                4
            } else if v <= 34 {
                3
            } else {
                0
            },
        }
    }

    /// The 18-bit version information of versions 7 and up.
    pub fn info(self) -> (r: u32)
        requires
            self matches Version::Normal(v) && 7 <= v <= 40,
        ensures
            self matches Version::Normal(v) && r == VERSION_INFOS[v - 7],
    {
        match self {
            Version::Normal(v) => VERSION_INFOS[v - 7],
            Version::Micro(_) => 0,
        }
    }
}

/// The data capacity of a normal symbol is whole bytes, at most 23648 bits per channel.
pub proof fn lemma_normal_capacity(ver: Version, ecl: ECLevel)
    requires
        ver.valid(),
        ver is Normal,
    ensures
        ver.spec_channel_bit_capacity(ecl) % 8 == 0,
        0 < ver.spec_channel_bit_capacity(ecl) <= 23648,
{
}

/// The block layout of a normal symbol: groups of blocks that share the channel's data
/// codewords, each block with the same number of error correction codewords, filling the
/// channel's codewords.
pub proof fn lemma_normal_blocks(ver: Version, ecl: ECLevel)
    requires
        ver.valid(),
        ver is Normal,
    ensures
        ({
            let (s1, c1, s2, c2) = ver.spec_blocks(ecl);
            &&& 1 <= s1
            &&& 1 <= c1
            &&& (s2 == 0 <==> c2 == 0)
            &&& s2 == 0 || s2 == s1 + 1
            &&& s1 * c1 + s2 * c2 == ver.spec_channel_bit_capacity(ecl) / 8
            &&& c1 + c2 <= 81
            &&& 1 <= ver.spec_ecc_per_block(ecl) <= 30
            &&& s1 + 1 + ver.spec_ecc_per_block(ecl) <= 256
            &&& (c1 + c2) * ver.spec_ecc_per_block(ecl) + ver.spec_channel_bit_capacity(ecl) / 8
                == ver.spec_channel_codewords()
        }),
{
    lemma_blocks_at(ver, ecl);
}

#[verifier::rlimit(100)]
#[verifier::spinoff_prover]
proof fn lemma_blocks_at(ver: Version, ecl: ECLevel)
    requires
        ver.valid(),
        ver is Normal,
    ensures
        ({
            let (s1, c1, s2, c2) = ver.spec_blocks(ecl);
            &&& 1 <= s1
            &&& 1 <= c1
            &&& (s2 == 0 <==> c2 == 0)
            &&& s2 == 0 || s2 == s1 + 1
            &&& s1 * c1 + s2 * c2 == ver.spec_channel_bit_capacity(ecl) / 8
            &&& c1 + c2 <= 81
            &&& 1 <= ver.spec_ecc_per_block(ecl) <= 30
            &&& s1 + 1 + ver.spec_ecc_per_block(ecl) <= 256
            &&& (c1 + c2) * ver.spec_ecc_per_block(ecl) + ver.spec_channel_bit_capacity(ecl) / 8
                == ver.spec_channel_codewords()
        }),
{
    match ecl {
        ECLevel::L => lemma_blocks_l(ver),
        ECLevel::M => lemma_blocks_m(ver),
        ECLevel::Q => lemma_blocks_q(ver),
        ECLevel::H => lemma_blocks_h(ver),
    }
}

#[verifier::rlimit(100)]
#[verifier::spinoff_prover]
proof fn lemma_blocks_l(ver: Version)
    requires
        ver.valid(),
        ver is Normal,
    ensures
        ({
            let ecl = ECLevel::L;
            let (s1, c1, s2, c2) = ver.spec_blocks(ecl);
            &&& 1 <= s1
            &&& 1 <= c1
            &&& (s2 == 0 <==> c2 == 0)
            &&& s2 == 0 || s2 == s1 + 1
            &&& s1 * c1 + s2 * c2 == ver.spec_channel_bit_capacity(ecl) / 8
            &&& c1 + c2 <= 81
            &&& 1 <= ver.spec_ecc_per_block(ecl) <= 30
            &&& s1 + 1 + ver.spec_ecc_per_block(ecl) <= 256
            &&& (c1 + c2) * ver.spec_ecc_per_block(ecl) + ver.spec_channel_bit_capacity(ecl) / 8
                == ver.spec_channel_codewords()
        }),
{
    let v = ver->Normal_0;
    if v == 1 {
        assert(ver.spec_blocks(ECLevel::L) == (19usize, 1usize, 0usize, 0usize));
        assert(19 * 1 + 0 * 0 == 19);
        assert(ver.spec_ecc_per_block(ECLevel::L) == 7);
        assert(ver.spec_channel_bit_capacity(ECLevel::L) == 152);
        assert(ver.spec_channel_codewords() == 26);
    } else if v == 2 {
        assert(ver.spec_blocks(ECLevel::L) == (34usize, 1usize, 0usize, 0usize));
        assert(34 * 1 + 0 * 0 == 34);
        assert(ver.spec_ecc_per_block(ECLevel::L) == 10);
        assert(ver.spec_channel_bit_capacity(ECLevel::L) == 272);
        assert(ver.spec_channel_codewords() == 44);
    } else if v == 3 {
        assert(ver.spec_blocks(ECLevel::L) == (55usize, 1usize, 0usize, 0usize));
        assert(55 * 1 + 0 * 0 == 55);
        assert(ver.spec_ecc_per_block(ECLevel::L) == 15);
        assert(ver.spec_channel_bit_capacity(ECLevel::L) == 440);
        assert(ver.spec_channel_codewords() == 70);
    } else if v == 4 {
        assert(ver.spec_blocks(ECLevel::L) == (80usize, 1usize, 0usize, 0usize));
        assert(80 * 1 + 0 * 0 == 80);
        assert(ver.spec_ecc_per_block(ECLevel::L) == 20);
        assert(ver.spec_channel_bit_capacity(ECLevel::L) == 640);
        assert(ver.spec_channel_codewords() == 100);
    } else if v == 5 {
        assert(ver.spec_blocks(ECLevel::L) == (108usize, 1usize, 0usize, 0usize));
        assert(108 * 1 + 0 * 0 == 108);
        assert(ver.spec_ecc_per_block(ECLevel::L) == 26);
        assert(ver.spec_channel_bit_capacity(ECLevel::L) == 864);
        assert(ver.spec_channel_codewords() == 134);
    } else if v == 6 {
        assert(ver.spec_blocks(ECLevel::L) == (68usize, 2usize, 0usize, 0usize));
        assert(68 * 2 + 0 * 0 == 136);
        assert(ver.spec_ecc_per_block(ECLevel::L) == 18);
        assert(ver.spec_channel_bit_capacity(ECLevel::L) == 1088);
        assert(ver.spec_channel_codewords() == 172);
    } else if v == 7 {
        assert(ver.spec_blocks(ECLevel::L) == (78usize, 2usize, 0usize, 0usize));
        assert(78 * 2 + 0 * 0 == 156);
        assert(ver.spec_ecc_per_block(ECLevel::L) == 20);
        assert(ver.spec_channel_bit_capacity(ECLevel::L) == 1248);
        assert(ver.spec_channel_codewords() == 196);
    } else if v == 8 {
        assert(ver.spec_blocks(ECLevel::L) == (97usize, 2usize, 0usize, 0usize));
        assert(97 * 2 + 0 * 0 == 194);
        assert(ver.spec_ecc_per_block(ECLevel::L) == 24);
        assert(ver.spec_channel_bit_capacity(ECLevel::L) == 1552);
        assert(ver.spec_channel_codewords() == 242);
    } else if v == 9 {
        assert(ver.spec_blocks(ECLevel::L) == (116usize, 2usize, 0usize, 0usize));
        assert(116 * 2 + 0 * 0 == 232);
        assert(ver.spec_ecc_per_block(ECLevel::L) == 30);
        assert(ver.spec_channel_bit_capacity(ECLevel::L) == 1856);
        assert(ver.spec_channel_codewords() == 292);
    } else if v == 10 {
        assert(ver.spec_blocks(ECLevel::L) == (68usize, 2usize, 69usize, 2usize));
        assert(68 * 2 + 69 * 2 == 274);
        assert(ver.spec_ecc_per_block(ECLevel::L) == 18);
        assert(ver.spec_channel_bit_capacity(ECLevel::L) == 2192);
        assert(ver.spec_channel_codewords() == 346);
    } else if v == 11 {
        assert(ver.spec_blocks(ECLevel::L) == (81usize, 4usize, 0usize, 0usize));
        assert(81 * 4 + 0 * 0 == 324);
        assert(ver.spec_ecc_per_block(ECLevel::L) == 20);
        assert(ver.spec_channel_bit_capacity(ECLevel::L) == 2592);
        assert(ver.spec_channel_codewords() == 404);
    } else if v == 12 {
        assert(ver.spec_blocks(ECLevel::L) == (92usize, 2usize, 93usize, 2usize));
        assert(92 * 2 + 93 * 2 == 370);
        assert(ver.spec_ecc_per_block(ECLevel::L) == 24);
        assert(ver.spec_channel_bit_capacity(ECLevel::L) == 2960);
        assert(ver.spec_channel_codewords() == 466);
    } else if v == 13 {
        assert(ver.spec_blocks(ECLevel::L) == (107usize, 4usize, 0usize, 0usize));
        assert(107 * 4 + 0 * 0 == 428);
        assert(ver.spec_ecc_per_block(ECLevel::L) == 26);
        assert(ver.spec_channel_bit_capacity(ECLevel::L) == 3424);
        assert(ver.spec_channel_codewords() == 532);
    } else if v == 14 {
        assert(ver.spec_blocks(ECLevel::L) == (115usize, 3usize, 116usize, 1usize));
        assert(115 * 3 + 116 * 1 == 461);
        assert(ver.spec_ecc_per_block(ECLevel::L) == 30);
        assert(ver.spec_channel_bit_capacity(ECLevel::L) == 3688);
        assert(ver.spec_channel_codewords() == 581);
    } else if v == 15 {
        assert(ver.spec_blocks(ECLevel::L) == (87usize, 5usize, 88usize, 1usize));
        assert(87 * 5 + 88 * 1 == 523);
        assert(ver.spec_ecc_per_block(ECLevel::L) == 22);
        assert(ver.spec_channel_bit_capacity(ECLevel::L) == 4184);
        assert(ver.spec_channel_codewords() == 655);
    } else if v == 16 {
        assert(ver.spec_blocks(ECLevel::L) == (98usize, 5usize, 99usize, 1usize));
        assert(98 * 5 + 99 * 1 == 589);
        assert(ver.spec_ecc_per_block(ECLevel::L) == 24);
        assert(ver.spec_channel_bit_capacity(ECLevel::L) == 4712);
        assert(ver.spec_channel_codewords() == 733);
    } else if v == 17 {
        assert(ver.spec_blocks(ECLevel::L) == (107usize, 1usize, 108usize, 5usize));
        assert(107 * 1 + 108 * 5 == 647);
        assert(ver.spec_ecc_per_block(ECLevel::L) == 28);
        assert(ver.spec_channel_bit_capacity(ECLevel::L) == 5176);
        assert(ver.spec_channel_codewords() == 815);
    } else if v == 18 {
        assert(ver.spec_blocks(ECLevel::L) == (120usize, 5usize, 121usize, 1usize));
        assert(120 * 5 + 121 * 1 == 721);
        assert(ver.spec_ecc_per_block(ECLevel::L) == 30);
        assert(ver.spec_channel_bit_capacity(ECLevel::L) == 5768);
        assert(ver.spec_channel_codewords() == 901);
    } else if v == 19 {
        assert(ver.spec_blocks(ECLevel::L) == (113usize, 3usize, 114usize, 4usize));
        assert(113 * 3 + 114 * 4 == 795);
        assert(ver.spec_ecc_per_block(ECLevel::L) == 28);
        assert(ver.spec_channel_bit_capacity(ECLevel::L) == 6360);
        assert(ver.spec_channel_codewords() == 991);
    } else if v == 20 {
        assert(ver.spec_blocks(ECLevel::L) == (107usize, 3usize, 108usize, 5usize));
        assert(107 * 3 + 108 * 5 == 861);
        assert(ver.spec_ecc_per_block(ECLevel::L) == 28);
        assert(ver.spec_channel_bit_capacity(ECLevel::L) == 6888);
        assert(ver.spec_channel_codewords() == 1085);
    } else if v == 21 {
        assert(ver.spec_blocks(ECLevel::L) == (116usize, 4usize, 117usize, 4usize));
        assert(116 * 4 + 117 * 4 == 932);
        assert(ver.spec_ecc_per_block(ECLevel::L) == 28);
        assert(ver.spec_channel_bit_capacity(ECLevel::L) == 7456);
        assert(ver.spec_channel_codewords() == 1156);
    } else if v == 22 {
        assert(ver.spec_blocks(ECLevel::L) == (111usize, 2usize, 112usize, 7usize));
        assert(111 * 2 + 112 * 7 == 1006);
        assert(ver.spec_ecc_per_block(ECLevel::L) == 28);
        assert(ver.spec_channel_bit_capacity(ECLevel::L) == 8048);
        assert(ver.spec_channel_codewords() == 1258);
    } else if v == 23 {
        assert(ver.spec_blocks(ECLevel::L) == (121usize, 4usize, 122usize, 5usize));
        assert(121 * 4 + 122 * 5 == 1094);
        assert(ver.spec_ecc_per_block(ECLevel::L) == 30);
        assert(ver.spec_channel_bit_capacity(ECLevel::L) == 8752);
        assert(ver.spec_channel_codewords() == 1364);
    } else if v == 24 {
        assert(ver.spec_blocks(ECLevel::L) == (117usize, 6usize, 118usize, 4usize));
        assert(117 * 6 + 118 * 4 == 1174);
        assert(ver.spec_ecc_per_block(ECLevel::L) == 30);
        assert(ver.spec_channel_bit_capacity(ECLevel::L) == 9392);
        assert(ver.spec_channel_codewords() == 1474);
    } else if v == 25 {
        assert(ver.spec_blocks(ECLevel::L) == (106usize, 8usize, 107usize, 4usize));
        assert(106 * 8 + 107 * 4 == 1276);
        assert(ver.spec_ecc_per_block(ECLevel::L) == 26);
        assert(ver.spec_channel_bit_capacity(ECLevel::L) == 10208);
        assert(ver.spec_channel_codewords() == 1588);
    } else if v == 26 {
        assert(ver.spec_blocks(ECLevel::L) == (114usize, 10usize, 115usize, 2usize));
        assert(114 * 10 + 115 * 2 == 1370);
        assert(ver.spec_ecc_per_block(ECLevel::L) == 28);
        assert(ver.spec_channel_bit_capacity(ECLevel::L) == 10960);
        assert(ver.spec_channel_codewords() == 1706);
    } else if v == 27 {
        assert(ver.spec_blocks(ECLevel::L) == (122usize, 8usize, 123usize, 4usize));
        assert(122 * 8 + 123 * 4 == 1468);
        assert(ver.spec_ecc_per_block(ECLevel::L) == 30);
        assert(ver.spec_channel_bit_capacity(ECLevel::L) == 11744);
        assert(ver.spec_channel_codewords() == 1828);
    } else if v == 28 {
        assert(ver.spec_blocks(ECLevel::L) == (117usize, 3usize, 118usize, 10usize));
        assert(117 * 3 + 118 * 10 == 1531);
        assert(ver.spec_ecc_per_block(ECLevel::L) == 30);
        assert(ver.spec_channel_bit_capacity(ECLevel::L) == 12248);
        assert(ver.spec_channel_codewords() == 1921);
    } else if v == 29 {
        assert(ver.spec_blocks(ECLevel::L) == (116usize, 7usize, 117usize, 7usize));
        assert(116 * 7 + 117 * 7 == 1631);
        assert(ver.spec_ecc_per_block(ECLevel::L) == 30);
        assert(ver.spec_channel_bit_capacity(ECLevel::L) == 13048);
        assert(ver.spec_channel_codewords() == 2051);
    } else if v == 30 {
        assert(ver.spec_blocks(ECLevel::L) == (115usize, 5usize, 116usize, 10usize));
        assert(115 * 5 + 116 * 10 == 1735);
        assert(ver.spec_ecc_per_block(ECLevel::L) == 30);
        assert(ver.spec_channel_bit_capacity(ECLevel::L) == 13880);
        assert(ver.spec_channel_codewords() == 2185);
    } else if v == 31 {
        assert(ver.spec_blocks(ECLevel::L) == (115usize, 13usize, 116usize, 3usize));
        assert(115 * 13 + 116 * 3 == 1843);
        assert(ver.spec_ecc_per_block(ECLevel::L) == 30);
        assert(ver.spec_channel_bit_capacity(ECLevel::L) == 14744);
        assert(ver.spec_channel_codewords() == 2323);
    } else if v == 32 {
        assert(ver.spec_blocks(ECLevel::L) == (115usize, 17usize, 0usize, 0usize));
        assert(115 * 17 + 0 * 0 == 1955);
        assert(ver.spec_ecc_per_block(ECLevel::L) == 30);
        assert(ver.spec_channel_bit_capacity(ECLevel::L) == 15640);
        assert(ver.spec_channel_codewords() == 2465);
    } else if v == 33 {
        assert(ver.spec_blocks(ECLevel::L) == (115usize, 17usize, 116usize, 1usize));
        assert(115 * 17 + 116 * 1 == 2071);
        assert(ver.spec_ecc_per_block(ECLevel::L) == 30);
        assert(ver.spec_channel_bit_capacity(ECLevel::L) == 16568);
        assert(ver.spec_channel_codewords() == 2611);
    } else if v == 34 {
        assert(ver.spec_blocks(ECLevel::L) == (115usize, 13usize, 116usize, 6usize));
        assert(115 * 13 + 116 * 6 == 2191);
        assert(ver.spec_ecc_per_block(ECLevel::L) == 30);
        assert(ver.spec_channel_bit_capacity(ECLevel::L) == 17528);
        assert(ver.spec_channel_codewords() == 2761);
    } else if v == 35 {
        assert(ver.spec_blocks(ECLevel::L) == (121usize, 12usize, 122usize, 7usize));
        assert(121 * 12 + 122 * 7 == 2306);
        assert(ver.spec_ecc_per_block(ECLevel::L) == 30);
        assert(ver.spec_channel_bit_capacity(ECLevel::L) == 18448);
        assert(ver.spec_channel_codewords() == 2876);
    } else if v == 36 {
        assert(ver.spec_blocks(ECLevel::L) == (121usize, 6usize, 122usize, 14usize));
        assert(121 * 6 + 122 * 14 == 2434);
        assert(ver.spec_ecc_per_block(ECLevel::L) == 30);
        assert(ver.spec_channel_bit_capacity(ECLevel::L) == 19472);
        assert(ver.spec_channel_codewords() == 3034);
    } else if v == 37 {
        assert(ver.spec_blocks(ECLevel::L) == (122usize, 17usize, 123usize, 4usize));
        assert(122 * 17 + 123 * 4 == 2566);
        assert(ver.spec_ecc_per_block(ECLevel::L) == 30);
        assert(ver.spec_channel_bit_capacity(ECLevel::L) == 20528);
        assert(ver.spec_channel_codewords() == 3196);
    } else if v == 38 {
        assert(ver.spec_blocks(ECLevel::L) == (122usize, 4usize, 123usize, 18usize));
        assert(122 * 4 + 123 * 18 == 2702);
        assert(ver.spec_ecc_per_block(ECLevel::L) == 30);
        assert(ver.spec_channel_bit_capacity(ECLevel::L) == 21616);
        assert(ver.spec_channel_codewords() == 3362);
    } else if v == 39 {
        assert(ver.spec_blocks(ECLevel::L) == (117usize, 20usize, 118usize, 4usize));
        assert(117 * 20 + 118 * 4 == 2812);
        assert(ver.spec_ecc_per_block(ECLevel::L) == 30);
        assert(ver.spec_channel_bit_capacity(ECLevel::L) == 22496);
        assert(ver.spec_channel_codewords() == 3532);
    } else {
        assert(ver.spec_blocks(ECLevel::L) == (118usize, 19usize, 119usize, 6usize));
        assert(118 * 19 + 119 * 6 == 2956);
        assert(ver.spec_ecc_per_block(ECLevel::L) == 30);
        assert(ver.spec_channel_bit_capacity(ECLevel::L) == 23648);
        assert(ver.spec_channel_codewords() == 3706);
    }
}

#[verifier::rlimit(100)]
#[verifier::spinoff_prover]
proof fn lemma_blocks_m(ver: Version)
    requires
        ver.valid(),
        ver is Normal,
    ensures
        ({
            let ecl = ECLevel::M;
            let (s1, c1, s2, c2) = ver.spec_blocks(ecl);
            &&& 1 <= s1
            &&& 1 <= c1
            &&& (s2 == 0 <==> c2 == 0)
            &&& s2 == 0 || s2 == s1 + 1
            &&& s1 * c1 + s2 * c2 == ver.spec_channel_bit_capacity(ecl) / 8
            &&& c1 + c2 <= 81
            &&& 1 <= ver.spec_ecc_per_block(ecl) <= 30
            &&& s1 + 1 + ver.spec_ecc_per_block(ecl) <= 256
            &&& (c1 + c2) * ver.spec_ecc_per_block(ecl) + ver.spec_channel_bit_capacity(ecl) / 8
                == ver.spec_channel_codewords()
        }),
{
    let v = ver->Normal_0;
    if v == 1 {
        assert(ver.spec_blocks(ECLevel::M) == (16usize, 1usize, 0usize, 0usize));
        assert(16 * 1 + 0 * 0 == 16);
        assert(ver.spec_ecc_per_block(ECLevel::M) == 10);
        assert(ver.spec_channel_bit_capacity(ECLevel::M) == 128);
        assert(ver.spec_channel_codewords() == 26);
    } else if v == 2 {
        assert(ver.spec_blocks(ECLevel::M) == (28usize, 1usize, 0usize, 0usize));
        assert(28 * 1 + 0 * 0 == 28);
        assert(ver.spec_ecc_per_block(ECLevel::M) == 16);
        assert(ver.spec_channel_bit_capacity(ECLevel::M) == 224);
        assert(ver.spec_channel_codewords() == 44);
    } else if v == 3 {
        assert(ver.spec_blocks(ECLevel::M) == (44usize, 1usize, 0usize, 0usize));
        assert(44 * 1 + 0 * 0 == 44);
        assert(ver.spec_ecc_per_block(ECLevel::M) == 26);
        assert(ver.spec_channel_bit_capacity(ECLevel::M) == 352);
        assert(ver.spec_channel_codewords() == 70);
    } else if v == 4 {
        assert(ver.spec_blocks(ECLevel::M) == (32usize, 2usize, 0usize, 0usize));
        assert(32 * 2 + 0 * 0 == 64);
        assert(ver.spec_ecc_per_block(ECLevel::M) == 18);
        assert(ver.spec_channel_bit_capacity(ECLevel::M) == 512);
        assert(ver.spec_channel_codewords() == 100);
    } else if v == 5 {
        assert(ver.spec_blocks(ECLevel::M) == (43usize, 2usize, 0usize, 0usize));
        assert(43 * 2 + 0 * 0 == 86);
        assert(ver.spec_ecc_per_block(ECLevel::M) == 24);
        assert(ver.spec_channel_bit_capacity(ECLevel::M) == 688);
        assert(ver.spec_channel_codewords() == 134);
    } else if v == 6 {
        assert(ver.spec_blocks(ECLevel::M) == (27usize, 4usize, 0usize, 0usize));
        assert(27 * 4 + 0 * 0 == 108);
        assert(ver.spec_ecc_per_block(ECLevel::M) == 16);
        assert(ver.spec_channel_bit_capacity(ECLevel::M) == 864);
        assert(ver.spec_channel_codewords() == 172);
    } else if v == 7 {
        assert(ver.spec_blocks(ECLevel::M) == (31usize, 4usize, 0usize, 0usize));
        assert(31 * 4 + 0 * 0 == 124);
        assert(ver.spec_ecc_per_block(ECLevel::M) == 18);
        assert(ver.spec_channel_bit_capacity(ECLevel::M) == 992);
        assert(ver.spec_channel_codewords() == 196);
    } else if v == 8 {
        assert(ver.spec_blocks(ECLevel::M) == (38usize, 2usize, 39usize, 2usize));
        assert(38 * 2 + 39 * 2 == 154);
        assert(ver.spec_ecc_per_block(ECLevel::M) == 22);
        assert(ver.spec_channel_bit_capacity(ECLevel::M) == 1232);
        assert(ver.spec_channel_codewords() == 242);
    } else if v == 9 {
        assert(ver.spec_blocks(ECLevel::M) == (36usize, 3usize, 37usize, 2usize));
        assert(36 * 3 + 37 * 2 == 182);
        assert(ver.spec_ecc_per_block(ECLevel::M) == 22);
        assert(ver.spec_channel_bit_capacity(ECLevel::M) == 1456);
        assert(ver.spec_channel_codewords() == 292);
    } else if v == 10 {
        assert(ver.spec_blocks(ECLevel::M) == (43usize, 4usize, 44usize, 1usize));
        assert(43 * 4 + 44 * 1 == 216);
        assert(ver.spec_ecc_per_block(ECLevel::M) == 26);
        assert(ver.spec_channel_bit_capacity(ECLevel::M) == 1728);
        assert(ver.spec_channel_codewords() == 346);
    } else if v == 11 {
        assert(ver.spec_blocks(ECLevel::M) == (50usize, 1usize, 51usize, 4usize));
        assert(50 * 1 + 51 * 4 == 254);
        assert(ver.spec_ecc_per_block(ECLevel::M) == 30);
        assert(ver.spec_channel_bit_capacity(ECLevel::M) == 2032);
        assert(ver.spec_channel_codewords() == 404);
    } else if v == 12 {
        assert(ver.spec_blocks(ECLevel::M) == (36usize, 6usize, 37usize, 2usize));
        assert(36 * 6 + 37 * 2 == 290);
        assert(ver.spec_ecc_per_block(ECLevel::M) == 22);
        assert(ver.spec_channel_bit_capacity(ECLevel::M) == 2320);
        assert(ver.spec_channel_codewords() == 466);
    } else if v == 13 {
        assert(ver.spec_blocks(ECLevel::M) == (37usize, 8usize, 38usize, 1usize));
        assert(37 * 8 + 38 * 1 == 334);
        assert(ver.spec_ecc_per_block(ECLevel::M) == 22);
        assert(ver.spec_channel_bit_capacity(ECLevel::M) == 2672);
        assert(ver.spec_channel_codewords() == 532);
    } else if v == 14 {
        assert(ver.spec_blocks(ECLevel::M) == (40usize, 4usize, 41usize, 5usize));
        assert(40 * 4 + 41 * 5 == 365);
        assert(ver.spec_ecc_per_block(ECLevel::M) == 24);
        assert(ver.spec_channel_bit_capacity(ECLevel::M) == 2920);
        assert(ver.spec_channel_codewords() == 581);
    } else if v == 15 {
        assert(ver.spec_blocks(ECLevel::M) == (41usize, 5usize, 42usize, 5usize));
        assert(41 * 5 + 42 * 5 == 415);
        assert(ver.spec_ecc_per_block(ECLevel::M) == 24);
        assert(ver.spec_channel_bit_capacity(ECLevel::M) == 3320);
        assert(ver.spec_channel_codewords() == 655);
    } else if v == 16 {
        assert(ver.spec_blocks(ECLevel::M) == (45usize, 7usize, 46usize, 3usize));
        assert(45 * 7 + 46 * 3 == 453);
        assert(ver.spec_ecc_per_block(ECLevel::M) == 28);
        assert(ver.spec_channel_bit_capacity(ECLevel::M) == 3624);
        assert(ver.spec_channel_codewords() == 733);
    } else if v == 17 {
        assert(ver.spec_blocks(ECLevel::M) == (46usize, 10usize, 47usize, 1usize));
        assert(46 * 10 + 47 * 1 == 507);
        assert(ver.spec_ecc_per_block(ECLevel::M) == 28);
        assert(ver.spec_channel_bit_capacity(ECLevel::M) == 4056);
        assert(ver.spec_channel_codewords() == 815);
    } else if v == 18 {
        assert(ver.spec_blocks(ECLevel::M) == (43usize, 9usize, 44usize, 4usize));
        assert(43 * 9 + 44 * 4 == 563);
        assert(ver.spec_ecc_per_block(ECLevel::M) == 26);
        assert(ver.spec_channel_bit_capacity(ECLevel::M) == 4504);
        assert(ver.spec_channel_codewords() == 901);
    } else if v == 19 {
        assert(ver.spec_blocks(ECLevel::M) == (44usize, 3usize, 45usize, 11usize));
        assert(44 * 3 + 45 * 11 == 627);
        assert(ver.spec_ecc_per_block(ECLevel::M) == 26);
        assert(ver.spec_channel_bit_capacity(ECLevel::M) == 5016);
        assert(ver.spec_channel_codewords() == 991);
    } else if v == 20 {
        assert(ver.spec_blocks(ECLevel::M) == (41usize, 3usize, 42usize, 13usize));
        assert(41 * 3 + 42 * 13 == 669);
        assert(ver.spec_ecc_per_block(ECLevel::M) == 26);
        assert(ver.spec_channel_bit_capacity(ECLevel::M) == 5352);
        assert(ver.spec_channel_codewords() == 1085);
    } else if v == 21 {
        assert(ver.spec_blocks(ECLevel::M) == (42usize, 17usize, 0usize, 0usize));
        assert(42 * 17 + 0 * 0 == 714);
        assert(ver.spec_ecc_per_block(ECLevel::M) == 26);
        assert(ver.spec_channel_bit_capacity(ECLevel::M) == 5712);
        assert(ver.spec_channel_codewords() == 1156);
    } else if v == 22 {
        assert(ver.spec_blocks(ECLevel::M) == (46usize, 17usize, 0usize, 0usize));
        assert(46 * 17 + 0 * 0 == 782);
        assert(ver.spec_ecc_per_block(ECLevel::M) == 28);
        assert(ver.spec_channel_bit_capacity(ECLevel::M) == 6256);
        assert(ver.spec_channel_codewords() == 1258);
    } else if v == 23 {
        assert(ver.spec_blocks(ECLevel::M) == (47usize, 4usize, 48usize, 14usize));
        assert(47 * 4 + 48 * 14 == 860);
        assert(ver.spec_ecc_per_block(ECLevel::M) == 28);
        assert(ver.spec_channel_bit_capacity(ECLevel::M) == 6880);
        assert(ver.spec_channel_codewords() == 1364);
    } else if v == 24 {
        assert(ver.spec_blocks(ECLevel::M) == (45usize, 6usize, 46usize, 14usize));
        assert(45 * 6 + 46 * 14 == 914);
        assert(ver.spec_ecc_per_block(ECLevel::M) == 28);
        assert(ver.spec_channel_bit_capacity(ECLevel::M) == 7312);
        assert(ver.spec_channel_codewords() == 1474);
    } else if v == 25 {
        assert(ver.spec_blocks(ECLevel::M) == (47usize, 8usize, 48usize, 13usize));
        assert(47 * 8 + 48 * 13 == 1000);
        assert(ver.spec_ecc_per_block(ECLevel::M) == 28);
        assert(ver.spec_channel_bit_capacity(ECLevel::M) == 8000);
        assert(ver.spec_channel_codewords() == 1588);
    } else if v == 26 {
        assert(ver.spec_blocks(ECLevel::M) == (46usize, 19usize, 47usize, 4usize));
        assert(46 * 19 + 47 * 4 == 1062);
        assert(ver.spec_ecc_per_block(ECLevel::M) == 28);
        assert(ver.spec_channel_bit_capacity(ECLevel::M) == 8496);
        assert(ver.spec_channel_codewords() == 1706);
    } else if v == 27 {
        assert(ver.spec_blocks(ECLevel::M) == (45usize, 22usize, 46usize, 3usize));
        assert(45 * 22 + 46 * 3 == 1128);
        assert(ver.spec_ecc_per_block(ECLevel::M) == 28);
        assert(ver.spec_channel_bit_capacity(ECLevel::M) == 9024);
        assert(ver.spec_channel_codewords() == 1828);
    } else if v == 28 {
        assert(ver.spec_blocks(ECLevel::M) == (45usize, 3usize, 46usize, 23usize));
        assert(45 * 3 + 46 * 23 == 1193);
        assert(ver.spec_ecc_per_block(ECLevel::M) == 28);
        assert(ver.spec_channel_bit_capacity(ECLevel::M) == 9544);
        assert(ver.spec_channel_codewords() == 1921);
    } else if v == 29 {
        assert(ver.spec_blocks(ECLevel::M) == (45usize, 21usize, 46usize, 7usize));
        assert(45 * 21 + 46 * 7 == 1267);
        assert(ver.spec_ecc_per_block(ECLevel::M) == 28);
        assert(ver.spec_channel_bit_capacity(ECLevel::M) == 10136);
        assert(ver.spec_channel_codewords() == 2051);
    } else if v == 30 {
        assert(ver.spec_blocks(ECLevel::M) == (47usize, 19usize, 48usize, 10usize));
        assert(47 * 19 + 48 * 10 == 1373);
        assert(ver.spec_ecc_per_block(ECLevel::M) == 28);
        assert(ver.spec_channel_bit_capacity(ECLevel::M) == 10984);
        assert(ver.spec_channel_codewords() == 2185);
    } else if v == 31 {
        assert(ver.spec_blocks(ECLevel::M) == (46usize, 2usize, 47usize, 29usize));
        assert(46 * 2 + 47 * 29 == 1455);
        assert(ver.spec_ecc_per_block(ECLevel::M) == 28);
        assert(ver.spec_channel_bit_capacity(ECLevel::M) == 11640);
        assert(ver.spec_channel_codewords() == 2323);
    } else if v == 32 {
        assert(ver.spec_blocks(ECLevel::M) == (46usize, 10usize, 47usize, 23usize));
        assert(46 * 10 + 47 * 23 == 1541);
        assert(ver.spec_ecc_per_block(ECLevel::M) == 28);
        assert(ver.spec_channel_bit_capacity(ECLevel::M) == 12328);
        assert(ver.spec_channel_codewords() == 2465);
    } else if v == 33 {
        assert(ver.spec_blocks(ECLevel::M) == (46usize, 14usize, 47usize, 21usize));
        assert(46 * 14 + 47 * 21 == 1631);
        assert(ver.spec_ecc_per_block(ECLevel::M) == 28);
        assert(ver.spec_channel_bit_capacity(ECLevel::M) == 13048);
        assert(ver.spec_channel_codewords() == 2611);
    } else if v == 34 {
        assert(ver.spec_blocks(ECLevel::M) == (46usize, 14usize, 47usize, 23usize));
        assert(46 * 14 + 47 * 23 == 1725);
        assert(ver.spec_ecc_per_block(ECLevel::M) == 28);
        assert(ver.spec_channel_bit_capacity(ECLevel::M) == 13800);
        assert(ver.spec_channel_codewords() == 2761);
    } else if v == 35 {
        assert(ver.spec_blocks(ECLevel::M) == (47usize, 12usize, 48usize, 26usize));
        assert(47 * 12 + 48 * 26 == 1812);
        assert(ver.spec_ecc_per_block(ECLevel::M) == 28);
        assert(ver.spec_channel_bit_capacity(ECLevel::M) == 14496);
        assert(ver.spec_channel_codewords() == 2876);
    } else if v == 36 {
        assert(ver.spec_blocks(ECLevel::M) == (47usize, 6usize, 48usize, 34usize));
        assert(47 * 6 + 48 * 34 == 1914);
        assert(ver.spec_ecc_per_block(ECLevel::M) == 28);
        assert(ver.spec_channel_bit_capacity(ECLevel::M) == 15312);
        assert(ver.spec_channel_codewords() == 3034);
    } else if v == 37 {
        assert(ver.spec_blocks(ECLevel::M) == (46usize, 29usize, 47usize, 14usize));
        assert(46 * 29 + 47 * 14 == 1992);
        assert(ver.spec_ecc_per_block(ECLevel::M) == 28);
        assert(ver.spec_channel_bit_capacity(ECLevel::M) == 15936);
        assert(ver.spec_channel_codewords() == 3196);
    } else if v == 38 {
        assert(ver.spec_blocks(ECLevel::M) == (46usize, 13usize, 47usize, 32usize));
        assert(46 * 13 + 47 * 32 == 2102);
        assert(ver.spec_ecc_per_block(ECLevel::M) == 28);
        assert(ver.spec_channel_bit_capacity(ECLevel::M) == 16816);
        assert(ver.spec_channel_codewords() == 3362);
    } else if v == 39 {
        assert(ver.spec_blocks(ECLevel::M) == (47usize, 40usize, 48usize, 7usize));
        assert(47 * 40 + 48 * 7 == 2216);
        assert(ver.spec_ecc_per_block(ECLevel::M) == 28);
        assert(ver.spec_channel_bit_capacity(ECLevel::M) == 17728);
        assert(ver.spec_channel_codewords() == 3532);
    } else {
        assert(ver.spec_blocks(ECLevel::M) == (47usize, 18usize, 48usize, 31usize));
        assert(47 * 18 + 48 * 31 == 2334);
        assert(ver.spec_ecc_per_block(ECLevel::M) == 28);
        assert(ver.spec_channel_bit_capacity(ECLevel::M) == 18672);
        assert(ver.spec_channel_codewords() == 3706);
    }
}

#[verifier::rlimit(100)]
#[verifier::spinoff_prover]
proof fn lemma_blocks_q(ver: Version)
    requires
        ver.valid(),
        ver is Normal,
    ensures
        ({
            let ecl = ECLevel::Q;
            let (s1, c1, s2, c2) = ver.spec_blocks(ecl);
            &&& 1 <= s1
            &&& 1 <= c1
            &&& (s2 == 0 <==> c2 == 0)
            &&& s2 == 0 || s2 == s1 + 1
            &&& s1 * c1 + s2 * c2 == ver.spec_channel_bit_capacity(ecl) / 8
            &&& c1 + c2 <= 81
            &&& 1 <= ver.spec_ecc_per_block(ecl) <= 30
            &&& s1 + 1 + ver.spec_ecc_per_block(ecl) <= 256
            &&& (c1 + c2) * ver.spec_ecc_per_block(ecl) + ver.spec_channel_bit_capacity(ecl) / 8
                == ver.spec_channel_codewords()
        }),
{
    let v = ver->Normal_0;
    if v == 1 {
        assert(ver.spec_blocks(ECLevel::Q) == (13usize, 1usize, 0usize, 0usize));
        assert(13 * 1 + 0 * 0 == 13);
        assert(ver.spec_ecc_per_block(ECLevel::Q) == 13);
        assert(ver.spec_channel_bit_capacity(ECLevel::Q) == 104);
        assert(ver.spec_channel_codewords() == 26);
    } else if v == 2 {
        assert(ver.spec_blocks(ECLevel::Q) == (22usize, 1usize, 0usize, 0usize));
        assert(22 * 1 + 0 * 0 == 22);
        assert(ver.spec_ecc_per_block(ECLevel::Q) == 22);
        assert(ver.spec_channel_bit_capacity(ECLevel::Q) == 176);
        assert(ver.spec_channel_codewords() == 44);
    } else if v == 3 {
        assert(ver.spec_blocks(ECLevel::Q) == (17usize, 2usize, 0usize, 0usize));
        assert(17 * 2 + 0 * 0 == 34);
        assert(ver.spec_ecc_per_block(ECLevel::Q) == 18);
        assert(ver.spec_channel_bit_capacity(ECLevel::Q) == 272);
        assert(ver.spec_channel_codewords() == 70);
    } else if v == 4 {
        assert(ver.spec_blocks(ECLevel::Q) == (24usize, 2usize, 0usize, 0usize));
        assert(24 * 2 + 0 * 0 == 48);
        assert(ver.spec_ecc_per_block(ECLevel::Q) == 26);
        assert(ver.spec_channel_bit_capacity(ECLevel::Q) == 384);
        assert(ver.spec_channel_codewords() == 100);
    } else if v == 5 {
        assert(ver.spec_blocks(ECLevel::Q) == (15usize, 2usize, 16usize, 2usize));
        assert(15 * 2 + 16 * 2 == 62);
        assert(ver.spec_ecc_per_block(ECLevel::Q) == 18);
        assert(ver.spec_channel_bit_capacity(ECLevel::Q) == 496);
        assert(ver.spec_channel_codewords() == 134);
    } else if v == 6 {
        assert(ver.spec_blocks(ECLevel::Q) == (19usize, 4usize, 0usize, 0usize));
        assert(19 * 4 + 0 * 0 == 76);
        assert(ver.spec_ecc_per_block(ECLevel::Q) == 24);
        assert(ver.spec_channel_bit_capacity(ECLevel::Q) == 608);
        assert(ver.spec_channel_codewords() == 172);
    } else if v == 7 {
        assert(ver.spec_blocks(ECLevel::Q) == (14usize, 2usize, 15usize, 4usize));
        assert(14 * 2 + 15 * 4 == 88);
        assert(ver.spec_ecc_per_block(ECLevel::Q) == 18);
        assert(ver.spec_channel_bit_capacity(ECLevel::Q) == 704);
        assert(ver.spec_channel_codewords() == 196);
    } else if v == 8 {
        assert(ver.spec_blocks(ECLevel::Q) == (18usize, 4usize, 19usize, 2usize));
        assert(18 * 4 + 19 * 2 == 110);
        assert(ver.spec_ecc_per_block(ECLevel::Q) == 22);
        assert(ver.spec_channel_bit_capacity(ECLevel::Q) == 880);
        assert(ver.spec_channel_codewords() == 242);
    } else if v == 9 {
        assert(ver.spec_blocks(ECLevel::Q) == (16usize, 4usize, 17usize, 4usize));
        assert(16 * 4 + 17 * 4 == 132);
        assert(ver.spec_ecc_per_block(ECLevel::Q) == 20);
        assert(ver.spec_channel_bit_capacity(ECLevel::Q) == 1056);
        assert(ver.spec_channel_codewords() == 292);
    } else if v == 10 {
        assert(ver.spec_blocks(ECLevel::Q) == (19usize, 6usize, 20usize, 2usize));
        assert(19 * 6 + 20 * 2 == 154);
        assert(ver.spec_ecc_per_block(ECLevel::Q) == 24);
        assert(ver.spec_channel_bit_capacity(ECLevel::Q) == 1232);
        assert(ver.spec_channel_codewords() == 346);
    } else if v == 11 {
        assert(ver.spec_blocks(ECLevel::Q) == (22usize, 4usize, 23usize, 4usize));
        assert(22 * 4 + 23 * 4 == 180);
        assert(ver.spec_ecc_per_block(ECLevel::Q) == 28);
        assert(ver.spec_channel_bit_capacity(ECLevel::Q) == 1440);
        assert(ver.spec_channel_codewords() == 404);
    } else if v == 12 {
        assert(ver.spec_blocks(ECLevel::Q) == (20usize, 4usize, 21usize, 6usize));
        assert(20 * 4 + 21 * 6 == 206);
        assert(ver.spec_ecc_per_block(ECLevel::Q) == 26);
        assert(ver.spec_channel_bit_capacity(ECLevel::Q) == 1648);
        assert(ver.spec_channel_codewords() == 466);
    } else if v == 13 {
        assert(ver.spec_blocks(ECLevel::Q) == (20usize, 8usize, 21usize, 4usize));
        assert(20 * 8 + 21 * 4 == 244);
        assert(ver.spec_ecc_per_block(ECLevel::Q) == 24);
        assert(ver.spec_channel_bit_capacity(ECLevel::Q) == 1952);
        assert(ver.spec_channel_codewords() == 532);
    } else if v == 14 {
        assert(ver.spec_blocks(ECLevel::Q) == (16usize, 11usize, 17usize, 5usize));
        assert(16 * 11 + 17 * 5 == 261);
        assert(ver.spec_ecc_per_block(ECLevel::Q) == 20);
        assert(ver.spec_channel_bit_capacity(ECLevel::Q) == 2088);
        assert(ver.spec_channel_codewords() == 581);
    } else if v == 15 {
        assert(ver.spec_blocks(ECLevel::Q) == (24usize, 5usize, 25usize, 7usize));
        assert(24 * 5 + 25 * 7 == 295);
        assert(ver.spec_ecc_per_block(ECLevel::Q) == 30);
        assert(ver.spec_channel_bit_capacity(ECLevel::Q) == 2360);
        assert(ver.spec_channel_codewords() == 655);
    } else if v == 16 {
        assert(ver.spec_blocks(ECLevel::Q) == (19usize, 15usize, 20usize, 2usize));
        assert(19 * 15 + 20 * 2 == 325);
        assert(ver.spec_ecc_per_block(ECLevel::Q) == 24);
        assert(ver.spec_channel_bit_capacity(ECLevel::Q) == 2600);
        assert(ver.spec_channel_codewords() == 733);
    } else if v == 17 {
        assert(ver.spec_blocks(ECLevel::Q) == (22usize, 1usize, 23usize, 15usize));
        assert(22 * 1 + 23 * 15 == 367);
        assert(ver.spec_ecc_per_block(ECLevel::Q) == 28);
        assert(ver.spec_channel_bit_capacity(ECLevel::Q) == 2936);
        assert(ver.spec_channel_codewords() == 815);
    } else if v == 18 {
        assert(ver.spec_blocks(ECLevel::Q) == (22usize, 17usize, 23usize, 1usize));
        assert(22 * 17 + 23 * 1 == 397);
        assert(ver.spec_ecc_per_block(ECLevel::Q) == 28);
        assert(ver.spec_channel_bit_capacity(ECLevel::Q) == 3176);
        assert(ver.spec_channel_codewords() == 901);
    } else if v == 19 {
        assert(ver.spec_blocks(ECLevel::Q) == (21usize, 17usize, 22usize, 4usize));
        assert(21 * 17 + 22 * 4 == 445);
        assert(ver.spec_ecc_per_block(ECLevel::Q) == 26);
        assert(ver.spec_channel_bit_capacity(ECLevel::Q) == 3560);
        assert(ver.spec_channel_codewords() == 991);
    } else if v == 20 {
        assert(ver.spec_blocks(ECLevel::Q) == (24usize, 15usize, 25usize, 5usize));
        assert(24 * 15 + 25 * 5 == 485);
        assert(ver.spec_ecc_per_block(ECLevel::Q) == 30);
        assert(ver.spec_channel_bit_capacity(ECLevel::Q) == 3880);
        assert(ver.spec_channel_codewords() == 1085);
    } else if v == 21 {
        assert(ver.spec_blocks(ECLevel::Q) == (22usize, 17usize, 23usize, 6usize));
        assert(22 * 17 + 23 * 6 == 512);
        assert(ver.spec_ecc_per_block(ECLevel::Q) == 28);
        assert(ver.spec_channel_bit_capacity(ECLevel::Q) == 4096);
        assert(ver.spec_channel_codewords() == 1156);
    } else if v == 22 {
        assert(ver.spec_blocks(ECLevel::Q) == (24usize, 7usize, 25usize, 16usize));
        assert(24 * 7 + 25 * 16 == 568);
        assert(ver.spec_ecc_per_block(ECLevel::Q) == 30);
        assert(ver.spec_channel_bit_capacity(ECLevel::Q) == 4544);
        assert(ver.spec_channel_codewords() == 1258);
    } else if v == 23 {
        assert(ver.spec_blocks(ECLevel::Q) == (24usize, 11usize, 25usize, 14usize));
        assert(24 * 11 + 25 * 14 == 614);
        assert(ver.spec_ecc_per_block(ECLevel::Q) == 30);
        assert(ver.spec_channel_bit_capacity(ECLevel::Q) == 4912);
        assert(ver.spec_channel_codewords() == 1364);
    } else if v == 24 {
        assert(ver.spec_blocks(ECLevel::Q) == (24usize, 11usize, 25usize, 16usize));
        assert(24 * 11 + 25 * 16 == 664);
        assert(ver.spec_ecc_per_block(ECLevel::Q) == 30);
        assert(ver.spec_channel_bit_capacity(ECLevel::Q) == 5312);
        assert(ver.spec_channel_codewords() == 1474);
    } else if v == 25 {
        assert(ver.spec_blocks(ECLevel::Q) == (24usize, 7usize, 25usize, 22usize));
        assert(24 * 7 + 25 * 22 == 718);
        assert(ver.spec_ecc_per_block(ECLevel::Q) == 30);
        assert(ver.spec_channel_bit_capacity(ECLevel::Q) == 5744);
        assert(ver.spec_channel_codewords() == 1588);
    } else if v == 26 {
        assert(ver.spec_blocks(ECLevel::Q) == (22usize, 28usize, 23usize, 6usize));
        assert(22 * 28 + 23 * 6 == 754);
        assert(ver.spec_ecc_per_block(ECLevel::Q) == 28);
        assert(ver.spec_channel_bit_capacity(ECLevel::Q) == 6032);
        assert(ver.spec_channel_codewords() == 1706);
    } else if v == 27 {
        assert(ver.spec_blocks(ECLevel::Q) == (23usize, 8usize, 24usize, 26usize));
        assert(23 * 8 + 24 * 26 == 808);
        assert(ver.spec_ecc_per_block(ECLevel::Q) == 30);
        assert(ver.spec_channel_bit_capacity(ECLevel::Q) == 6464);
        assert(ver.spec_channel_codewords() == 1828);
    } else if v == 28 {
        assert(ver.spec_blocks(ECLevel::Q) == (24usize, 4usize, 25usize, 31usize));
        assert(24 * 4 + 25 * 31 == 871);
        assert(ver.spec_ecc_per_block(ECLevel::Q) == 30);
        assert(ver.spec_channel_bit_capacity(ECLevel::Q) == 6968);
        assert(ver.spec_channel_codewords() == 1921);
    } else if v == 29 {
        assert(ver.spec_blocks(ECLevel::Q) == (23usize, 1usize, 24usize, 37usize));
        assert(23 * 1 + 24 * 37 == 911);
        assert(ver.spec_ecc_per_block(ECLevel::Q) == 30);
        assert(ver.spec_channel_bit_capacity(ECLevel::Q) == 7288);
        assert(ver.spec_channel_codewords() == 2051);
    } else if v == 30 {
        assert(ver.spec_blocks(ECLevel::Q) == (24usize, 15usize, 25usize, 25usize));
        assert(24 * 15 + 25 * 25 == 985);
        assert(ver.spec_ecc_per_block(ECLevel::Q) == 30);
        assert(ver.spec_channel_bit_capacity(ECLevel::Q) == 7880);
        assert(ver.spec_channel_codewords() == 2185);
    } else if v == 31 {
        assert(ver.spec_blocks(ECLevel::Q) == (24usize, 42usize, 25usize, 1usize));
        assert(24 * 42 + 25 * 1 == 1033);
        assert(ver.spec_ecc_per_block(ECLevel::Q) == 30);
        assert(ver.spec_channel_bit_capacity(ECLevel::Q) == 8264);
        assert(ver.spec_channel_codewords() == 2323);
    } else if v == 32 {
        assert(ver.spec_blocks(ECLevel::Q) == (24usize, 10usize, 25usize, 35usize));
        assert(24 * 10 + 25 * 35 == 1115);
        assert(ver.spec_ecc_per_block(ECLevel::Q) == 30);
        assert(ver.spec_channel_bit_capacity(ECLevel::Q) == 8920);
        assert(ver.spec_channel_codewords() == 2465);
    } else if v == 33 {
        assert(ver.spec_blocks(ECLevel::Q) == (24usize, 29usize, 25usize, 19usize));
        assert(24 * 29 + 25 * 19 == 1171);
        assert(ver.spec_ecc_per_block(ECLevel::Q) == 30);
        assert(ver.spec_channel_bit_capacity(ECLevel::Q) == 9368);
        assert(ver.spec_channel_codewords() == 2611);
    } else if v == 34 {
        assert(ver.spec_blocks(ECLevel::Q) == (24usize, 44usize, 25usize, 7usize));
        assert(24 * 44 + 25 * 7 == 1231);
        assert(ver.spec_ecc_per_block(ECLevel::Q) == 30);
        assert(ver.spec_channel_bit_capacity(ECLevel::Q) == 9848);
        assert(ver.spec_channel_codewords() == 2761);
    } else if v == 35 {
        assert(ver.spec_blocks(ECLevel::Q) == (24usize, 39usize, 25usize, 14usize));
        assert(24 * 39 + 25 * 14 == 1286);
        assert(ver.spec_ecc_per_block(ECLevel::Q) == 30);
        assert(ver.spec_channel_bit_capacity(ECLevel::Q) == 10288);
        assert(ver.spec_channel_codewords() == 2876);
    } else if v == 36 {
        assert(ver.spec_blocks(ECLevel::Q) == (24usize, 46usize, 25usize, 10usize));
        assert(24 * 46 + 25 * 10 == 1354);
        assert(ver.spec_ecc_per_block(ECLevel::Q) == 30);
        assert(ver.spec_channel_bit_capacity(ECLevel::Q) == 10832);
        assert(ver.spec_channel_codewords() == 3034);
    } else if v == 37 {
        assert(ver.spec_blocks(ECLevel::Q) == (24usize, 49usize, 25usize, 10usize));
        assert(24 * 49 + 25 * 10 == 1426);
        assert(ver.spec_ecc_per_block(ECLevel::Q) == 30);
        assert(ver.spec_channel_bit_capacity(ECLevel::Q) == 11408);
        assert(ver.spec_channel_codewords() == 3196);
    } else if v == 38 {
        assert(ver.spec_blocks(ECLevel::Q) == (24usize, 48usize, 25usize, 14usize));
        assert(24 * 48 + 25 * 14 == 1502);
        assert(ver.spec_ecc_per_block(ECLevel::Q) == 30);
        assert(ver.spec_channel_bit_capacity(ECLevel::Q) == 12016);
        assert(ver.spec_channel_codewords() == 3362);
    } else if v == 39 {
        assert(ver.spec_blocks(ECLevel::Q) == (24usize, 43usize, 25usize, 22usize));
        assert(24 * 43 + 25 * 22 == 1582);
        assert(ver.spec_ecc_per_block(ECLevel::Q) == 30);
        assert(ver.spec_channel_bit_capacity(ECLevel::Q) == 12656);
        assert(ver.spec_channel_codewords() == 3532);
    } else {
        assert(ver.spec_blocks(ECLevel::Q) == (24usize, 34usize, 25usize, 34usize));
        assert(24 * 34 + 25 * 34 == 1666);
        assert(ver.spec_ecc_per_block(ECLevel::Q) == 30);
        assert(ver.spec_channel_bit_capacity(ECLevel::Q) == 13328);
        assert(ver.spec_channel_codewords() == 3706);
    }
}

#[verifier::rlimit(100)]
#[verifier::spinoff_prover]
proof fn lemma_blocks_h(ver: Version)
    requires
        ver.valid(),
        ver is Normal,
    ensures
        ({
            let ecl = ECLevel::H;
            let (s1, c1, s2, c2) = ver.spec_blocks(ecl);
            &&& 1 <= s1
            &&& 1 <= c1
            &&& (s2 == 0 <==> c2 == 0)
            &&& s2 == 0 || s2 == s1 + 1
            &&& s1 * c1 + s2 * c2 == ver.spec_channel_bit_capacity(ecl) / 8
            &&& c1 + c2 <= 81
            &&& 1 <= ver.spec_ecc_per_block(ecl) <= 30
            &&& s1 + 1 + ver.spec_ecc_per_block(ecl) <= 256
            &&& (c1 + c2) * ver.spec_ecc_per_block(ecl) + ver.spec_channel_bit_capacity(ecl) / 8
                == ver.spec_channel_codewords()
        }),
{
    let v = ver->Normal_0;
    if v == 1 {
        assert(ver.spec_blocks(ECLevel::H) == (9usize, 1usize, 0usize, 0usize));
        assert(9 * 1 + 0 * 0 == 9);
        assert(ver.spec_ecc_per_block(ECLevel::H) == 17);
        assert(ver.spec_channel_bit_capacity(ECLevel::H) == 72);
        assert(ver.spec_channel_codewords() == 26);
    } else if v == 2 {
        assert(ver.spec_blocks(ECLevel::H) == (16usize, 1usize, 0usize, 0usize));
        assert(16 * 1 + 0 * 0 == 16);
        assert(ver.spec_ecc_per_block(ECLevel::H) == 28);
        assert(ver.spec_channel_bit_capacity(ECLevel::H) == 128);
        assert(ver.spec_channel_codewords() == 44);
    } else if v == 3 {
        assert(ver.spec_blocks(ECLevel::H) == (13usize, 2usize, 0usize, 0usize));
        assert(13 * 2 + 0 * 0 == 26);
        assert(ver.spec_ecc_per_block(ECLevel::H) == 22);
        assert(ver.spec_channel_bit_capacity(ECLevel::H) == 208);
        assert(ver.spec_channel_codewords() == 70);
    } else if v == 4 {
        assert(ver.spec_blocks(ECLevel::H) == (9usize, 4usize, 0usize, 0usize));
        assert(9 * 4 + 0 * 0 == 36);
        assert(ver.spec_ecc_per_block(ECLevel::H) == 16);
        assert(ver.spec_channel_bit_capacity(ECLevel::H) == 288);
        assert(ver.spec_channel_codewords() == 100);
    } else if v == 5 {
        assert(ver.spec_blocks(ECLevel::H) == (11usize, 2usize, 12usize, 2usize));
        assert(11 * 2 + 12 * 2 == 46);
        assert(ver.spec_ecc_per_block(ECLevel::H) == 22);
        assert(ver.spec_channel_bit_capacity(ECLevel::H) == 368);
        assert(ver.spec_channel_codewords() == 134);
    } else if v == 6 {
        assert(ver.spec_blocks(ECLevel::H) == (15usize, 4usize, 0usize, 0usize));
        assert(15 * 4 + 0 * 0 == 60);
        assert(ver.spec_ecc_per_block(ECLevel::H) == 28);
        assert(ver.spec_channel_bit_capacity(ECLevel::H) == 480);
        assert(ver.spec_channel_codewords() == 172);
    } else if v == 7 {
        assert(ver.spec_blocks(ECLevel::H) == (13usize, 4usize, 14usize, 1usize));
        assert(13 * 4 + 14 * 1 == 66);
        assert(ver.spec_ecc_per_block(ECLevel::H) == 26);
        assert(ver.spec_channel_bit_capacity(ECLevel::H) == 528);
        assert(ver.spec_channel_codewords() == 196);
    } else if v == 8 {
        assert(ver.spec_blocks(ECLevel::H) == (14usize, 4usize, 15usize, 2usize));
        assert(14 * 4 + 15 * 2 == 86);
        assert(ver.spec_ecc_per_block(ECLevel::H) == 26);
        assert(ver.spec_channel_bit_capacity(ECLevel::H) == 688);
        assert(ver.spec_channel_codewords() == 242);
    } else if v == 9 {
        assert(ver.spec_blocks(ECLevel::H) == (12usize, 4usize, 13usize, 4usize));
        assert(12 * 4 + 13 * 4 == 100);
        assert(ver.spec_ecc_per_block(ECLevel::H) == 24);
        assert(ver.spec_channel_bit_capacity(ECLevel::H) == 800);
        assert(ver.spec_channel_codewords() == 292);
    } else if v == 10 {
        assert(ver.spec_blocks(ECLevel::H) == (15usize, 6usize, 16usize, 2usize));
        assert(15 * 6 + 16 * 2 == 122);
        assert(ver.spec_ecc_per_block(ECLevel::H) == 28);
        assert(ver.spec_channel_bit_capacity(ECLevel::H) == 976);
        assert(ver.spec_channel_codewords() == 346);
    } else if v == 11 {
        assert(ver.spec_blocks(ECLevel::H) == (12usize, 3usize, 13usize, 8usize));
        assert(12 * 3 + 13 * 8 == 140);
        assert(ver.spec_ecc_per_block(ECLevel::H) == 24);
        assert(ver.spec_channel_bit_capacity(ECLevel::H) == 1120);
        assert(ver.spec_channel_codewords() == 404);
    } else if v == 12 {
        assert(ver.spec_blocks(ECLevel::H) == (14usize, 7usize, 15usize, 4usize));
        assert(14 * 7 + 15 * 4 == 158);
        assert(ver.spec_ecc_per_block(ECLevel::H) == 28);
        assert(ver.spec_channel_bit_capacity(ECLevel::H) == 1264);
        assert(ver.spec_channel_codewords() == 466);
    } else if v == 13 {
        assert(ver.spec_blocks(ECLevel::H) == (11usize, 12usize, 12usize, 4usize));
        assert(11 * 12 + 12 * 4 == 180);
        assert(ver.spec_ecc_per_block(ECLevel::H) == 22);
        assert(ver.spec_channel_bit_capacity(ECLevel::H) == 1440);
        assert(ver.spec_channel_codewords() == 532);
    } else if v == 14 {
        assert(ver.spec_blocks(ECLevel::H) == (12usize, 11usize, 13usize, 5usize));
        assert(12 * 11 + 13 * 5 == 197);
        assert(ver.spec_ecc_per_block(ECLevel::H) == 24);
        assert(ver.spec_channel_bit_capacity(ECLevel::H) == 1576);
        assert(ver.spec_channel_codewords() == 581);
    } else if v == 15 {
        assert(ver.spec_blocks(ECLevel::H) == (12usize, 11usize, 13usize, 7usize));
        assert(12 * 11 + 13 * 7 == 223);
        assert(ver.spec_ecc_per_block(ECLevel::H) == 24);
        assert(ver.spec_channel_bit_capacity(ECLevel::H) == 1784);
        assert(ver.spec_channel_codewords() == 655);
    } else if v == 16 {
        assert(ver.spec_blocks(ECLevel::H) == (15usize, 3usize, 16usize, 13usize));
        assert(15 * 3 + 16 * 13 == 253);
        assert(ver.spec_ecc_per_block(ECLevel::H) == 30);
        assert(ver.spec_channel_bit_capacity(ECLevel::H) == 2024);
        assert(ver.spec_channel_codewords() == 733);
    } else if v == 17 {
        assert(ver.spec_blocks(ECLevel::H) == (14usize, 2usize, 15usize, 17usize));
        assert(14 * 2 + 15 * 17 == 283);
        assert(ver.spec_ecc_per_block(ECLevel::H) == 28);
        assert(ver.spec_channel_bit_capacity(ECLevel::H) == 2264);
        assert(ver.spec_channel_codewords() == 815);
    } else if v == 18 {
        assert(ver.spec_blocks(ECLevel::H) == (14usize, 2usize, 15usize, 19usize));
        assert(14 * 2 + 15 * 19 == 313);
        assert(ver.spec_ecc_per_block(ECLevel::H) == 28);
        assert(ver.spec_channel_bit_capacity(ECLevel::H) == 2504);
        assert(ver.spec_channel_codewords() == 901);
    } else if v == 19 {
        assert(ver.spec_blocks(ECLevel::H) == (13usize, 9usize, 14usize, 16usize));
        assert(13 * 9 + 14 * 16 == 341);
        assert(ver.spec_ecc_per_block(ECLevel::H) == 26);
        assert(ver.spec_channel_bit_capacity(ECLevel::H) == 2728);
        assert(ver.spec_channel_codewords() == 991);
    } else if v == 20 {
        assert(ver.spec_blocks(ECLevel::H) == (15usize, 15usize, 16usize, 10usize));
        assert(15 * 15 + 16 * 10 == 385);
        assert(ver.spec_ecc_per_block(ECLevel::H) == 28);
        assert(ver.spec_channel_bit_capacity(ECLevel::H) == 3080);
        assert(ver.spec_channel_codewords() == 1085);
    } else if v == 21 {
        assert(ver.spec_blocks(ECLevel::H) == (16usize, 19usize, 17usize, 6usize));
        assert(16 * 19 + 17 * 6 == 406);
        assert(ver.spec_ecc_per_block(ECLevel::H) == 30);
        assert(ver.spec_channel_bit_capacity(ECLevel::H) == 3248);
        assert(ver.spec_channel_codewords() == 1156);
    } else if v == 22 {
        assert(ver.spec_blocks(ECLevel::H) == (13usize, 34usize, 0usize, 0usize));
        assert(13 * 34 + 0 * 0 == 442);
        assert(ver.spec_ecc_per_block(ECLevel::H) == 24);
        assert(ver.spec_channel_bit_capacity(ECLevel::H) == 3536);
        assert(ver.spec_channel_codewords() == 1258);
    } else if v == 23 {
        assert(ver.spec_blocks(ECLevel::H) == (15usize, 16usize, 16usize, 14usize));
        assert(15 * 16 + 16 * 14 == 464);
        assert(ver.spec_ecc_per_block(ECLevel::H) == 30);
        assert(ver.spec_channel_bit_capacity(ECLevel::H) == 3712);
        assert(ver.spec_channel_codewords() == 1364);
    } else if v == 24 {
        assert(ver.spec_blocks(ECLevel::H) == (16usize, 30usize, 17usize, 2usize));
        assert(16 * 30 + 17 * 2 == 514);
        assert(ver.spec_ecc_per_block(ECLevel::H) == 30);
        assert(ver.spec_channel_bit_capacity(ECLevel::H) == 4112);
        assert(ver.spec_channel_codewords() == 1474);
    } else if v == 25 {
        assert(ver.spec_blocks(ECLevel::H) == (15usize, 22usize, 16usize, 13usize));
        assert(15 * 22 + 16 * 13 == 538);
        assert(ver.spec_ecc_per_block(ECLevel::H) == 30);
        assert(ver.spec_channel_bit_capacity(ECLevel::H) == 4304);
        assert(ver.spec_channel_codewords() == 1588);
    } else if v == 26 {
        assert(ver.spec_blocks(ECLevel::H) == (16usize, 33usize, 17usize, 4usize));
        assert(16 * 33 + 17 * 4 == 596);
        assert(ver.spec_ecc_per_block(ECLevel::H) == 30);
        assert(ver.spec_channel_bit_capacity(ECLevel::H) == 4768);
        assert(ver.spec_channel_codewords() == 1706);
    } else if v == 27 {
        assert(ver.spec_blocks(ECLevel::H) == (15usize, 12usize, 16usize, 28usize));
        assert(15 * 12 + 16 * 28 == 628);
        assert(ver.spec_ecc_per_block(ECLevel::H) == 30);
        assert(ver.spec_channel_bit_capacity(ECLevel::H) == 5024);
        assert(ver.spec_channel_codewords() == 1828);
    } else if v == 28 {
        assert(ver.spec_blocks(ECLevel::H) == (15usize, 11usize, 16usize, 31usize));
        assert(15 * 11 + 16 * 31 == 661);
        assert(ver.spec_ecc_per_block(ECLevel::H) == 30);
        assert(ver.spec_channel_bit_capacity(ECLevel::H) == 5288);
        assert(ver.spec_channel_codewords() == 1921);
    } else if v == 29 {
        assert(ver.spec_blocks(ECLevel::H) == (15usize, 19usize, 16usize, 26usize));
        assert(15 * 19 + 16 * 26 == 701);
        assert(ver.spec_ecc_per_block(ECLevel::H) == 30);
        assert(ver.spec_channel_bit_capacity(ECLevel::H) == 5608);
        assert(ver.spec_channel_codewords() == 2051);
    } else if v == 30 {
        assert(ver.spec_blocks(ECLevel::H) == (15usize, 23usize, 16usize, 25usize));
        assert(15 * 23 + 16 * 25 == 745);
        assert(ver.spec_ecc_per_block(ECLevel::H) == 30);
        assert(ver.spec_channel_bit_capacity(ECLevel::H) == 5960);
        assert(ver.spec_channel_codewords() == 2185);
    } else if v == 31 {
        assert(ver.spec_blocks(ECLevel::H) == (15usize, 23usize, 16usize, 28usize));
        assert(15 * 23 + 16 * 28 == 793);
        assert(ver.spec_ecc_per_block(ECLevel::H) == 30);
        assert(ver.spec_channel_bit_capacity(ECLevel::H) == 6344);
        assert(ver.spec_channel_codewords() == 2323);
    } else if v == 32 {
        assert(ver.spec_blocks(ECLevel::H) == (15usize, 19usize, 16usize, 35usize));
        assert(15 * 19 + 16 * 35 == 845);
        assert(ver.spec_ecc_per_block(ECLevel::H) == 30);
        assert(ver.spec_channel_bit_capacity(ECLevel::H) == 6760);
        assert(ver.spec_channel_codewords() == 2465);
    } else if v == 33 {
        assert(ver.spec_blocks(ECLevel::H) == (15usize, 11usize, 16usize, 46usize));
        assert(15 * 11 + 16 * 46 == 901);
        assert(ver.spec_ecc_per_block(ECLevel::H) == 30);
        assert(ver.spec_channel_bit_capacity(ECLevel::H) == 7208);
        assert(ver.spec_channel_codewords() == 2611);
    } else if v == 34 {
        assert(ver.spec_blocks(ECLevel::H) == (16usize, 59usize, 17usize, 1usize));
        assert(16 * 59 + 17 * 1 == 961);
        assert(ver.spec_ecc_per_block(ECLevel::H) == 30);
        assert(ver.spec_channel_bit_capacity(ECLevel::H) == 7688);
        assert(ver.spec_channel_codewords() == 2761);
    } else if v == 35 {
        assert(ver.spec_blocks(ECLevel::H) == (15usize, 22usize, 16usize, 41usize));
        assert(15 * 22 + 16 * 41 == 986);
        assert(ver.spec_ecc_per_block(ECLevel::H) == 30);
        assert(ver.spec_channel_bit_capacity(ECLevel::H) == 7888);
        assert(ver.spec_channel_codewords() == 2876);
    } else if v == 36 {
        assert(ver.spec_blocks(ECLevel::H) == (15usize, 2usize, 16usize, 64usize));
        assert(15 * 2 + 16 * 64 == 1054);
        assert(ver.spec_ecc_per_block(ECLevel::H) == 30);
        assert(ver.spec_channel_bit_capacity(ECLevel::H) == 8432);
        assert(ver.spec_channel_codewords() == 3034);
    } else if v == 37 {
        assert(ver.spec_blocks(ECLevel::H) == (15usize, 24usize, 16usize, 46usize));
        assert(15 * 24 + 16 * 46 == 1096);
        assert(ver.spec_ecc_per_block(ECLevel::H) == 30);
        assert(ver.spec_channel_bit_capacity(ECLevel::H) == 8768);
        assert(ver.spec_channel_codewords() == 3196);
    } else if v == 38 {
        assert(ver.spec_blocks(ECLevel::H) == (15usize, 42usize, 16usize, 32usize));
        assert(15 * 42 + 16 * 32 == 1142);
        assert(ver.spec_ecc_per_block(ECLevel::H) == 30);
        assert(ver.spec_channel_bit_capacity(ECLevel::H) == 9136);
        assert(ver.spec_channel_codewords() == 3362);
    } else if v == 39 {
        assert(ver.spec_blocks(ECLevel::H) == (15usize, 10usize, 16usize, 67usize));
        assert(15 * 10 + 16 * 67 == 1222);
        assert(ver.spec_ecc_per_block(ECLevel::H) == 30);
        assert(ver.spec_channel_bit_capacity(ECLevel::H) == 9776);
        assert(ver.spec_channel_codewords() == 3532);
    } else {
        assert(ver.spec_blocks(ECLevel::H) == (15usize, 20usize, 16usize, 61usize));
        assert(15 * 20 + 16 * 61 == 1276);
        assert(ver.spec_ecc_per_block(ECLevel::H) == 30);
        assert(ver.spec_channel_bit_capacity(ECLevel::H) == 10208);
        assert(ver.spec_channel_codewords() == 3706);
    }
}

/// The alignment pattern coordinates of a version lie between the timing-pattern position
/// `6` and `w - 7`, in increasing order, at least five apart.
pub proof fn lemma_alignment_positions(ver: Version)
    requires
        ver.valid(),
    ensures
        ({
            let p = ver.spec_alignment_pattern();
            let w = ver.spec_width();
            &&& p.len() <= 7
            &&& forall|k: int| 0 <= k < p.len() ==> 6 <= #[trigger] p[k] <= w - 7
            &&& forall|k1: int, k2: int|
                0 <= k1 < k2 < p.len() ==> #[trigger] p[k1] + 5 <= #[trigger] p[k2]
        }),
{
    if let Version::Normal(v) = ver {
        let p = ver.spec_alignment_pattern();
        if v == 1 {
            assert(p =~= Seq::<i32>::empty());
        } else if v == 2 {
            assert(p =~= seq![6i32, 18i32]);
        } else if v == 3 {
            assert(p =~= seq![6i32, 22i32]);
        } else if v == 4 {
            assert(p =~= seq![6i32, 26i32]);
        } else if v == 5 {
            assert(p =~= seq![6i32, 30i32]);
        } else if v == 6 {
            assert(p =~= seq![6i32, 34i32]);
        } else if v == 7 {
            assert(p =~= seq![6i32, 22i32, 38i32]);
        } else if v == 8 {
            assert(p =~= seq![6i32, 24i32, 42i32]);
        } else if v == 9 {
            assert(p =~= seq![6i32, 26i32, 46i32]);
        } else if v == 10 {
            assert(p =~= seq![6i32, 28i32, 50i32]);
        } else if v == 11 {
            assert(p =~= seq![6i32, 30i32, 54i32]);
        } else if v == 12 {
            assert(p =~= seq![6i32, 32i32, 58i32]);
        } else if v == 13 {
            assert(p =~= seq![6i32, 34i32, 62i32]);
        } else if v == 14 {
            assert(p =~= seq![6i32, 26i32, 46i32, 66i32]);
        } else if v == 15 {
            assert(p =~= seq![6i32, 26i32, 48i32, 70i32]);
        } else if v == 16 {
            assert(p =~= seq![6i32, 26i32, 50i32, 74i32]);
        } else if v == 17 {
            assert(p =~= seq![6i32, 30i32, 54i32, 78i32]);
        } else if v == 18 {
            assert(p =~= seq![6i32, 30i32, 56i32, 82i32]);
        } else if v == 19 {
            assert(p =~= seq![6i32, 30i32, 58i32, 86i32]);
        } else if v == 20 {
            assert(p =~= seq![6i32, 34i32, 62i32, 90i32]);
        } else if v == 21 {
            assert(p =~= seq![6i32, 28i32, 50i32, 72i32, 94i32]);
        } else if v == 22 {
            assert(p =~= seq![6i32, 26i32, 50i32, 74i32, 98i32]);
        } else if v == 23 {
            assert(p =~= seq![6i32, 30i32, 54i32, 78i32, 102i32]);
        } else if v == 24 {
            assert(p =~= seq![6i32, 28i32, 54i32, 80i32, 106i32]);
        } else if v == 25 {
            assert(p =~= seq![6i32, 32i32, 58i32, 84i32, 110i32]);
        } else if v == 26 {
            assert(p =~= seq![6i32, 30i32, 58i32, 86i32, 114i32]);
        } else if v == 27 {
            assert(p =~= seq![6i32, 34i32, 62i32, 90i32, 118i32]);
        } else if v == 28 {
            assert(p =~= seq![6i32, 26i32, 50i32, 74i32, 98i32, 122i32]);
        } else if v == 29 {
            assert(p =~= seq![6i32, 30i32, 54i32, 78i32, 102i32, 126i32]);
        } else if v == 30 {
            assert(p =~= seq![6i32, 26i32, 52i32, 78i32, 104i32, 130i32]);
        } else if v == 31 {
            assert(p =~= seq![6i32, 30i32, 56i32, 82i32, 108i32, 134i32]);
        } else if v == 32 {
            assert(p =~= seq![6i32, 34i32, 60i32, 86i32, 112i32, 138i32]);
        } else if v == 33 {
            assert(p =~= seq![6i32, 30i32, 58i32, 86i32, 114i32, 142i32]);
        } else if v == 34 {
            assert(p =~= seq![6i32, 34i32, 62i32, 90i32, 118i32, 146i32]);
        } else if v == 35 {
            assert(p =~= seq![6i32, 30i32, 54i32, 78i32, 102i32, 126i32, 150i32]);
        } else if v == 36 {
            assert(p =~= seq![6i32, 24i32, 50i32, 76i32, 102i32, 128i32, 154i32]);
        } else if v == 37 {
            assert(p =~= seq![6i32, 28i32, 54i32, 80i32, 106i32, 132i32, 158i32]);
        } else if v == 38 {
            assert(p =~= seq![6i32, 32i32, 58i32, 84i32, 110i32, 136i32, 162i32]);
        } else if v == 39 {
            assert(p =~= seq![6i32, 26i32, 54i32, 82i32, 110i32, 138i32, 166i32]);
        } else {
            assert(p =~= seq![6i32, 30i32, 58i32, 86i32, 114i32, 142i32, 170i32]);
        }
    }
}

/// How many alignment pattern coordinates normal version `v` has.
pub open spec fn alignment_count(v: int) -> int {
    if v == 1 {
        0
    } else {
        v / 7 + 2
    }
}

// Error correction level
//------------------------------------------------------------------------------
/// Error correction level, from lowest to highest redundancy.
#[derive(Debug, PartialEq, Eq, Copy, Clone, PartialOrd, Ord, Structural)]
pub enum ECLevel {
    L,
    M,
    Q,
    H,
}

impl ECLevel {
    /// Column of this level in the per-level tables, which is also its two-bit code.
    pub open spec fn ord(self) -> int {
        match self {
            ECLevel::L => 0,
            ECLevel::M => 1,
            ECLevel::Q => 2,
            ECLevel::H => 3,
        }
    }

    pub fn ordinal(self) -> (r: usize)
        ensures
            r == self.ord(),
    {
        match self {
            ECLevel::L => 0,
            ECLevel::M => 1,
            ECLevel::Q => 2,
            ECLevel::H => 3,
        }
    }

    /// The level with column `value`.
    pub fn from_u8(value: u8) -> (r: Self)
        requires
            value < 4,
        ensures
            r.ord() == value,
    {
        match value {
            0 => ECLevel::L,
            1 => ECLevel::M,
            2 => ECLevel::Q,
            _ => ECLevel::H,
        }
    }
}

// Color
//------------------------------------------------------------------------------
/// A module colour; the three bits are the red, green and blue channels.
#[derive(Debug, Copy, Clone, PartialEq, Eq, Structural)]
pub enum Color {
    Black,
    Red,
    Green,
    Blue,
    Yellow,
    Magenta,
    Cyan,
    White,
}

/// The colour whose red, green and blue bits are the low three bits of `b`.
pub open spec fn color_of_bits(b: u8) -> Color {
    let v = b % 8;
    if v == 0 {
        Color::Black
    } else if v == 4 {
        Color::Red
    } else if v == 2 {
        Color::Green
    } else if v == 1 {
        Color::Blue
    } else if v == 6 {
        Color::Yellow
    } else if v == 5 {
        Color::Magenta
    } else if v == 3 {
        Color::Cyan
    } else {
        Color::White
    }
}

impl Color {
    /// Red, green and blue bits, red highest.
    pub open spec fn rgb(self) -> u8 {
        match self {
            Color::Black => 0b000,
            Color::Red => 0b100,
            Color::Green => 0b010,
            Color::Blue => 0b001,
            Color::Yellow => 0b110,
            Color::Magenta => 0b101,
            Color::Cyan => 0b011,
            Color::White => 0b111,
        }
    }

    pub fn bits(self) -> (r: u8)
        ensures
            r == self.rgb(),
    {
        match self {
            Color::Black => 0b000,
            Color::Red => 0b100,
            Color::Green => 0b010,
            Color::Blue => 0b001,
            Color::Yellow => 0b110,
            Color::Magenta => 0b101,
            Color::Cyan => 0b011,
            Color::White => 0b111,
        }
    }

    /// The colour of the low three bits of `value`.
    pub fn from_bits(value: u8) -> (r: Self)
        ensures
            r == color_of_bits(value),
            r.rgb() == value % 8,
    {
        proof {
            assert(value & 0b111u8 == value % 8) by (bit_vector);
        }
        match value & 0b111 {
            0b000 => Color::Black,
            0b100 => Color::Red,
            0b010 => Color::Green,
            0b001 => Color::Blue,
            0b110 => Color::Yellow,
            0b101 => Color::Magenta,
            0b011 => Color::Cyan,
            _ => Color::White,
        }
    }

    /// White for a light module, black for a dark one.
    pub fn from_bool(value: bool) -> (r: Self)
        ensures
            r == (if value {
                Color::White
            } else {
                Color::Black
            }),
    {
        if value {
            Color::White
        } else {
            Color::Black
        }
    }

    /// The complementary colour: every channel flipped.
    pub fn invert(self) -> (r: Self)
        ensures
            r.rgb() == 7 - self.rgb(),
            r == color_of_bits((7 - self.rgb()) as u8),
    {
        let b = self.bits();
        proof {
            assert(b < 8 ==> (!b) % 8 == 7 - b) by (bit_vector);
        }
        Color::from_bits(!b)
    }

    /// The bit a reader takes from the colour: 1 where the red channel is off.
    pub fn to_u32(self) -> (r: u32)
        ensures
            r == (if self.rgb() >= 4 {
                0u32
            } else {
                1u32
            }),
    {
        match self {
            Color::White => 0,
            Color::Black => 1,
            Color::Red | Color::Yellow | Color::Magenta => 0,
            _ => 1,
        }
    }

    /// `light` for white, `dark` for black.
    pub fn select<T>(&self, light: T, dark: T) -> (r: T)
        requires
            *self == Color::White || *self == Color::Black,
        ensures
            r == (if *self == Color::White {
                light
            } else {
                dark
            }),
    {
        match self {
            Color::White => light,
            _ => dark,
        }
    }
}

// Format information
//------------------------------------------------------------------------------
/// The five data bits of the format information: level code then mask.
pub open spec fn format_data(ecl: ECLevel, mask: MaskingPattern) -> int {
    (if ecl.ord() % 2 == 0 {
        ecl.ord() + 1
    } else {
        ecl.ord() - 1
    }) * 8 + mask.spec_value()
}

/// The masked, error-protected 15-bit format information of a normal symbol.
pub fn generate_format_info_qr(ecl: ECLevel, mask: MaskingPattern) -> (r: u32)
    ensures
        r == FORMAT_INFOS_QR[format_data(ecl, mask)],
        mask.spec_value() < 8,
{
    let e = ecl.ordinal();
    let m = mask.value();
    proof {
        assert(e < 4 && m < 8 ==> ((e ^ 1usize) << 3usize) | (m as usize) == (if e % 2 == 0 {
            e + 1
        } else {
            e - 1
        }) * 8 + m) by (bit_vector);
    }
    let format_data = ((e ^ 1) << 3) | (m as usize);
    FORMAT_INFOS_QR[format_data]
}

/// Level and mask of unmasked format information.
pub fn parse_format_info_qr(info: u32) -> (r: (ECLevel, MaskingPattern))
    requires
        info < 0x8000,
    ensures
        r.0.ord() == (info / 8192) as int + (if (info / 8192) % 2 == 0 {
            1int
        } else {
            -1int
        }),
        r.1.spec_value() == (info / 1024) % 8,
{
    proof {
        assert(info < 0x8000 ==> ((info >> 13u32) ^ 1u32) < 4 && ((info >> 13u32) ^ 1u32) == (
        if (info / 8192) % 2 == 0 {
            info / 8192 + 1
        } else {
            info / 8192 - 1
        }) && (info >> 10u32) & 7u32 == (info / 1024) % 8) by (bit_vector);
    }
    let ecl = ECLevel::from_u8(((info >> 13) ^ 1) as u8);
    let mask = MaskingPattern::new(((info >> 10) & 7) as u8);
    (ecl, mask)
}

/// Each format word, unmasked, carries its own index in its top five bits.
proof fn lemma_format_words()
    by (bit_vector)
    ensures
        (0x5412u32 ^ 0x5412u32) / 1024 == 0,
        (0x5125u32 ^ 0x5412u32) / 1024 == 1,
        (0x5e7cu32 ^ 0x5412u32) / 1024 == 2,
        (0x5b4bu32 ^ 0x5412u32) / 1024 == 3,
        (0x45f9u32 ^ 0x5412u32) / 1024 == 4,
        (0x40ceu32 ^ 0x5412u32) / 1024 == 5,
        (0x4f97u32 ^ 0x5412u32) / 1024 == 6,
        (0x4aa0u32 ^ 0x5412u32) / 1024 == 7,
        (0x77c4u32 ^ 0x5412u32) / 1024 == 8,
        (0x72f3u32 ^ 0x5412u32) / 1024 == 9,
        (0x7daau32 ^ 0x5412u32) / 1024 == 10,
        (0x789du32 ^ 0x5412u32) / 1024 == 11,
        (0x662fu32 ^ 0x5412u32) / 1024 == 12,
        (0x6318u32 ^ 0x5412u32) / 1024 == 13,
        (0x6c41u32 ^ 0x5412u32) / 1024 == 14,
        (0x6976u32 ^ 0x5412u32) / 1024 == 15,
        (0x1689u32 ^ 0x5412u32) / 1024 == 16,
        (0x13beu32 ^ 0x5412u32) / 1024 == 17,
        (0x1ce7u32 ^ 0x5412u32) / 1024 == 18,
        (0x19d0u32 ^ 0x5412u32) / 1024 == 19,
        (0x0762u32 ^ 0x5412u32) / 1024 == 20,
        (0x0255u32 ^ 0x5412u32) / 1024 == 21,
        (0x0d0cu32 ^ 0x5412u32) / 1024 == 22,
        (0x083bu32 ^ 0x5412u32) / 1024 == 23,
        (0x355fu32 ^ 0x5412u32) / 1024 == 24,
        (0x3068u32 ^ 0x5412u32) / 1024 == 25,
        (0x3f31u32 ^ 0x5412u32) / 1024 == 26,
        (0x3a06u32 ^ 0x5412u32) / 1024 == 27,
        (0x24b4u32 ^ 0x5412u32) / 1024 == 28,
        (0x2183u32 ^ 0x5412u32) / 1024 == 29,
        (0x2edau32 ^ 0x5412u32) / 1024 == 30,
        (0x2bedu32 ^ 0x5412u32) / 1024 == 31,
{
}

/// Parsing the format information a symbol is drawn with, once unmasked, gives back its error
/// correction level and mask pattern.
pub proof fn lemma_parse_generated_format(ecl: ECLevel, mask: MaskingPattern)
    requires
        mask.spec_value() < 8,
    ensures
        ({
            let info = FORMAT_INFOS_QR@[format_data(ecl, mask)] ^ FORMAT_MASK;
            &&& info < 0x8000
            &&& (info / 8192) as int + (if (info / 8192) % 2 == 0 {
                1int
            } else {
                -1int
            }) == ecl.ord()
            &&& (info / 1024) % 8 == mask.spec_value()
        }),
{
    lemma_format_words();
    assert(FORMAT_INFOS_QR@ =~= seq![0x5412u32, 0x5125, 0x5e7c, 0x5b4b, 0x45f9, 0x40ce, 0x4f97, 0x4aa0, 0x77c4, 0x72f3, 0x7daa, 0x789d, 0x662f, 0x6318, 0x6c41, 0x6976, 0x1689, 0x13be, 0x1ce7, 0x19d0, 0x0762, 0x0255, 0x0d0c, 0x083b, 0x355f, 0x3068, 0x3f31, 0x3a06, 0x24b4, 0x2183, 0x2eda, 0x2bed]);
    let k = format_data(ecl, mask);
    let info = FORMAT_INFOS_QR@[k] ^ FORMAT_MASK;
    assert(0 <= k < 32);
    assert(info / 1024 == k);
    assert(info / 8192 == k / 8);
}

// Global constants
//------------------------------------------------------------------------------
/// Alignment pattern centres per normal version, zero-filled to seven entries.
pub const ALIGNMENT_PATTERN_POSITIONS: [[i32; 7]; 40] = [
    [0, 0, 0, 0, 0, 0, 0],
    [6, 18, 0, 0, 0, 0, 0],
    [6, 22, 0, 0, 0, 0, 0],
    [6, 26, 0, 0, 0, 0, 0],
    [6, 30, 0, 0, 0, 0, 0],
    [6, 34, 0, 0, 0, 0, 0],
    [6, 22, 38, 0, 0, 0, 0],
    [6, 24, 42, 0, 0, 0, 0],
    [6, 26, 46, 0, 0, 0, 0],
    [6, 28, 50, 0, 0, 0, 0],
    [6, 30, 54, 0, 0, 0, 0],
    [6, 32, 58, 0, 0, 0, 0],
    [6, 34, 62, 0, 0, 0, 0],
    [6, 26, 46, 66, 0, 0, 0],
    [6, 26, 48, 70, 0, 0, 0],
    [6, 26, 50, 74, 0, 0, 0],
    [6, 30, 54, 78, 0, 0, 0],
    [6, 30, 56, 82, 0, 0, 0],
    [6, 30, 58, 86, 0, 0, 0],
    [6, 34, 62, 90, 0, 0, 0],
    [6, 28, 50, 72, 94, 0, 0],
    [6, 26, 50, 74, 98, 0, 0],
    [6, 30, 54, 78, 102, 0, 0],
    [6, 28, 54, 80, 106, 0, 0],
    [6, 32, 58, 84, 110, 0, 0],
    [6, 30, 58, 86, 114, 0, 0],
    [6, 34, 62, 90, 118, 0, 0],
    [6, 26, 50, 74, 98, 122, 0],
    [6, 30, 54, 78, 102, 126, 0],
    [6, 26, 52, 78, 104, 130, 0],
    [6, 30, 56, 82, 108, 134, 0],
    [6, 34, 60, 86, 112, 138, 0],
    [6, 30, 58, 86, 114, 142, 0],
    [6, 34, 62, 90, 118, 146, 0],
    [6, 30, 54, 78, 102, 126, 150],
    [6, 24, 50, 76, 102, 128, 154],
    [6, 28, 54, 80, 106, 132, 158],
    [6, 32, 58, 84, 110, 136, 162],
    [6, 26, 54, 82, 110, 138, 166],
    [6, 30, 58, 86, 114, 142, 170],
];

/// Data bit capacity per error level per version.
pub const VERSION_DATA_BIT_CAPACITY: [[usize; 4]; 44] = [
    [152, 128, 104, 72],
    [272, 224, 176, 128],
    [440, 352, 272, 208],
    [640, 512, 384, 288],
    [864, 688, 496, 368],
    [1088, 864, 608, 480],
    [1248, 992, 704, 528],
    [1552, 1232, 880, 688],
    [1856, 1456, 1056, 800],
    [2192, 1728, 1232, 976],
    [2592, 2032, 1440, 1120],
    [2960, 2320, 1648, 1264],
    [3424, 2672, 1952, 1440],
    [3688, 2920, 2088, 1576],
    [4184, 3320, 2360, 1784],
    [4712, 3624, 2600, 2024],
    [5176, 4056, 2936, 2264],
    [5768, 4504, 3176, 2504],
    [6360, 5016, 3560, 2728],
    [6888, 5352, 3880, 3080],
    [7456, 5712, 4096, 3248],
    [8048, 6256, 4544, 3536],
    [8752, 6880, 4912, 3712],
    [9392, 7312, 5312, 4112],
    [10208, 8000, 5744, 4304],
    [10960, 8496, 6032, 4768],
    [11744, 9024, 6464, 5024],
    [12248, 9544, 6968, 5288],
    [13048, 10136, 7288, 5608],
    [13880, 10984, 7880, 5960],
    [14744, 11640, 8264, 6344],
    [15640, 12328, 8920, 6760],
    [16568, 13048, 9368, 7208],
    [17528, 13800, 9848, 7688],
    [18448, 14496, 10288, 7888],
    [19472, 15312, 10832, 8432],
    [20528, 15936, 11408, 8768],
    [21616, 16816, 12016, 9136],
    [22496, 17728, 12656, 9776],
    [23648, 18672, 13328, 10208],
    
    [20, 0, 0, 0],
    [40, 32, 0, 0],
    [84, 68, 0, 0],
    [128, 112, 80, 0],
];

/// Codewords per version.
pub const VERSION_TOTAL_CODEWORDS: [usize; 44] = [
    26, 44, 70, 100, 134, 172, 196, 242, 292, 346, 404, 466, 532, 581, 655, 733, 815, 901, 991,
    1085, 1156, 1258, 1364, 1474, 1588, 1706, 1828, 1921, 2051, 2185, 2323, 2465, 2611, 2761, 2876,
    3034, 3196, 3362, 3532, 3706, 
    5, 10, 17, 24,
];

/// Error correction codewords per block per level per version.
pub const ECC_PER_BLOCK: [[usize; 4]; 44] = [
    
    [7, 10, 13, 17],
    [10, 16, 22, 28],
    [15, 26, 18, 22],
    [20, 18, 26, 16],
    [26, 24, 18, 22],
    [18, 16, 24, 28],
    [20, 18, 18, 26],
    [24, 22, 22, 26],
    [30, 22, 20, 24],
    [18, 26, 24, 28],
    [20, 30, 28, 24],
    [24, 22, 26, 28],
    [26, 22, 24, 22],
    [30, 24, 20, 24],
    [22, 24, 30, 24],
    [24, 28, 24, 30],
    [28, 28, 28, 28],
    [30, 26, 28, 28],
    [28, 26, 26, 26],
    [28, 26, 30, 28],
    [28, 26, 28, 30],
    [28, 28, 30, 24],
    [30, 28, 30, 30],
    [30, 28, 30, 30],
    [26, 28, 30, 30],
    [28, 28, 28, 30],
    [30, 28, 30, 30],
    [30, 28, 30, 30],
    [30, 28, 30, 30],
    [30, 28, 30, 30],
    [30, 28, 30, 30],
    [30, 28, 30, 30],
    [30, 28, 30, 30],
    [30, 28, 30, 30],
    [30, 28, 30, 30],
    [30, 28, 30, 30],
    [30, 28, 30, 30],
    [30, 28, 30, 30],
    [30, 28, 30, 30],
    [30, 28, 30, 30],
    
    [2, 0, 0, 0],
    [5, 6, 0, 0],
    [6, 8, 0, 0],
    [8, 10, 14, 0],
];

/// Block size and count of the first group, then of the second, per level per version.
pub const DATA_CODEWORDS_PER_BLOCK: [[(usize, usize, usize, usize); 4]; 44] = [
    
    [(19, 1, 0, 0), (16, 1, 0, 0), (13, 1, 0, 0), (9, 1, 0, 0)],
    [(34, 1, 0, 0), (28, 1, 0, 0), (22, 1, 0, 0), (16, 1, 0, 0)],
    [(55, 1, 0, 0), (44, 1, 0, 0), (17, 2, 0, 0), (13, 2, 0, 0)],
    [(80, 1, 0, 0), (32, 2, 0, 0), (24, 2, 0, 0), (9, 4, 0, 0)],
    [(108, 1, 0, 0), (43, 2, 0, 0), (15, 2, 16, 2), (11, 2, 12, 2)],
    [(68, 2, 0, 0), (27, 4, 0, 0), (19, 4, 0, 0), (15, 4, 0, 0)],
    [(78, 2, 0, 0), (31, 4, 0, 0), (14, 2, 15, 4), (13, 4, 14, 1)],
    [(97, 2, 0, 0), (38, 2, 39, 2), (18, 4, 19, 2), (14, 4, 15, 2)],
    [(116, 2, 0, 0), (36, 3, 37, 2), (16, 4, 17, 4), (12, 4, 13, 4)],
    [(68, 2, 69, 2), (43, 4, 44, 1), (19, 6, 20, 2), (15, 6, 16, 2)],
    [(81, 4, 0, 0), (50, 1, 51, 4), (22, 4, 23, 4), (12, 3, 13, 8)],
    [(92, 2, 93, 2), (36, 6, 37, 2), (20, 4, 21, 6), (14, 7, 15, 4)],
    [(107, 4, 0, 0), (37, 8, 38, 1), (20, 8, 21, 4), (11, 12, 12, 4)],
    [(115, 3, 116, 1), (40, 4, 41, 5), (16, 11, 17, 5), (12, 11, 13, 5)],
    [(87, 5, 88, 1), (41, 5, 42, 5), (24, 5, 25, 7), (12, 11, 13, 7)],
    [(98, 5, 99, 1), (45, 7, 46, 3), (19, 15, 20, 2), (15, 3, 16, 13)],
    [(107, 1, 108, 5), (46, 10, 47, 1), (22, 1, 23, 15), (14, 2, 15, 17)],
    [(120, 5, 121, 1), (43, 9, 44, 4), (22, 17, 23, 1), (14, 2, 15, 19)],
    [(113, 3, 114, 4), (44, 3, 45, 11), (21, 17, 22, 4), (13, 9, 14, 16)],
    [(107, 3, 108, 5), (41, 3, 42, 13), (24, 15, 25, 5), (15, 15, 16, 10)],
    [(116, 4, 117, 4), (42, 17, 0, 0), (22, 17, 23, 6), (16, 19, 17, 6)],
    [(111, 2, 112, 7), (46, 17, 0, 0), (24, 7, 25, 16), (13, 34, 0, 0)],
    [(121, 4, 122, 5), (47, 4, 48, 14), (24, 11, 25, 14), (15, 16, 16, 14)],
    [(117, 6, 118, 4), (45, 6, 46, 14), (24, 11, 25, 16), (16, 30, 17, 2)],
    [(106, 8, 107, 4), (47, 8, 48, 13), (24, 7, 25, 22), (15, 22, 16, 13)],
    [(114, 10, 115, 2), (46, 19, 47, 4), (22, 28, 23, 6), (16, 33, 17, 4)],
    [(122, 8, 123, 4), (45, 22, 46, 3), (23, 8, 24, 26), (15, 12, 16, 28)],
    [(117, 3, 118, 10), (45, 3, 46, 23), (24, 4, 25, 31), (15, 11, 16, 31)],
    [(116, 7, 117, 7), (45, 21, 46, 7), (23, 1, 24, 37), (15, 19, 16, 26)],
    [(115, 5, 116, 10), (47, 19, 48, 10), (24, 15, 25, 25), (15, 23, 16, 25)],
    [(115, 13, 116, 3), (46, 2, 47, 29), (24, 42, 25, 1), (15, 23, 16, 28)],
    [(115, 17, 0, 0), (46, 10, 47, 23), (24, 10, 25, 35), (15, 19, 16, 35)],
    [(115, 17, 116, 1), (46, 14, 47, 21), (24, 29, 25, 19), (15, 11, 16, 46)],
    [(115, 13, 116, 6), (46, 14, 47, 23), (24, 44, 25, 7), (16, 59, 17, 1)],
    [(121, 12, 122, 7), (47, 12, 48, 26), (24, 39, 25, 14), (15, 22, 16, 41)],
    [(121, 6, 122, 14), (47, 6, 48, 34), (24, 46, 25, 10), (15, 2, 16, 64)],
    [(122, 17, 123, 4), (46, 29, 47, 14), (24, 49, 25, 10), (15, 24, 16, 46)],
    [(122, 4, 123, 18), (46, 13, 47, 32), (24, 48, 25, 14), (15, 42, 16, 32)],
    [(117, 20, 118, 4), (47, 40, 48, 7), (24, 43, 25, 22), (15, 10, 16, 67)],
    [(118, 19, 119, 6), (47, 18, 48, 31), (24, 34, 25, 34), (15, 20, 16, 61)],
    
    [(3, 1, 0, 0), (0, 0, 0, 0), (0, 0, 0, 0), (0, 0, 0, 0)], 
    [(5, 1, 0, 0), (4, 1, 0, 0), (0, 0, 0, 0), (0, 0, 0, 0)], 
    [(11, 1, 0, 0), (9, 1, 0, 0), (0, 0, 0, 0), (0, 0, 0, 0)], 
    [(16, 1, 0, 0), (14, 1, 0, 0), (10, 1, 0, 0), (0, 0, 0, 0)], 
];

pub const FORMAT_INFO_BIT_LEN: usize = 15;

pub const FORMAT_ERROR_CAPACITY: u32 = 3;

pub const FORMAT_MASK: u32 = 0b101010000010010;

pub const FORMAT_INFOS_QR: [u32; 32] = [
    0x5412, 0x5125, 0x5e7c, 0x5b4b, 0x45f9, 0x40ce, 0x4f97, 0x4aa0, 0x77c4, 0x72f3, 0x7daa, 0x789d,
    0x662f, 0x6318, 0x6c41, 0x6976, 0x1689, 0x13be, 0x1ce7, 0x19d0, 0x0762, 0x0255, 0x0d0c, 0x083b,
    0x355f, 0x3068, 0x3f31, 0x3a06, 0x24b4, 0x2183, 0x2eda, 0x2bed,
];

pub const FORMAT_INFO_COORDS_QR_MAIN: [(i32, i32); 15] = [
    (0, 8),
    (1, 8),
    (2, 8),
    (3, 8),
    (4, 8),
    (5, 8),
    (7, 8),
    (8, 8),
    (8, 7),
    (8, 5),
    (8, 4),
    (8, 3),
    (8, 2),
    (8, 1),
    (8, 0),
];

pub const FORMAT_INFO_COORDS_QR_SIDE: [(i32, i32); 15] = [
    (8, -1),
    (8, -2),
    (8, -3),
    (8, -4),
    (8, -5),
    (8, -6),
    (8, -7),
    (8, -8),
    (-7, 8),
    (-6, 8),
    (-5, 8),
    (-4, 8),
    (-3, 8),
    (-2, 8),
    (-1, 8),
];

pub const VERSION_INFO_BIT_LEN: usize = 18;

pub const VERSION_ERROR_BIT_LEN: usize = 12;

pub const VERSION_ERROR_CAPACITY: u32 = 3;

pub const VERSION_INFOS: [u32; 34] = [
    0x07c94, 0x085bc, 0x09a99, 0x0a4d3, 0x0bbf6, 0x0c762, 0x0d847, 0x0e60d, 0x0f928, 0x10b78,
    0x1145d, 0x12a17, 0x13532, 0x149a6, 0x15683, 0x168c9, 0x177ec, 0x18ec4, 0x191e1, 0x1afab,
    0x1b08e, 0x1cc1a, 0x1d33f, 0x1ed75, 0x1f250, 0x209d5, 0x216f0, 0x228ba, 0x2379f, 0x24b0b,
    0x2542e, 0x26a64, 0x27541, 0x28c69,
];

pub const VERSION_INFO_COORDS_BL: [(i32, i32); 18] = [
    (5, -9),
    (5, -10),
    (5, -11),
    (4, -9),
    (4, -10),
    (4, -11),
    (3, -9),
    (3, -10),
    (3, -11),
    (2, -9),
    (2, -10),
    (2, -11),
    (1, -9),
    (1, -10),
    (1, -11),
    (0, -9),
    (0, -10),
    (0, -11),
];

pub const VERSION_INFO_COORDS_TR: [(i32, i32); 18] = [
    (-9, 5),
    (-10, 5),
    (-11, 5),
    (-9, 4),
    (-10, 4),
    (-11, 4),
    (-9, 3),
    (-10, 3),
    (-11, 3),
    (-9, 2),
    (-10, 2),
    (-11, 2),
    (-9, 1),
    (-10, 1),
    (-11, 1),
    (-9, 0),
    (-10, 0),
    (-11, 0),
];

/// Modules of the largest grid.
pub const MAX_QR_SIZE: usize = 40960;

} // verus!
