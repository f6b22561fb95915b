//! Errors of building and reading symbols.
use vstd::prelude::*;
use vstd::string::StringExecFns;

verus! {

/// What can go wrong while building or reading a symbol.
#[derive(Debug, PartialEq, Eq, Copy, Clone, Structural)]
pub enum QRError {
    // QR builder
    EmptyData,
    DataTooLong,
    CapacityOverflow,
    InvalidVersion,
    InvalidECLevel,
    InvalidPalette,
    InvalidColor,
    InvalidChar,
    InvalidMaskingPattern,
    // QR reader
    SingularMatrix,
    PointAtInfinity,
    SymbolNotFound,
    CastingFailed,
    PixelOutOfBounds,
    TooManyError,
    InvalidInfo,
    InvalidFormatInfo,
    InvalidVersionInfo,
    InvalidPaletteInfo,
    FinderMismatch,
    TimingMismatch,
    AlignmentMismatch,
    DivisionByZero,
    InvalidMode(u8),
    CorruptDataSegment,
    EndOfStream,
    InvalidUTF8Encoding,
    InvalidCharacterEncoding,
}

pub type QRResult<T> = Result<T, QRError>;

/// Decimal spelling of `n`.
pub open spec fn decimal(n: nat) -> Seq<char>
    decreases n,
{
    if n < 10 {
        seq![(n + 48) as char]
    } else {
        decimal(n / 10).push(((n % 10) + 48) as char)
    }
}

/// Appends the decimal spelling of `n` to `out`.
pub fn push_decimal(out: &mut String, n: usize)
    ensures
        final(out)@ == old(out)@ + decimal(n as nat),
    decreases n,
{
    if n >= 10 {
        push_decimal(out, n / 10);
    }
    let d = (n % 10) as u8;
    let s = digit_str(d);
    out.append(s);
    proof {
        assert(final(out)@ =~= old(out)@ + decimal(n as nat));
    }
}

/// The one-character string of decimal digit `d`.
fn digit_str(d: u8) -> (r: &'static str)
    requires
        d < 10,
    ensures
        r@ == seq![(d + 48) as char],
{
    let r = if d == 0 {
        "0"
    } else if d == 1 {
        "1"
    } else if d == 2 {
        "2"
    } else if d == 3 {
        "3"
    } else if d == 4 {
        "4"
    } else if d == 5 {
        "5"
    } else if d == 6 {
        "6"
    } else if d == 7 {
        "7"
    } else if d == 8 {
        "8"
    } else {
        "9"
    };
    proof {
        reveal_strlit("0");
        reveal_strlit("1");
        reveal_strlit("2");
        reveal_strlit("3");
        reveal_strlit("4");
        reveal_strlit("5");
        reveal_strlit("6");
        reveal_strlit("7");
        reveal_strlit("8");
        reveal_strlit("9");
    }
    r
}

impl QRError {
    /// The fixed part of the message, for every error but an unexpected mode.
    pub open spec fn spec_message(self) -> Seq<char> {
        match self {
            QRError::EmptyData => "Empty data"@,
            QRError::DataTooLong => "Data too long"@,
            QRError::CapacityOverflow => "Capacity overflow"@,
            QRError::InvalidVersion => "Invalid version"@,
            QRError::InvalidECLevel => "Invalid error correction level"@,
            QRError::InvalidPalette => "Invalid color palette"@,
            QRError::InvalidColor => "Invalid color"@,
            QRError::InvalidChar => "Invalid character"@,
            QRError::InvalidMaskingPattern => "Invalid masking pattern"@,
            QRError::SingularMatrix => "Cannot compute homography"@,
            QRError::PointAtInfinity => "Projected point is at infinity"@,
            QRError::SymbolNotFound => "QR not found"@,
            QRError::CastingFailed => "f64 to i32 casting failed"@,
            QRError::PixelOutOfBounds => "Pixel is out of bounds"@,
            QRError::TooManyError => "Too many errors"@,
            QRError::InvalidInfo => "Invalid info"@,
            QRError::InvalidFormatInfo => "Invalid format info detected"@,
            QRError::InvalidVersionInfo => "Invalid version info detected"@,
            QRError::InvalidPaletteInfo => "Invalid palette info detected"@,
            QRError::FinderMismatch => "Finder color mismatch"@,
            QRError::TimingMismatch => "Timing color mismatch"@,
            QRError::AlignmentMismatch => "Alignment color mismatch"@,
            QRError::DivisionByZero => "Division by zero in GF(256)"@,
            QRError::InvalidMode(m) => "Unexpected mode bits: "@ + decimal(m as nat),
            QRError::CorruptDataSegment => "Truncated data segment"@,
            QRError::EndOfStream => "End of stream reached"@,
            QRError::InvalidUTF8Encoding => "Invalid UTF8 sequence"@,
            QRError::InvalidCharacterEncoding => "Character sequence is neither utf8 nor shift jis"@,
        }
    }

    /// A human-readable description of the error.
    pub fn message(&self) -> (r: String)
        ensures
            r@ == self.spec_message(),
    {
        let fixed = match *self {
            QRError::EmptyData => "Empty data",
            QRError::DataTooLong => "Data too long",
            QRError::CapacityOverflow => "Capacity overflow",
            QRError::InvalidVersion => "Invalid version",
            QRError::InvalidECLevel => "Invalid error correction level",
            QRError::InvalidPalette => "Invalid color palette",
            QRError::InvalidColor => "Invalid color",
            QRError::InvalidChar => "Invalid character",
            QRError::InvalidMaskingPattern => "Invalid masking pattern",
            QRError::SingularMatrix => "Cannot compute homography",
            QRError::PointAtInfinity => "Projected point is at infinity",
            QRError::SymbolNotFound => "QR not found",
            QRError::CastingFailed => "f64 to i32 casting failed",
            QRError::PixelOutOfBounds => "Pixel is out of bounds",
            QRError::TooManyError => "Too many errors",
            QRError::InvalidInfo => "Invalid info",
            QRError::InvalidFormatInfo => "Invalid format info detected",
            QRError::InvalidVersionInfo => "Invalid version info detected",
            QRError::InvalidPaletteInfo => "Invalid palette info detected",
            QRError::FinderMismatch => "Finder color mismatch",
            QRError::TimingMismatch => "Timing color mismatch",
            QRError::AlignmentMismatch => "Alignment color mismatch",
            QRError::DivisionByZero => "Division by zero in GF(256)",
            QRError::InvalidMode(_) => "Unexpected mode bits: ",
            QRError::CorruptDataSegment => "Truncated data segment",
            QRError::EndOfStream => "End of stream reached",
            QRError::InvalidUTF8Encoding => "Invalid UTF8 sequence",
            QRError::InvalidCharacterEncoding => "Character sequence is neither utf8 nor shift jis",
        };
        let mut res = String::new();
        res.append(fixed);
        if let QRError::InvalidMode(m) = *self {
            push_decimal(&mut res, m as usize);
        }
        proof {
            assert(res@ =~= self.spec_message());
        }
        res
    }
}

} // verus!
