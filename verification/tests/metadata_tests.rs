use qrism::codec::Mode;
use qrism::mask::MaskingPattern;
use qrism::metadata::{generate_format_info_qr, parse_format_info_qr, ECLevel, FORMAT_MASK};
use qrism::metadata::Version::Normal;

#[test]
fn test_char_cnt_bits() {
    assert_eq!(Normal(1).char_cnt_bits(Mode::Numeric), 10);
    assert_eq!(Normal(9).char_cnt_bits(Mode::Numeric), 10);
    assert_eq!(Normal(10).char_cnt_bits(Mode::Numeric), 12);
    assert_eq!(Normal(26).char_cnt_bits(Mode::Numeric), 12);
    assert_eq!(Normal(27).char_cnt_bits(Mode::Numeric), 14);
    assert_eq!(Normal(40).char_cnt_bits(Mode::Numeric), 14);
    assert_eq!(Normal(1).char_cnt_bits(Mode::Alphanumeric), 9);
    assert_eq!(Normal(9).char_cnt_bits(Mode::Alphanumeric), 9);
    assert_eq!(Normal(10).char_cnt_bits(Mode::Alphanumeric), 11);
    assert_eq!(Normal(26).char_cnt_bits(Mode::Alphanumeric), 11);
    assert_eq!(Normal(27).char_cnt_bits(Mode::Alphanumeric), 13);
    assert_eq!(Normal(40).char_cnt_bits(Mode::Alphanumeric), 13);
    assert_eq!(Normal(1).char_cnt_bits(Mode::Byte), 8);
    assert_eq!(Normal(9).char_cnt_bits(Mode::Byte), 8);
    assert_eq!(Normal(10).char_cnt_bits(Mode::Byte), 16);
    assert_eq!(Normal(26).char_cnt_bits(Mode::Byte), 16);
    assert_eq!(Normal(27).char_cnt_bits(Mode::Byte), 16);
    assert_eq!(Normal(40).char_cnt_bits(Mode::Byte), 16);

}

#[test]
fn metadata_describes_itself() {
    let m = qrism::metadata::Metadata::new(
        Some(qrism::metadata::Version::Normal(12)),
        Some(ECLevel::Q),
        Some(MaskingPattern::new(3)),
    );
    assert_eq!(m.describe(), "Metadata: Version: Normal(12), EC Level: Q, Masking Pattern: MaskingPattern(3) ");
    let none = qrism::metadata::Metadata::new(None, None, None);
    assert_eq!(none.describe(), "Metadata: Version: None, EC Level: None, Masking Pattern: None ");
}

#[test]
fn format_info_parses_back() {
    for ecl in [ECLevel::L, ECLevel::M, ECLevel::Q, ECLevel::H] {
        for m in 0..8u8 {
            let info = generate_format_info_qr(ecl, MaskingPattern::new(m)) ^ FORMAT_MASK;
            let (e, p) = parse_format_info_qr(info);
            assert_eq!(e, ecl);
            assert_eq!(p.value(), m);
        }
    }
}
