use qrism::codec::Mode;
use qrism::codec::Mode::{Alphanumeric, Byte, Numeric};
use qrism::codec::Segment;
use qrism::metadata::Version;


#[test]
fn types_test_comparison() {
    assert!(Numeric == Numeric);
    assert!(Numeric < Alphanumeric);
    assert!(Numeric < Byte);
    assert!(Alphanumeric == Alphanumeric);
    assert!(Alphanumeric < Byte);
    assert!(Byte == Byte);
}

#[test]
fn types_test_numeric_digit() {
    assert_eq!(Mode::numeric_digit(b'0'), 0);
    assert_eq!(Mode::numeric_digit(b'9'), 9);
}


#[test]
fn types_test_alphanumeric_digit() {
    assert_eq!(Mode::alphanumeric_digit(b'0'), 0);
    assert_eq!(Mode::alphanumeric_digit(b'9'), 9);
    assert_eq!(Mode::alphanumeric_digit(b'A'), 10);
    assert_eq!(Mode::alphanumeric_digit(b'Z'), 35);
    assert_eq!(Mode::alphanumeric_digit(b' '), 36);
    assert_eq!(Mode::alphanumeric_digit(b':'), 44);
}


#[test]
fn types_test_numeric_to_byte() {
    assert_eq!(Numeric.byte(0), b'0');
    assert_eq!(Numeric.byte(9), b'9');
}


#[test]
fn types_test_alphanumeric_to_byte() {
    assert_eq!(Alphanumeric.byte(0), b'0');
    assert_eq!(Alphanumeric.byte(9), b'9');
    assert_eq!(Alphanumeric.byte(10), b'A');
    assert_eq!(Alphanumeric.byte(35), b'Z');
    assert_eq!(Alphanumeric.byte(36), b' ');
    assert_eq!(Alphanumeric.byte(44), b':');
}


#[test]
fn types_test_numeric_encoding() {
    assert_eq!(Numeric.encode_chunk("012".as_bytes()), 0b0000001100);
    assert_eq!(Numeric.encode_chunk("345".as_bytes()), 0b0101011001);
    assert_eq!(Numeric.encode_chunk("901".as_bytes()), 0b1110000101);
    assert_eq!(Numeric.encode_chunk("67".as_bytes()), 0b1000011);
    assert_eq!(Numeric.encode_chunk("8".as_bytes()), 0b1000);
}


#[test]
fn types_test_numeric_decoding() {
    let data = "012".as_bytes();
    let encoded_data = Numeric.encode_chunk(data);
    assert_eq!(Numeric.decode_chunk(encoded_data, 10), data);
    let data = "345".as_bytes();
    let encoded_data = Numeric.encode_chunk(data);
    assert_eq!(Numeric.decode_chunk(encoded_data, 10), data);
    let data = "901".as_bytes();
    let encoded_data = Numeric.encode_chunk(data);
    assert_eq!(Numeric.decode_chunk(encoded_data, 10), data);
    let data = "67".as_bytes();
    let encoded_data = Numeric.encode_chunk(data);
    assert_eq!(Numeric.decode_chunk(encoded_data, 7), data);
    let data = "8".as_bytes();
    let encoded_data = Numeric.encode_chunk(data);
    assert_eq!(Numeric.decode_chunk(encoded_data, 4), data);
}

#[test]
fn types_test_alphanumeric_encoding() {
    assert_eq!(Alphanumeric.encode_chunk("AC".as_bytes()), 0b00111001110);
    assert_eq!(Alphanumeric.encode_chunk("-4".as_bytes()), 0b11100111001);
    assert_eq!(Alphanumeric.encode_chunk("2".as_bytes()), 0b000010);
}


#[test]
fn types_test_alphanumeric_decoding() {
    let data = "AC".as_bytes();
    let encoded_data = Alphanumeric.encode_chunk(data);
    assert_eq!(Alphanumeric.decode_chunk(encoded_data, 11), data);
    let data = "-4".as_bytes();
    let encoded_data = Alphanumeric.encode_chunk(data);
    assert_eq!(Alphanumeric.decode_chunk(encoded_data, 11), data);
    let data = "2".as_bytes();
    let encoded_data = Alphanumeric.encode_chunk(data);
    assert_eq!(Alphanumeric.decode_chunk(encoded_data, 6), data);
}

#[test]
fn types_test_is_numeric() {
    assert!(Numeric.contains(b'0'));
    assert!(Numeric.contains(b'9'));
    assert!(!Numeric.contains(b'A'));
    assert!(!Numeric.contains(b'Z'));
    assert!(!Numeric.contains(b' '));
    assert!(!Numeric.contains(b':'));
}

#[test]
fn types_test_is_alphanumeric() {
    assert!(Alphanumeric.contains(b'0'));
    assert!(Alphanumeric.contains(b'9'));
    assert!(Alphanumeric.contains(b'A'));
    assert!(Alphanumeric.contains(b'Z'));
    assert!(Alphanumeric.contains(b' '));
    assert!(Alphanumeric.contains(b':'));
    assert!(!Alphanumeric.contains(b'@'));
    assert!(!Alphanumeric.contains(b'('));
}

#[test]
fn types_test_encoded_len() {
    assert_eq!(Numeric.encoded_len(3), 10);
    assert_eq!(Numeric.encoded_len(2), 7);
    assert_eq!(Numeric.encoded_len(1), 4);
    assert_eq!(Alphanumeric.encoded_len(2), 11);
    assert_eq!(Alphanumeric.encoded_len(1), 6);
    assert_eq!(Byte.encoded_len(1), 8);
}

#[test]
fn types_test_bit_len_numeric_mode_1() {
    let ver = Version::Normal(1);
    let mode = Mode::Numeric;
    let mode_bits = ver.mode_bits();
    let len_bits = ver.char_cnt_bits(mode);
    let seg = Segment::new(mode, mode_bits, len_bits, "123".as_bytes());
    assert_eq!(seg.bit_len(), 24);
    let seg = Segment::new(mode, mode_bits, len_bits, "45".as_bytes());
    assert_eq!(seg.bit_len(), 21);
    let seg = Segment::new(mode, mode_bits, len_bits, "6".as_bytes());
    assert_eq!(seg.bit_len(), 18);
}

#[test]
fn types_test_bit_len_numeric_mode_10() {
    let ver = Version::Normal(10);
    let mode = Mode::Numeric;
    let mode_bits = ver.mode_bits();
    let len_bits = ver.char_cnt_bits(mode);
    let seg = Segment::new(mode, mode_bits, len_bits, "123".as_bytes());
    assert_eq!(seg.bit_len(), 26);
    let seg = Segment::new(mode, mode_bits, len_bits, "45".as_bytes());
    assert_eq!(seg.bit_len(), 23);
    let seg = Segment::new(mode, mode_bits, len_bits, "6".as_bytes());
    assert_eq!(seg.bit_len(), 20);
}

#[test]
fn types_test_bit_len_numeric_mode_27() {
    let ver = Version::Normal(27);
    let mode = Mode::Numeric;
    let mode_bits = ver.mode_bits();
    let len_bits = ver.char_cnt_bits(mode);
    let seg = Segment::new(mode, mode_bits, len_bits, "123".as_bytes());
    assert_eq!(seg.bit_len(), 28);
    let seg = Segment::new(mode, mode_bits, len_bits, "45".as_bytes());
    assert_eq!(seg.bit_len(), 25);
    let seg = Segment::new(mode, mode_bits, len_bits, "6".as_bytes());
    assert_eq!(seg.bit_len(), 22);
}

#[test]
fn types_test_bit_len_alphanumeric_mode_1() {
    let ver = Version::Normal(1);
    let mode = Mode::Alphanumeric;
    let mode_bits = ver.mode_bits();
    let len_bits = ver.char_cnt_bits(mode);
    let seg = Segment::new(mode, mode_bits, len_bits, "AZ".as_bytes());
    assert_eq!(seg.bit_len(), 24);
    let seg = Segment::new(mode, mode_bits, len_bits, "-".as_bytes());
    assert_eq!(seg.bit_len(), 19);
}

#[test]
fn types_test_bit_len_alphanumeric_mode_10() {
    let ver = Version::Normal(10);
    let mode = Mode::Alphanumeric;
    let mode_bits = ver.mode_bits();
    let len_bits = ver.char_cnt_bits(mode);
    let seg = Segment::new(mode, mode_bits, len_bits, "AZ".as_bytes());
    assert_eq!(seg.bit_len(), 26);
    let seg = Segment::new(mode, mode_bits, len_bits, "-".as_bytes());
    assert_eq!(seg.bit_len(), 21);
}

#[test]
fn types_test_bit_len_alphanumeric_mode_27() {
    let ver = Version::Normal(27);
    let mode = Mode::Alphanumeric;
    let mode_bits = ver.mode_bits();
    let len_bits = ver.char_cnt_bits(mode);
    let seg = Segment::new(mode, mode_bits, len_bits, "AZ".as_bytes());
    assert_eq!(seg.bit_len(), 28);
    let seg = Segment::new(mode, mode_bits, len_bits, "-".as_bytes());
    assert_eq!(seg.bit_len(), 23);
}

#[test]
fn types_test_bit_len_byte_mode_1() {
    let ver = Version::Normal(1);
    let mode = Mode::Byte;
    let mode_bits = ver.mode_bits();
    let len_bits = ver.char_cnt_bits(mode);
    let seg = Segment::new(mode, mode_bits, len_bits, "a".as_bytes());
    assert_eq!(seg.bit_len(), 20);
}

#[test]
fn types_test_bit_len_byte_mode_10() {
    let ver = Version::Normal(10);
    let mode = Mode::Byte;
    let mode_bits = ver.mode_bits();
    let len_bits = ver.char_cnt_bits(mode);
    let seg = Segment::new(mode, mode_bits, len_bits, "ab".as_bytes());
    assert_eq!(seg.bit_len(), 36);
}

#[test]
fn types_test_bit_len_byte_mode_27() {
    let ver = Version::Normal(27);
    let mode = Mode::Byte;
    let mode_bits = ver.mode_bits();
    let len_bits = ver.char_cnt_bits(mode);
    let seg = Segment::new(mode, mode_bits, len_bits, "abc".as_bytes());
    assert_eq!(seg.bit_len(), 44);
}
