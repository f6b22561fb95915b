use qrism::bit_types::BitStream;
use qrism::codec::decoder::{decode_bytes, take_alphanumeric_data, take_byte_data, take_header, take_numeric_data, take_segment};
use qrism::codec::encoder::{build_segments, compute_optimal_segments, encode_with_version, push_alphanumeric_data, push_byte_data, push_header, push_numeric_data, push_padding_bits, push_padding_codewords, push_terminator};
use qrism::codec::Mode::{self, Alphanumeric, Byte, Numeric};
use qrism::codec::{Segment, PADDING_CODEWORDS};
use qrism::metadata::{ECLevel, Version};

#[test]
fn codec_test_comparison() {
    assert!(Numeric == Numeric);
    assert!(Numeric < Alphanumeric);
    assert!(Numeric < Byte);
    assert!(Alphanumeric == Alphanumeric);
    assert!(Alphanumeric < Byte);
    assert!(Byte == Byte);

}

#[test]
fn codec_test_numeric_digit() {
    assert_eq!(Mode::numeric_digit(b'0'), 0);
    assert_eq!(Mode::numeric_digit(b'9'), 9);

}

#[test]
fn codec_test_alphanumeric_digit() {
    assert_eq!(Mode::alphanumeric_digit(b'0'), 0);
    assert_eq!(Mode::alphanumeric_digit(b'9'), 9);
    assert_eq!(Mode::alphanumeric_digit(b'A'), 10);
    assert_eq!(Mode::alphanumeric_digit(b'Z'), 35);
    assert_eq!(Mode::alphanumeric_digit(b' '), 36);
    assert_eq!(Mode::alphanumeric_digit(b':'), 44);

}

#[test]
fn codec_test_numeric_to_byte() {
    assert_eq!(Numeric.byte(0), b'0');
    assert_eq!(Numeric.byte(9), b'9');

}

#[test]
fn codec_test_alphanumeric_to_byte() {
    assert_eq!(Alphanumeric.byte(0), b'0');
    assert_eq!(Alphanumeric.byte(9), b'9');
    assert_eq!(Alphanumeric.byte(10), b'A');
    assert_eq!(Alphanumeric.byte(35), b'Z');
    assert_eq!(Alphanumeric.byte(36), b' ');
    assert_eq!(Alphanumeric.byte(44), b':');

}

#[test]
fn codec_test_numeric_encoding() {
    assert_eq!(Numeric.encode_chunk("012".as_bytes()), 0b0000001100);
    assert_eq!(Numeric.encode_chunk("345".as_bytes()), 0b0101011001);
    assert_eq!(Numeric.encode_chunk("901".as_bytes()), 0b1110000101);
    assert_eq!(Numeric.encode_chunk("67".as_bytes()), 0b1000011);
    assert_eq!(Numeric.encode_chunk("8".as_bytes()), 0b1000);

}

#[test]
fn codec_test_numeric_decoding() {
    let data = "012".as_bytes();
    let encoded_data = Numeric.encode_chunk(data);
    assert_eq!(Numeric.decode_chunk(encoded_data, 10), data);
    let data = "345".as_bytes();
    let encoded_data = Numeric.encode_chunk(data);
    assert_eq!(Numeric.decode_chunk(encoded_data, 10), data);
    let data = "901".as_bytes();
    let encoded_data = Numeric.encode_chunk(data);
    assert_eq!(Numeric.decode_chunk(encoded_data, 10), data);
    let data = "67".as_bytes();
    let encoded_data = Numeric.encode_chunk(data);
    assert_eq!(Numeric.decode_chunk(encoded_data, 7), data);
    let data = "8".as_bytes();
    let encoded_data = Numeric.encode_chunk(data);
    assert_eq!(Numeric.decode_chunk(encoded_data, 4), data);

}

#[test]
fn codec_test_alphanumeric_encoding() {
    assert_eq!(Alphanumeric.encode_chunk("AC".as_bytes()), 0b00111001110);
    assert_eq!(Alphanumeric.encode_chunk("-4".as_bytes()), 0b11100111001);
    assert_eq!(Alphanumeric.encode_chunk("2".as_bytes()), 0b000010);

}

#[test]
fn codec_test_alphanumeric_decoding() {
    let data = "AC".as_bytes();
    let encoded_data = Alphanumeric.encode_chunk(data);
    assert_eq!(Alphanumeric.decode_chunk(encoded_data, 11), data);
    let data = "-4".as_bytes();
    let encoded_data = Alphanumeric.encode_chunk(data);
    assert_eq!(Alphanumeric.decode_chunk(encoded_data, 11), data);
    let data = "2".as_bytes();
    let encoded_data = Alphanumeric.encode_chunk(data);
    assert_eq!(Alphanumeric.decode_chunk(encoded_data, 6), data);

}

#[test]
fn codec_test_is_numeric() {
    assert!(Numeric.contains(b'0'));
    assert!(Numeric.contains(b'9'));
    assert!(!Numeric.contains(b'A'));
    assert!(!Numeric.contains(b'Z'));
    assert!(!Numeric.contains(b' '));
    assert!(!Numeric.contains(b':'));

}

#[test]
fn codec_test_is_alphanumeric() {
    assert!(Alphanumeric.contains(b'0'));
    assert!(Alphanumeric.contains(b'9'));
    assert!(Alphanumeric.contains(b'A'));
    assert!(Alphanumeric.contains(b'Z'));
    assert!(Alphanumeric.contains(b' '));
    assert!(Alphanumeric.contains(b':'));
    assert!(!Alphanumeric.contains(b'@'));
    assert!(!Alphanumeric.contains(b'('));

}

#[test]
fn codec_test_encoded_len() {
    assert_eq!(Numeric.encoded_len(3), 10);
    assert_eq!(Numeric.encoded_len(2), 7);
    assert_eq!(Numeric.encoded_len(1), 4);
    assert_eq!(Alphanumeric.encoded_len(2), 11);
    assert_eq!(Alphanumeric.encoded_len(1), 6);
    assert_eq!(Byte.encoded_len(1), 8);

}

#[test]
fn codec_test_bit_len_numeric_mode_1() {
    let ver = Version::Normal(1);
    let mode = Mode::Numeric;
    let mode_bits = ver.mode_bits();
    let len_bits = ver.char_cnt_bits(mode);
    let seg = Segment::new(mode, mode_bits, len_bits, "123".as_bytes());
    assert_eq!(seg.bit_len(), 24);
    let seg = Segment::new(mode, mode_bits, len_bits, "45".as_bytes());
    assert_eq!(seg.bit_len(), 21);
    let seg = Segment::new(mode, mode_bits, len_bits, "6".as_bytes());
    assert_eq!(seg.bit_len(), 18);

}

#[test]
fn codec_test_bit_len_numeric_mode_10() {
    let ver = Version::Normal(10);
    let mode = Mode::Numeric;
    let mode_bits = ver.mode_bits();
    let len_bits = ver.char_cnt_bits(mode);
    let seg = Segment::new(mode, mode_bits, len_bits, "123".as_bytes());
    assert_eq!(seg.bit_len(), 26);
    let seg = Segment::new(mode, mode_bits, len_bits, "45".as_bytes());
    assert_eq!(seg.bit_len(), 23);
    let seg = Segment::new(mode, mode_bits, len_bits, "6".as_bytes());
    assert_eq!(seg.bit_len(), 20);

}

#[test]
fn codec_test_bit_len_numeric_mode_27() {
    let ver = Version::Normal(27);
    let mode = Mode::Numeric;
    let mode_bits = ver.mode_bits();
    let len_bits = ver.char_cnt_bits(mode);
    let seg = Segment::new(mode, mode_bits, len_bits, "123".as_bytes());
    assert_eq!(seg.bit_len(), 28);
    let seg = Segment::new(mode, mode_bits, len_bits, "45".as_bytes());
    assert_eq!(seg.bit_len(), 25);
    let seg = Segment::new(mode, mode_bits, len_bits, "6".as_bytes());
    assert_eq!(seg.bit_len(), 22);

}

#[test]
fn codec_test_bit_len_alphanumeric_mode_1() {
    let ver = Version::Normal(1);
    let mode = Mode::Alphanumeric;
    let mode_bits = ver.mode_bits();
    let len_bits = ver.char_cnt_bits(mode);
    let seg = Segment::new(mode, mode_bits, len_bits, "AZ".as_bytes());
    assert_eq!(seg.bit_len(), 24);
    let seg = Segment::new(mode, mode_bits, len_bits, "-".as_bytes());
    assert_eq!(seg.bit_len(), 19);

}

#[test]
fn codec_test_bit_len_alphanumeric_mode_10() {
    let ver = Version::Normal(10);
    let mode = Mode::Alphanumeric;
    let mode_bits = ver.mode_bits();
    let len_bits = ver.char_cnt_bits(mode);
    let seg = Segment::new(mode, mode_bits, len_bits, "AZ".as_bytes());
    assert_eq!(seg.bit_len(), 26);
    let seg = Segment::new(mode, mode_bits, len_bits, "-".as_bytes());
    assert_eq!(seg.bit_len(), 21);

}

#[test]
fn codec_test_bit_len_alphanumeric_mode_27() {
    let ver = Version::Normal(27);
    let mode = Mode::Alphanumeric;
    let mode_bits = ver.mode_bits();
    let len_bits = ver.char_cnt_bits(mode);
    let seg = Segment::new(mode, mode_bits, len_bits, "AZ".as_bytes());
    assert_eq!(seg.bit_len(), 28);
    let seg = Segment::new(mode, mode_bits, len_bits, "-".as_bytes());
    assert_eq!(seg.bit_len(), 23);

}

#[test]
fn codec_test_bit_len_byte_mode_1() {
    let ver = Version::Normal(1);
    let mode = Mode::Byte;
    let mode_bits = ver.mode_bits();
    let len_bits = ver.char_cnt_bits(mode);
    let seg = Segment::new(mode, mode_bits, len_bits, "a".as_bytes());
    assert_eq!(seg.bit_len(), 20);

}

#[test]
fn codec_test_bit_len_byte_mode_10() {
    let ver = Version::Normal(10);
    let mode = Mode::Byte;
    let mode_bits = ver.mode_bits();
    let len_bits = ver.char_cnt_bits(mode);
    let seg = Segment::new(mode, mode_bits, len_bits, "ab".as_bytes());
    assert_eq!(seg.bit_len(), 36);

}

#[test]
fn codec_test_bit_len_byte_mode_27() {
    let ver = Version::Normal(27);
    let mode = Mode::Byte;
    let mode_bits = ver.mode_bits();
    let len_bits = ver.char_cnt_bits(mode);
    let seg = Segment::new(mode, mode_bits, len_bits, "abc".as_bytes());
    assert_eq!(seg.bit_len(), 44);

}

#[test]
fn codec_test_push_header_v1() {
    let ver = Version::Normal(1);
    let ecl = ECLevel::L;
    let pal = false;
    let bit_capacity = ver.data_bit_capacity(ecl, pal);
    let mode_bits = ver.mode_bits();
    let exp_vecs: Vec<Vec<u8>> = vec![
        vec![0b00011111, 0b11111100],
        vec![0b00101111, 0b11111000],
        vec![0b01001111, 0b11110000],
    ];
    let dummy_vec = vec![0; 1023];
    let modes = [Mode::Numeric, Mode::Alphanumeric, Mode::Byte];
    let dummy_idx = [1023, 511, 255];
    for ((mode, di), exp_vec) in modes.iter().zip(dummy_idx.iter()).zip(exp_vecs.iter()) {
        let mut bs = BitStream::new(bit_capacity);
        let len_bits = ver.char_cnt_bits(*mode);
        let seg = Segment::new(*mode, mode_bits, len_bits, &dummy_vec[..*di]);
        push_header(&seg, &mut bs);
        assert_eq!(bs.data(), exp_vec);
    }

}

#[test]
fn codec_test_push_header_v10() {
    let ver = Version::Normal(10);
    let ecl = ECLevel::L;
    let pal = false;
    let bit_capacity = ver.data_bit_capacity(ecl, pal);
    let mode_bits = ver.mode_bits();
    let exp_vecs: Vec<Vec<u8>> = vec![
        vec![0b00011111, 0b11111111],
        vec![0b00101111, 0b11111110],
        vec![0b01001111, 0b11111111, 0b11110000],
    ];
    let dummy_vec = vec![0; 65535];
    let modes = [Mode::Numeric, Mode::Alphanumeric, Mode::Byte];
    let dummy_idx = [4095, 2047, 65535];
    for ((mode, di), exp_vec) in modes.iter().zip(dummy_idx.iter()).zip(exp_vecs.iter()) {
        let mut bs = BitStream::new(bit_capacity);
        let len_bits = ver.char_cnt_bits(*mode);
        let seg = Segment::new(*mode, mode_bits, len_bits, &dummy_vec[..*di]);
        push_header(&seg, &mut bs);
        assert_eq!(bs.data(), exp_vec);
    }

}

#[test]
fn codec_test_push_header_v27() {
    let ver = Version::Normal(27);
    let ecl = ECLevel::L;
    let pal = false;
    let bit_capacity = ver.data_bit_capacity(ecl, pal);
    let mode_bits = ver.mode_bits();
    let exp_vecs: Vec<Vec<u8>> = vec![
        vec![0b00011111, 0b11111111, 0b11000000],
        vec![0b00101111, 0b11111111, 0b10000000],
        vec![0b01001111, 0b11111111, 0b11110000],
    ];
    let dummy_vec = vec![0; 65535];
    let modes = [Mode::Numeric, Mode::Alphanumeric, Mode::Byte];
    let dummy_idx = [16383, 8191, 65535];
    for ((mode, di), exp_vec) in modes.iter().zip(dummy_idx.iter()).zip(exp_vecs.iter()) {
        let mut bs = BitStream::new(bit_capacity);
        let len_bits = ver.char_cnt_bits(*mode);
        let seg = Segment::new(*mode, mode_bits, len_bits, &dummy_vec[..*di]);
        push_header(&seg, &mut bs);
        assert_eq!(bs.data(), exp_vec);
    }

}

#[test]
fn codec_test_push_numeric_data() {
    let ver = Version::Normal(1);
    let ecl = ECLevel::L;
    let pal = false;
    let bit_capacity = ver.data_bit_capacity(ecl, pal);
    let mut bs = BitStream::new(bit_capacity);
    push_numeric_data("01234567".as_bytes(), &mut bs);
    assert_eq!(bs.data(), vec![0b00000011, 0b00010101, 0b10011000, 0b01100000]);
    let mut bs = BitStream::new(bit_capacity);
    push_numeric_data("8".as_bytes(), &mut bs);
    assert_eq!(bs.data(), vec![0b10000000]);

}

#[test]
fn codec_test_push_alphanumeric_data() {
    let ver = Version::Normal(1);
    let ecl = ECLevel::L;
    let pal = false;
    let bit_capacity = ver.data_bit_capacity(ecl, pal);
    let mut bs = BitStream::new(bit_capacity);
    push_alphanumeric_data("AC-42".as_bytes(), &mut bs);
    assert_eq!(bs.data(), vec![0b00111001, 0b11011100, 0b11100100, 0b00100000])

}

#[test]
fn codec_test_push_byte_data() {
    let ver = Version::Normal(1);
    let ecl = ECLevel::L;
    let pal = false;
    let bit_capacity = ver.data_bit_capacity(ecl, pal);
    let mut bs = BitStream::new(bit_capacity);
    push_byte_data("a".as_bytes(), &mut bs);
    assert_eq!(bs.data(), vec![0b01100001])

}

#[test]
fn codec_test_push_terminator() {
    let ver = Version::Normal(1);
    let ecl = ECLevel::L;
    let pal = false;
    let bit_capacity = ver.data_bit_capacity(ecl, pal);
    let capacity = (bit_capacity + 7) >> 3;
    let mut bs = BitStream::new(bit_capacity);
    bs.push_bits(0b1, 1);
    push_terminator(&mut bs);
    assert_eq!(bs.data(), vec![0b10000000]);
    assert_eq!(bs.len() & 7, 5);
    for _ in 0..capacity - 1 {
        bs.push_bits(0b11111111, 8);
    }
    push_terminator(&mut bs);
    assert_eq!(bs.len() & 7, 0);

}

#[test]
fn codec_test_push_padding_bits() {
    let ver = Version::Normal(1);
    let ecl = ECLevel::L;
    let pal = false;
    let bit_capacity = ver.data_bit_capacity(ecl, pal);
    let mut bs = BitStream::new(bit_capacity);
    bs.push_bits(1, 0b1);
    push_padding_bits(&mut bs);
    assert_eq!(bs.data(), vec![0b10000000]);
    assert_eq!(bs.len() & 7, 0);

}

#[test]
fn codec_test_push_padding_codewords() {
    let ver = Version::Normal(1);
    let ecl = ECLevel::L;
    let pal = false;
    let bit_capacity = ver.data_bit_capacity(ecl, pal);
    let mut bs = BitStream::new(bit_capacity);
    bs.push_bits(1, 0b1);
    push_padding_bits(&mut bs);
    push_padding_codewords(&mut bs);
    let mut output = vec![0b10000000];
    output.extend(PADDING_CODEWORDS.iter().cycle().take(18));
    assert_eq!(bs.data(), output);

}

#[test]
fn codec_test_build_segments() {
    let data = "aaaaa11111AAA";
    let ver = Version::Normal(1);
    let mode_bits = ver.mode_bits();
    let mut char_modes = vec![Mode::Alphanumeric; 5];
    char_modes.extend([Mode::Numeric; 5]);
    char_modes.extend([Mode::Byte; 3]);
    let segs = build_segments(ver, char_modes, data.as_bytes());
    let seg_1 = Segment::new(
        Mode::Alphanumeric,
        mode_bits,
        ver.char_cnt_bits(Mode::Alphanumeric),
        data[0..5].as_bytes(),
    );
    let seg_2 = Segment::new(
        Mode::Numeric,
        mode_bits,
        ver.char_cnt_bits(Mode::Numeric),
        data[5..10].as_bytes(),
    );
    let seg_3 = Segment::new(
        Mode::Byte,
        mode_bits,
        ver.char_cnt_bits(Mode::Byte),
        data[10..].as_bytes(),
    );
    assert_eq!(segs.len(), 3);
    assert_eq!(segs[0], seg_1);
    assert_eq!(segs[1], seg_2);
    assert_eq!(segs[2], seg_3);

}

#[test]
fn codec_test_compute_optimal_segments_1() {
    let data = "A11111111111111".repeat(23);
    let ver = Version::Normal(9);
    let mode_bits = ver.mode_bits();
    let segs = compute_optimal_segments(data.as_bytes(), ver);
    assert_eq!(segs.len(), 46);
    for (i, c) in data.as_bytes().chunks(15).enumerate() {
        let seg_1 = Segment::new(
            Mode::Alphanumeric,
            mode_bits,
            ver.char_cnt_bits(Mode::Alphanumeric),
            &c[..1],
        );
        assert_eq!(segs[i * 2], seg_1);
        let seg_2 = Segment::new(
            Mode::Numeric,
            mode_bits,
            ver.char_cnt_bits(Mode::Numeric),
            &c[1..],
        );
        assert_eq!(segs[i * 2 + 1], seg_2);
    }

}

#[test]
fn codec_test_take_header_v1() {
    let data = vec![0b00011111, 0b11111100, 0b10111111, 0b11101001, 0b11111110];
    let ver = Version::Normal(1);
    let mut bs = BitStream::from(&data);
    let (mode, char_cnt) = take_header(&mut bs, ver).unwrap();
    assert_eq!(mode, Mode::Numeric);
    assert_eq!(char_cnt, 0b11_1111_1111);
    let (mode, char_cnt) = take_header(&mut bs, ver).unwrap();
    assert_eq!(mode, Mode::Alphanumeric);
    assert_eq!(char_cnt, 0b1_1111_1111);
    let (mode, char_cnt) = take_header(&mut bs, ver).unwrap();
    assert_eq!(mode, Mode::Byte);
    assert_eq!(char_cnt, 0b11111111);

}

#[test]
fn codec_test_take_header_v10() {
    let data = vec![
        0b00011111, 0b11111111, 0b00101111, 0b11111110, 0b10011111, 0b11111111, 0b11100000,
    ];
    let ver = Version::Normal(10);
    let mut bs = BitStream::from(&data);
    let (mode, char_cnt) = take_header(&mut bs, ver).unwrap();
    assert_eq!(mode, Mode::Numeric);
    assert_eq!(char_cnt, 0b1111_1111_1111);
    let (mode, char_cnt) = take_header(&mut bs, ver).unwrap();
    assert_eq!(mode, Mode::Alphanumeric);
    assert_eq!(char_cnt, 0b111_1111_1111);
    let (mode, char_cnt) = take_header(&mut bs, ver).unwrap();
    assert_eq!(mode, Mode::Byte);
    assert_eq!(char_cnt, 0b11111111_11111111);

}

#[test]
fn codec_test_take_header_v27() {
    let data = vec![
        0b00011111, 0b11111111, 0b11001011, 0b11111111, 0b11101001, 0b11111111, 0b11111110,
    ];
    let ver = Version::Normal(27);
    let mut bs = BitStream::from(&data);
    let (mode, char_cnt) = take_header(&mut bs, ver).unwrap();
    assert_eq!(mode, Mode::Numeric);
    assert_eq!(char_cnt, 0b11_1111_1111_1111);
    let (mode, char_cnt) = take_header(&mut bs, ver).unwrap();
    assert_eq!(mode, Mode::Alphanumeric);
    assert_eq!(char_cnt, 0b1_1111_1111_1111);
    let (mode, char_cnt) = take_header(&mut bs, ver).unwrap();
    assert_eq!(mode, Mode::Byte);
    assert_eq!(char_cnt, 0b11111111_11111111);

}

#[test]
fn test_take_numeric_data() {
    let data = "12345".as_bytes();
    let ver = Version::Normal(1);
    let ecl = ECLevel::L;
    let pal = false;
    let mut bs = encode_with_version(data, ver, ecl, pal).unwrap();
    take_header(&mut bs, ver).unwrap();
    let numeric_data = take_numeric_data(&mut bs, 3).unwrap();
    assert_eq!(numeric_data, "123".as_bytes().to_vec());
    let numeric_data = take_numeric_data(&mut bs, 2).unwrap();
    assert_eq!(numeric_data, "45".as_bytes().to_vec());
    let data = "6".as_bytes();
    let mut bs = encode_with_version(data, ver, ECLevel::L, pal).unwrap();
    take_header(&mut bs, ver).unwrap();
    let numeric_data = take_numeric_data(&mut bs, 1).unwrap();
    assert_eq!(numeric_data, "6".as_bytes().to_vec());

}

#[test]
fn test_take_alphanumeric_data() {
    let data = "AC-".as_bytes();
    let ver = Version::Normal(1);
    let ecl = ECLevel::L;
    let pal = false;
    let mut bs = encode_with_version(data, ver, ecl, pal).unwrap();
    take_header(&mut bs, ver).unwrap();
    let alphanumeric_data = take_alphanumeric_data(&mut bs, 2).unwrap();
    assert_eq!(alphanumeric_data, "AC".as_bytes().to_vec());
    let alphanumeric_data = take_alphanumeric_data(&mut bs, 1).unwrap();
    assert_eq!(alphanumeric_data, "-".as_bytes().to_vec());
    let data = "%".as_bytes();
    let mut bs = encode_with_version(data, ver, ECLevel::L, pal).unwrap();
    take_header(&mut bs, ver).unwrap();
    let alphanumeric_data = take_alphanumeric_data(&mut bs, 1).unwrap();
    assert_eq!(alphanumeric_data, "%".as_bytes().to_vec());

}

#[test]
fn test_take_byte_data() {
    let data = "abc".as_bytes();
    let ver = Version::Normal(1);
    let ecl = ECLevel::L;
    let pal = false;
    let mut bs = encode_with_version(data, ver, ecl, pal).unwrap();
    take_header(&mut bs, ver).unwrap();
    let byte_data = take_byte_data(&mut bs, 2).unwrap();
    assert_eq!(byte_data, "ab".as_bytes().to_vec());
    let byte_data = take_byte_data(&mut bs, 1).unwrap();
    assert_eq!(byte_data, "c".as_bytes().to_vec());

}

#[test]
fn test_take_segment() {
    let data = "abcABCDEF1234567890123ABCDEFabc".as_bytes();
    let ver = Version::Normal(2);
    let ecl = ECLevel::L;
    let pal = false;
    let mut bs = encode_with_version(data, ver, ecl, pal).unwrap();
    let seg_data = take_segment(&mut bs, ver).unwrap().1;
    assert_eq!(seg_data, "abc".as_bytes().to_vec());
    let seg_data = take_segment(&mut bs, ver).unwrap().1;
    assert_eq!(seg_data, "ABCDEF".as_bytes().to_vec());
    let seg_data = take_segment(&mut bs, ver).unwrap().1;
    assert_eq!(seg_data, "1234567890123".as_bytes().to_vec());
    let seg_data = take_segment(&mut bs, ver).unwrap().1;
    assert_eq!(seg_data, "ABCDEF".as_bytes().to_vec());
    let seg_data = take_segment(&mut bs, ver).unwrap().1;
    assert_eq!(seg_data, "abc".as_bytes().to_vec());

}

#[test]
fn codec_test_decode() {
    let data = "abcABCDEF1234567890123ABCDEFabc".as_bytes();
    let ver = Version::Normal(2);
    let ecl = ECLevel::L;
    let pal = false;
    let mut bs = encode_with_version(data, ver, ecl, pal).unwrap();
    let decoded_data = decode_bytes(&mut bs, ver, ecl, pal).unwrap();
    assert_eq!(decoded_data, data);

}
