use qrism::bit_types::BitStream;
use qrism::codec::encoder::{build_segments, compute_optimal_segments, encode_with_version, find_optimal_version_and_segments, push_alphanumeric_data, push_byte_data, push_header, push_numeric_data, push_padding_bits, push_padding_codewords, push_terminator};
use qrism::codec::{Mode, Segment, PADDING_CODEWORDS};
use qrism::metadata::{ECLevel, Version};

#[test]
fn encoder_test_build_segments() {
    let data = "aaaaa11111AAA";
    let ver = Version::Normal(1);
    let mode_bits = ver.mode_bits();
    let mut char_modes = vec![Mode::Alphanumeric; 5];
    char_modes.extend([Mode::Numeric; 5]);
    char_modes.extend([Mode::Byte; 3]);
    let segs = build_segments(ver, char_modes, data.as_bytes());
    let seg_1 = Segment::new(
        Mode::Alphanumeric,
        mode_bits,
        ver.char_cnt_bits(Mode::Alphanumeric),
        data[0..5].as_bytes(),
    );
    let seg_2 = Segment::new(
        Mode::Numeric,
        mode_bits,
        ver.char_cnt_bits(Mode::Numeric),
        data[5..10].as_bytes(),
    );
    let seg_3 = Segment::new(
        Mode::Byte,
        mode_bits,
        ver.char_cnt_bits(Mode::Byte),
        data[10..].as_bytes(),
    );
    assert_eq!(segs.len(), 3);
    assert_eq!(segs[0], seg_1);
    assert_eq!(segs[1], seg_2);
    assert_eq!(segs[2], seg_3);

}

#[test]
fn encoder_test_compute_optimal_segments_1() {
    let data = "A11111111111111".repeat(23);
    let ver = Version::Normal(9);
    let mode_bits = ver.mode_bits();
    let segs = compute_optimal_segments(data.as_bytes(), ver);
    assert_eq!(segs.len(), 46);
    for (i, c) in data.as_bytes().chunks(15).enumerate() {
        let seg_1 = Segment::new(
            Mode::Alphanumeric,
            mode_bits,
            ver.char_cnt_bits(Mode::Alphanumeric),
            &c[..1],
        );
        assert_eq!(segs[i * 2], seg_1);
        let seg_2 = Segment::new(
            Mode::Numeric,
            mode_bits,
            ver.char_cnt_bits(Mode::Numeric),
            &c[1..],
        );
        assert_eq!(segs[i * 2 + 1], seg_2);
    }

}

#[test]
#[should_panic]
fn encoder_test_find_optimal_ver_and_segments_panic() {
    let data = "a".repeat(2954);
    let ecl = ECLevel::L;
    let pal = false;
    find_optimal_version_and_segments(data.as_bytes(), ecl, pal).unwrap();

}

#[test]
fn test_encode_with_version() {
    let data = "!".repeat(256);
    let ver = Version::Normal(9);
    let ecl = ECLevel::L;
    let pal = true;
    let encoded = encode_with_version(data.as_bytes(), ver, ecl, pal).unwrap();

}

#[test]
fn encoder_test_push_header_v1() {
    let ver = Version::Normal(1);
    let ecl = ECLevel::L;
    let pal = false;
    let bit_capacity = ver.data_bit_capacity(ecl, pal);
    let mode_bits = ver.mode_bits();
    let exp_vecs: Vec<Vec<u8>> = vec![
        vec![0b00011111, 0b11111100],
        vec![0b00101111, 0b11111000],
        vec![0b01001111, 0b11110000],
    ];
    let dummy_vec = vec![0; 1023];
    let modes = [Mode::Numeric, Mode::Alphanumeric, Mode::Byte];
    let dummy_idx = [1023, 511, 255];
    for ((mode, di), exp_vec) in modes.iter().zip(dummy_idx.iter()).zip(exp_vecs.iter()) {
        let mut bs = BitStream::new(bit_capacity);
        let len_bits = ver.char_cnt_bits(*mode);
        let seg = Segment::new(*mode, mode_bits, len_bits, &dummy_vec[..*di]);
        push_header(&seg, &mut bs);
        assert_eq!(bs.data(), exp_vec);
    }

}

#[test]
fn encoder_test_push_header_v10() {
    let ver = Version::Normal(10);
    let ecl = ECLevel::L;
    let pal = false;
    let bit_capacity = ver.data_bit_capacity(ecl, pal);
    let mode_bits = ver.mode_bits();
    let exp_vecs: Vec<Vec<u8>> = vec![
        vec![0b00011111, 0b11111111],
        vec![0b00101111, 0b11111110],
        vec![0b01001111, 0b11111111, 0b11110000],
    ];
    let dummy_vec = vec![0; 65535];
    let modes = [Mode::Numeric, Mode::Alphanumeric, Mode::Byte];
    let dummy_idx = [4095, 2047, 65535];
    for ((mode, di), exp_vec) in modes.iter().zip(dummy_idx.iter()).zip(exp_vecs.iter()) {
        let mut bs = BitStream::new(bit_capacity);
        let len_bits = ver.char_cnt_bits(*mode);
        let seg = Segment::new(*mode, mode_bits, len_bits, &dummy_vec[..*di]);
        push_header(&seg, &mut bs);
        assert_eq!(bs.data(), exp_vec);
    }

}

#[test]
fn encoder_test_push_header_v27() {
    let ver = Version::Normal(27);
    let ecl = ECLevel::L;
    let pal = false;
    let bit_capacity = ver.data_bit_capacity(ecl, pal);
    let mode_bits = ver.mode_bits();
    let exp_vecs: Vec<Vec<u8>> = vec![
        vec![0b00011111, 0b11111111, 0b11000000],
        vec![0b00101111, 0b11111111, 0b10000000],
        vec![0b01001111, 0b11111111, 0b11110000],
    ];
    let dummy_vec = vec![0; 65535];
    let modes = [Mode::Numeric, Mode::Alphanumeric, Mode::Byte];
    let dummy_idx = [16383, 8191, 65535];
    for ((mode, di), exp_vec) in modes.iter().zip(dummy_idx.iter()).zip(exp_vecs.iter()) {
        let mut bs = BitStream::new(bit_capacity);
        let len_bits = ver.char_cnt_bits(*mode);
        let seg = Segment::new(*mode, mode_bits, len_bits, &dummy_vec[..*di]);
        push_header(&seg, &mut bs);
        assert_eq!(bs.data(), exp_vec);
    }

}

#[test]
fn encoder_test_push_numeric_data() {
    let ver = Version::Normal(1);
    let ecl = ECLevel::L;
    let pal = false;
    let bit_capacity = ver.data_bit_capacity(ecl, pal);
    let mut bs = BitStream::new(bit_capacity);
    push_numeric_data("01234567".as_bytes(), &mut bs);
    assert_eq!(bs.data(), vec![0b00000011, 0b00010101, 0b10011000, 0b01100000]);
    let mut bs = BitStream::new(bit_capacity);
    push_numeric_data("8".as_bytes(), &mut bs);
    assert_eq!(bs.data(), vec![0b10000000]);

}

#[test]
fn encoder_test_push_alphanumeric_data() {
    let ver = Version::Normal(1);
    let ecl = ECLevel::L;
    let pal = false;
    let bit_capacity = ver.data_bit_capacity(ecl, pal);
    let mut bs = BitStream::new(bit_capacity);
    push_alphanumeric_data("AC-42".as_bytes(), &mut bs);
    assert_eq!(bs.data(), vec![0b00111001, 0b11011100, 0b11100100, 0b00100000])

}

#[test]
fn encoder_test_push_byte_data() {
    let ver = Version::Normal(1);
    let ecl = ECLevel::L;
    let pal = false;
    let bit_capacity = ver.data_bit_capacity(ecl, pal);
    let mut bs = BitStream::new(bit_capacity);
    push_byte_data("a".as_bytes(), &mut bs);
    assert_eq!(bs.data(), vec![0b01100001])

}

#[test]
fn encoder_test_push_terminator() {
    let ver = Version::Normal(1);
    let ecl = ECLevel::L;
    let pal = false;
    let bit_capacity = ver.data_bit_capacity(ecl, pal);
    let capacity = (bit_capacity + 7) >> 3;
    let mut bs = BitStream::new(bit_capacity);
    bs.push_bits(0b1, 1);
    push_terminator(&mut bs);
    assert_eq!(bs.data(), vec![0b10000000]);
    assert_eq!(bs.len() & 7, 5);
    for _ in 0..capacity - 1 {
        bs.push_bits(0b11111111, 8);
    }
    push_terminator(&mut bs);
    assert_eq!(bs.len() & 7, 0);

}

#[test]
fn encoder_test_push_padding_bits() {
    let ver = Version::Normal(1);
    let ecl = ECLevel::L;
    let pal = false;
    let bit_capacity = ver.data_bit_capacity(ecl, pal);
    let mut bs = BitStream::new(bit_capacity);
    bs.push_bits(1, 0b1);
    push_padding_bits(&mut bs);
    assert_eq!(bs.data(), vec![0b10000000]);
    assert_eq!(bs.len() & 7, 0);

}

#[test]
fn encoder_test_push_padding_codewords() {
    let ver = Version::Normal(1);
    let ecl = ECLevel::L;
    let pal = false;
    let bit_capacity = ver.data_bit_capacity(ecl, pal);
    let mut bs = BitStream::new(bit_capacity);
    bs.push_bits(1, 0b1);
    push_padding_bits(&mut bs);
    push_padding_codewords(&mut bs);
    let mut output = vec![0b10000000];
    output.extend(PADDING_CODEWORDS.iter().cycle().take(18));
    assert_eq!(bs.data(), output);

}
