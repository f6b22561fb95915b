use qrism::bit_types::BitStream;
use qrism::codec::decoder::{decode, take_header, write_alphanumeric, write_byte, write_numeric, write_segment};
use qrism::codec::encoder::encode_with_version;
use qrism::codec::Mode;
use qrism::ec::block::Block;
use qrism::metadata::{ECLevel, Version};

#[test]
fn decoder_test_take_header_v1() {
    let data = vec![0b00011111, 0b11111100, 0b10111111, 0b11101001, 0b11111110];
    let ver = Version::Normal(1);
    let mut bs = BitStream::from(&data);
    let (mode, char_cnt) = take_header(&mut bs, ver).unwrap();
    assert_eq!(mode, Mode::Numeric);
    assert_eq!(char_cnt, 0b11_1111_1111);
    let (mode, char_cnt) = take_header(&mut bs, ver).unwrap();
    assert_eq!(mode, Mode::Alphanumeric);
    assert_eq!(char_cnt, 0b1_1111_1111);
    let (mode, char_cnt) = take_header(&mut bs, ver).unwrap();
    assert_eq!(mode, Mode::Byte);
    assert_eq!(char_cnt, 0b11111111);

}

#[test]
fn decoder_test_take_header_v10() {
    let data = vec![
        0b00011111, 0b11111111, 0b00101111, 0b11111110, 0b10011111, 0b11111111, 0b11100000,
    ];
    let ver = Version::Normal(10);
    let mut bs = BitStream::from(&data);
    let (mode, char_cnt) = take_header(&mut bs, ver).unwrap();
    assert_eq!(mode, Mode::Numeric);
    assert_eq!(char_cnt, 0b1111_1111_1111);
    let (mode, char_cnt) = take_header(&mut bs, ver).unwrap();
    assert_eq!(mode, Mode::Alphanumeric);
    assert_eq!(char_cnt, 0b111_1111_1111);
    let (mode, char_cnt) = take_header(&mut bs, ver).unwrap();
    assert_eq!(mode, Mode::Byte);
    assert_eq!(char_cnt, 0b11111111_11111111);

}

#[test]
fn decoder_test_take_header_v27() {
    let data = vec![
        0b00011111, 0b11111111, 0b11001011, 0b11111111, 0b11101001, 0b11111111, 0b11111110,
    ];
    let ver = Version::Normal(27);
    let mut bs = BitStream::from(&data);
    let (mode, char_cnt) = take_header(&mut bs, ver).unwrap();
    assert_eq!(mode, Mode::Numeric);
    assert_eq!(char_cnt, 0b11_1111_1111_1111);
    let (mode, char_cnt) = take_header(&mut bs, ver).unwrap();
    assert_eq!(mode, Mode::Alphanumeric);
    assert_eq!(char_cnt, 0b1_1111_1111_1111);
    let (mode, char_cnt) = take_header(&mut bs, ver).unwrap();
    assert_eq!(mode, Mode::Byte);
    assert_eq!(char_cnt, 0b11111111_11111111);

}

#[test]
fn test_take_numeric() {
    let data = "12345".as_bytes();
    let ver = Version::Normal(1);
    let ecl = ECLevel::L;
    let pal = false;
    let mut bs = encode_with_version(data, ver, ecl, pal).unwrap();
    let mut out = String::with_capacity(100);

    take_header(&mut bs, ver).unwrap();

    write_numeric(&mut bs, 3, &mut out).unwrap();
    assert_eq!(out, "123");
    out.clear();

    write_numeric(&mut bs, 2, &mut out).unwrap();
    assert_eq!(out, "45");
    out.clear();

    let data = "6".as_bytes();
    let mut bs = encode_with_version(data, ver, ECLevel::L, pal).unwrap();
    take_header(&mut bs, ver).unwrap();
    write_numeric(&mut bs, 1, &mut out).unwrap();
    assert_eq!(out, "6");

}

#[test]
fn test_write_alphanumeric() {
    let data = "AC-".as_bytes();
    let ver = Version::Normal(1);
    let ecl = ECLevel::L;
    let pal = false;
    let mut bs = encode_with_version(data, ver, ecl, pal).unwrap();
    let mut out = String::with_capacity(100);

    take_header(&mut bs, ver).unwrap();

    write_alphanumeric(&mut bs, 2, &mut out).unwrap();
    assert_eq!(out, "AC");
    out.clear();

    write_alphanumeric(&mut bs, 1, &mut out).unwrap();
    assert_eq!(out, "-");
    out.clear();

    let data = "%".as_bytes();
    let mut bs = encode_with_version(data, ver, ECLevel::L, pal).unwrap();
    take_header(&mut bs, ver).unwrap();
    write_alphanumeric(&mut bs, 1, &mut out).unwrap();
    assert_eq!(out, "%");

}

#[test]
fn test_write_byte() {
    let data = "abc".as_bytes();
    let ver = Version::Normal(1);
    let ecl = ECLevel::L;
    let pal = false;
    let mut bs = encode_with_version(data, ver, ecl, pal).unwrap();
    let mut out = String::with_capacity(100);

    take_header(&mut bs, ver).unwrap();

    write_byte(&mut bs, 2, &mut out).unwrap();
    assert_eq!(out, "ab");
    out.clear();

    write_byte(&mut bs, 1, &mut out).unwrap();
    assert_eq!(out, "c");

}

#[test]
fn test_write_segment() {
    let data = "abcABCDEF1234567890123ABCDEFabc".as_bytes();
    let ver = Version::Normal(2);
    let ecl = ECLevel::L;
    let pal = false;
    let mut bs = encode_with_version(data, ver, ecl, pal).unwrap();
    let mut out = String::with_capacity(100);

    write_segment(&mut bs, ver, &mut out).unwrap();
    assert_eq!(out, "abc");
    out.clear();

    write_segment(&mut bs, ver, &mut out).unwrap();
    assert_eq!(out, "ABCDEF");
    out.clear();

    write_segment(&mut bs, ver, &mut out).unwrap();
    assert_eq!(out, "1234567890123");
    out.clear();

    write_segment(&mut bs, ver, &mut out).unwrap();
    assert_eq!(out, "ABCDEF");
    out.clear();

    write_segment(&mut bs, ver, &mut out).unwrap();
    assert_eq!(out, "abc");

}

#[test]
fn decoder_test_decode() {
    let data = "abcABCDEF1234567890123ABCDEFabc";
    let ver = Version::Normal(2);
    let ecl = ECLevel::L;
    let pal = false;
    let mut bs = encode_with_version(data.as_bytes(), ver, ecl, pal).unwrap();
    let decoded_data = decode(&mut bs, ver, ecl, pal).unwrap();
    assert_eq!(decoded_data, data);

}

#[test]
fn fresh_blocks_are_codewords() {
    for dlen in 1..40usize {
        for ec in [2usize, 7, 10, 18, 30] {
            let data: Vec<u8> = (0..dlen).map(|i| (i * 31 + ec) as u8).collect();
            let mut blk = Block::new(&data, dlen + ec);
            assert!(blk.syndromes().is_ok());
            assert_eq!(blk.rectify().unwrap(), data);
        }
    }
}

#[test]
fn berlekamp_massey_locates_one_error() {
    let data = b"locator";
    let encoded = Block::new(data, data.len() + 6);
    let mut damaged: Vec<u8> = encoded.full().to_vec();
    damaged[0] ^= 0x5a;
    let blk = Block::with_encoded(&damaged, data.len());
    let synd = blk.syndromes().unwrap_err();
    let sigma = blk.berlkamp_massey(&synd, 6).unwrap();
    // One error at the first of 13 positions: the locator is 1 + a^12 x.
    let mut a12: u8 = 1;
    for _ in 0..12 {
        a12 = if a12 & 0x80 != 0 { (a12 << 1) ^ 0x1d } else { a12 << 1 };
    }
    assert_eq!(sigma[0], 1);
    assert_eq!(sigma[1], a12);
    assert!(sigma[2..].iter().all(|c| *c == 0));
}
