use qrism::codec::decoder::decode;
use qrism::codec::encoder::{compute_optimal_segments, encode};
use qrism::codec::{Mode, Segment};
use qrism::metadata::{ECLevel, Version};

#[test]
fn encode_test_compute_optimal_segments_1() {
    let data = "1111111";
    let ver = Version::Normal(1);
    let segs = compute_optimal_segments(data.as_bytes(), ver);
    assert_eq!(segs.len(), 1);
    assert_eq!(segs[0], Segment::new(Mode::Numeric, ver.mode_bits(), ver.char_cnt_bits(Mode::Numeric), data[0..7].as_bytes()));
}

#[test]
fn test_compute_optimal_segments_2() {
    let data = "AAAAA";
    let ver = Version::Normal(1);
    let segs = compute_optimal_segments(data.as_bytes(), ver);
    assert_eq!(segs.len(), 1);
    assert_eq!(segs[0], Segment::new(Mode::Alphanumeric, ver.mode_bits(), ver.char_cnt_bits(Mode::Alphanumeric), data[0..5].as_bytes()));
}

#[test]
fn test_compute_optimal_segments_3() {
    let data = "aaaaa";
    let ver = Version::Normal(1);
    let segs = compute_optimal_segments(data.as_bytes(), ver);
    assert_eq!(segs.len(), 1);
    assert_eq!(segs[0], Segment::new(Mode::Byte, ver.mode_bits(), ver.char_cnt_bits(Mode::Byte), data[0..5].as_bytes()));
}

#[test]
fn test_compute_optimal_segments_4() {
    let data = "1111111AAAA";
    let ver = Version::Normal(1);
    let segs = compute_optimal_segments(data.as_bytes(), ver);
    assert_eq!(segs.len(), 2);
    assert_eq!(segs[0], Segment::new(Mode::Numeric, ver.mode_bits(), ver.char_cnt_bits(Mode::Numeric), data[0..7].as_bytes()));
    assert_eq!(segs[1], Segment::new(Mode::Alphanumeric, ver.mode_bits(), ver.char_cnt_bits(Mode::Alphanumeric), data[7..11].as_bytes()));
}

#[test]
fn test_compute_optimal_segments_5() {
    let data = "111111AAAA";
    let ver = Version::Normal(1);
    let segs = compute_optimal_segments(data.as_bytes(), ver);
    assert_eq!(segs.len(), 1);
    assert_eq!(segs[0], Segment::new(Mode::Alphanumeric, ver.mode_bits(), ver.char_cnt_bits(Mode::Alphanumeric), data[0..10].as_bytes()));
}

#[test]
fn test_compute_optimal_segments_6() {
    let data = "aaa11111a";
    let ver = Version::Normal(1);
    let segs = compute_optimal_segments(data.as_bytes(), ver);
    assert_eq!(segs.len(), 1);
    assert_eq!(segs[0], Segment::new(Mode::Byte, ver.mode_bits(), ver.char_cnt_bits(Mode::Byte), data[0..9].as_bytes()));
}

#[test]
fn test_compute_optimal_segments_7() {
    let data = "aaa111111a";
    let ver = Version::Normal(1);
    let segs = compute_optimal_segments(data.as_bytes(), ver);
    assert_eq!(segs.len(), 3);
    assert_eq!(segs[0], Segment::new(Mode::Byte, ver.mode_bits(), ver.char_cnt_bits(Mode::Byte), data[0..3].as_bytes()));
    assert_eq!(segs[1], Segment::new(Mode::Numeric, ver.mode_bits(), ver.char_cnt_bits(Mode::Numeric), data[3..9].as_bytes()));
    assert_eq!(segs[2], Segment::new(Mode::Byte, ver.mode_bits(), ver.char_cnt_bits(Mode::Byte), data[9..10].as_bytes()));
}

#[test]
fn test_compute_optimal_segments_8() {
    let data = "aaa1111A";
    let ver = Version::Normal(1);
    let segs = compute_optimal_segments(data.as_bytes(), ver);
    assert_eq!(segs.len(), 1);
    assert_eq!(segs[0], Segment::new(Mode::Byte, ver.mode_bits(), ver.char_cnt_bits(Mode::Byte), data[0..8].as_bytes()));
}

#[test]
fn test_compute_optimal_segments_9() {
    let data = "aaa1111AA";
    let ver = Version::Normal(1);
    let segs = compute_optimal_segments(data.as_bytes(), ver);
    assert_eq!(segs.len(), 2);
    assert_eq!(segs[0], Segment::new(Mode::Byte, ver.mode_bits(), ver.char_cnt_bits(Mode::Byte), data[0..3].as_bytes()));
    assert_eq!(segs[1], Segment::new(Mode::Alphanumeric, ver.mode_bits(), ver.char_cnt_bits(Mode::Alphanumeric), data[3..9].as_bytes()));
}

#[test]
fn test_compute_optimal_segments_10() {
    let data = "aaa1111111AA";
    let ver = Version::Normal(1);
    let segs = compute_optimal_segments(data.as_bytes(), ver);
    assert_eq!(segs.len(), 3);
    assert_eq!(segs[0], Segment::new(Mode::Byte, ver.mode_bits(), ver.char_cnt_bits(Mode::Byte), data[0..3].as_bytes()));
    assert_eq!(segs[1], Segment::new(Mode::Numeric, ver.mode_bits(), ver.char_cnt_bits(Mode::Numeric), data[3..10].as_bytes()));
    assert_eq!(segs[2], Segment::new(Mode::Alphanumeric, ver.mode_bits(), ver.char_cnt_bits(Mode::Alphanumeric), data[10..12].as_bytes()));
}

#[test]
fn long_byte_run_stays_one_segment() {
    let data = "a".repeat(256);
    let ver = Version::Normal(1);
    let segs = compute_optimal_segments(data.as_bytes(), ver);
    assert_eq!(segs.len(), 1);
    assert_eq!(segs[0], Segment::new(Mode::Byte, ver.mode_bits(), ver.char_cnt_bits(Mode::Byte), data.as_bytes()));
}

#[test]
fn long_run_is_written_in_pieces_and_read_back() {
    // 322 bytes of one run exceed the 8-bit count field of versions 1 to 9, so the run is
    // written as two segments and reads back whole.
    let data = "a".repeat(322);
    let (mut enc, ver) = encode(data.as_bytes(), ECLevel::L, true).unwrap();
    assert!(ver.width() >= 21);
    let decoded = decode(&mut enc, ver, ECLevel::L, true).unwrap();
    assert_eq!(decoded, data);
}
