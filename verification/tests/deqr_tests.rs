use qrism::builder::qr::QR;
use qrism::builder::QRBuilder;
use qrism::deqr::DeQR;
use qrism::error::QRError;
use qrism::mask::MaskingPattern;
use qrism::metadata::{Color, ECLevel, Version, FORMAT_INFOS_QR, FORMAT_MASK};

fn luma_of(qr: &QR) -> Vec<u8> {
    qr.grid().iter().map(|m| if m.color() == Color::Black { 0 } else { 255 }).collect()
}

fn hello_symbol(ver: usize, mask: u8) -> QR {
    QRBuilder::new("Hello, world!".as_bytes())
        .version(Version::Normal(ver))
        .ec_level(ECLevel::L)
        .mask(MaskingPattern::new(mask))
        .build()
        .unwrap()
}

#[test]
fn deqr_reads_dark_modules() {
    let qr = hello_symbol(1, 0);
    let deqr = DeQR::from_luma(&luma_of(&qr), Version::Normal(1));
    assert_eq!(deqr.count_dark_modules(), qr.count_dark_modules());
}

#[test]
fn deqr_threshold_is_128() {
    let mut luma = vec![255u8; 21 * 21];
    luma[0] = 127;
    luma[1] = 128;
    luma[2] = 0;
    let deqr = DeQR::from_luma(&luma, Version::Normal(1));
    assert_eq!(deqr.count_dark_modules(), 2);
}

#[test]
fn deqr_reads_back_format_info() {
    // Level L is coded 01 and mask 0 is 000: the data bits are 01000.
    let qr = hello_symbol(1, 0);
    let mut deqr = DeQR::from_luma(&luma_of(&qr), Version::Normal(1));
    let info = deqr.identify_format_info().unwrap();
    assert_eq!(info, FORMAT_INFOS_QR[8] ^ FORMAT_MASK);
    assert_eq!(info >> 10, 0b01000);
    // The format modules are marked once read, and read as dark.
    let mut again = DeQR::from_luma(&luma_of(&qr), Version::Normal(1));
    assert!(again.count_dark_modules() <= deqr.count_dark_modules());
    assert_eq!(again.identify_format_info(), Ok(info));
}

#[test]
fn deqr_corrects_format_info() {
    let qr = hello_symbol(1, 2);
    let mut luma = luma_of(&qr);
    // Flip two modules of the main copy: (0, 8) and (1, 8).
    luma[8] = 255 - luma[8];
    luma[21 + 8] = 255 - luma[21 + 8];
    let mut deqr = DeQR::from_luma(&luma, Version::Normal(1));
    assert_eq!(deqr.identify_format_info(), Ok(FORMAT_INFOS_QR[10] ^ FORMAT_MASK));
}

#[test]
fn deqr_rejects_unreadable_format_info() {
    let luma = vec![255u8; 21 * 21];
    let mut deqr = DeQR::from_luma(&luma, Version::Normal(1));
    assert_eq!(deqr.identify_format_info(), Err(QRError::InvalidFormatInfo));
    assert_eq!(deqr.count_dark_modules(), 0);
}

#[test]
fn deqr_version_info_gives_the_information_word() {
    let qr = hello_symbol(7, 1);
    let mut deqr = DeQR::from_luma(&luma_of(&qr), Version::Normal(7));
    assert_eq!(deqr.verify_version_info(), Ok(Version::Normal(0x07c94)));
    let luma = vec![255u8; 45 * 45];
    let mut blank = DeQR::from_luma(&luma, Version::Normal(7));
    assert_eq!(blank.verify_version_info(), Err(QRError::InvalidVersionInfo));
}

#[test]
fn deqr_get_number_reads_bits_in_order() {
    let mut luma = vec![255u8; 21 * 21];
    luma[0] = 0;
    luma[2] = 0;
    let mut deqr = DeQR::from_luma(&luma, Version::Normal(1));
    assert_eq!(deqr.get_number(&[(0, 0), (0, 1), (0, 2)]), 0b101);
    assert_eq!(deqr.get_number(&[(0, 2), (0, 1), (0, 1)]), 0b100);
    // Negative coordinates count from the far edge.
    assert_eq!(deqr.get_number(&[(-21, -21), (0, -1)]), 0b10);
}

#[test]
fn deqr_marking_reads_as_dark() {
    let luma = vec![255u8; 21 * 21];
    let mut deqr = DeQR::from_luma(&luma, Version::Normal(1));
    deqr.mark_coords(&[(0, 0), (-1, -1)]);
    assert_eq!(deqr.count_dark_modules(), 2);
    assert_eq!(deqr.get_number(&[(0, 0), (0, 1), (20, 20)]), 0b101);
}

#[test]
fn deqr_marks_function_patterns() {
    let luma = vec![255u8; 21 * 21];
    let mut deqr = DeQR::from_luma(&luma, Version::Normal(1));
    deqr.mark_finder_patterns();
    assert_eq!(deqr.count_dark_modules(), 3 * 64);
    deqr.mark_timing_patterns();
    assert_eq!(deqr.count_dark_modules(), 3 * 64 + 2 * 5);
    deqr.mark_alignment_patterns();
    assert_eq!(deqr.count_dark_modules(), 3 * 64 + 2 * 5);

    let luma = vec![255u8; 25 * 25];
    let mut deqr = DeQR::from_luma(&luma, Version::Normal(2));
    deqr.mark_all_function_patterns();
    assert_eq!(deqr.count_dark_modules(), 3 * 64 + 2 * 9 + 25);
}

#[test]
fn deqr_mark_line_and_alignment() {
    let luma = vec![255u8; 21 * 21];
    let mut deqr = DeQR::from_luma(&luma, Version::Normal(1));
    deqr.mark_line(10, 2, 10, 5);
    assert_eq!(deqr.count_dark_modules(), 4);
    deqr.mark_line(2, 12, 4, 12);
    assert_eq!(deqr.count_dark_modules(), 7);
    deqr.mark_alignment_pattern_at(6, 6);
    assert_eq!(deqr.count_dark_modules(), 7);
    deqr.mark_alignment_pattern_at(14, 14);
    assert_eq!(deqr.count_dark_modules(), 32);
    deqr.mark_finder_pattern_at(-4, 3);
    assert_eq!(deqr.count_dark_modules(), 32 + 64);
}

#[test]
fn deqr_unmask_twice_restores() {
    let qr = hello_symbol(1, 5);
    let mut deqr = DeQR::from_luma(&luma_of(&qr), Version::Normal(1));
    let before = deqr.count_dark_modules();
    deqr.unmask(MaskingPattern::new(5));
    deqr.unmask(MaskingPattern::new(5));
    assert_eq!(deqr.count_dark_modules(), before);
}

#[test]
fn deqr_unmask_flips_where_the_pattern_holds() {
    let luma = vec![255u8; 21 * 21];
    let mut deqr = DeQR::from_luma(&luma, Version::Normal(1));
    deqr.unmask(MaskingPattern::new(1));
    // Pattern 1 holds on even rows: 11 rows of 21.
    assert_eq!(deqr.count_dark_modules(), 11 * 21);
}

#[test]
fn deqr_extracts_one_byte_per_data_module() {
    let qr = hello_symbol(1, 3);
    let mut deqr = DeQR::from_luma(&luma_of(&qr), Version::Normal(1));
    deqr.mark_all_function_patterns();
    assert!(deqr.identify_format_info().is_ok());
    deqr.unmask(MaskingPattern::new(3));
    let payload = deqr.extract_payload(Version::Normal(1));
    assert_eq!(payload.len(), 26 * 8);
    assert!(payload.iter().all(|b| *b == 0 || *b == 0xFF));
    // Packing eight of them at a time gives the codewords back: byte mode, 13 bytes, 'H'.
    let pack = |k: usize| payload[8 * k..8 * k + 8].iter().fold(0u8, |acc, b| (acc << 1) | (b & 1));
    assert_eq!(pack(0), 0x40);
    assert_eq!(pack(1), 0xD4);
    assert_eq!(pack(2), 0x86);
}

#[test]
fn deqr_extract_skips_marked_modules() {
    let luma = vec![0u8; 21 * 21];
    let mut deqr = DeQR::from_luma(&luma, Version::Normal(1));
    deqr.mark_coords(&[(20, 20), (19, 20)]);
    let payload = deqr.extract_payload(Version::Normal(1));
    assert_eq!(payload.len(), 26 * 8 - 2);
    assert!(payload.iter().all(|b| *b == 0xFF));
}

#[test]
fn deqr_reads_scaled_image() {
    let qr = hello_symbol(1, 0);
    let small = luma_of(&qr);
    // Three pixels per module, with one stray pixel per module flipped.
    let side = 21 * 3;
    let mut big = vec![0u8; side * side];
    for y in 0..side {
        for x in 0..side {
            let mut v = small[(y / 3) * 21 + x / 3];
            if y % 3 == 0 && x % 3 == 0 {
                v = 255 - v;
            }
            big[y * side + x] = v;
        }
    }
    let mut scaled = DeQR::from_luma_scaled(&big, side, Version::Normal(1));
    assert_eq!(scaled.count_dark_modules(), qr.count_dark_modules());
    assert_eq!(scaled.identify_format_info(), Ok(FORMAT_INFOS_QR[8] ^ FORMAT_MASK));
    // One pixel per module reads as before.
    let one = DeQR::from_luma_scaled(&small, 21, Version::Normal(1));
    assert_eq!(one.count_dark_modules(), qr.count_dark_modules());
}
