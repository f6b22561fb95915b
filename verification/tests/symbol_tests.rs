use qrism::builder::qr::{Module, QR};
use qrism::builder::QRBuilder;
use qrism::error::QRError;
use qrism::iter::EncRegionIter;
use qrism::mask::{
    apply_best_mask, checkerboard, compute_total_penalty, diagonal_lines, diamonds, fields,
    horizontal_lines, large_checkerboard, meadow, vertical_lines, MaskingPattern,
};
use qrism::metadata::{Color, ECLevel, Version};

#[test]
fn iter_test_enc_region_iter() {
    for v in 1..40 {
        let ver = Version::Normal(v);
        let mut coords = EncRegionIter::new(ver);
        let mut count = 0;
        while coords.next().is_some() {
            count += 1;
        }
        assert_eq!(count / 8, ver.channel_codewords());
    }
}

#[test]
fn test_region_starts_bottom_right_and_skips_reserved() {
    let ver = Version::Normal(1);
    let mut coords = EncRegionIter::new(ver);
    assert_eq!(coords.next(), Some((20, 20)));
    assert_eq!(coords.next(), Some((19, 20)));
    assert_eq!(coords.next(), Some((20, 19)));
    let mut coords = EncRegionIter::new(ver);
    while let Some((x, y)) = coords.next() {
        assert!(!coords.is_reserved(x, y) || (x, y) == (20, 20));
        assert!(x != 6 && y != 6);
    }
}

#[test]
fn test_mask_conditions() {
    assert!(checkerboard(0, 0));
    assert!(!checkerboard(0, 1));
    assert!(horizontal_lines(2, 1));
    assert!(!horizontal_lines(1, 2));
    assert!(vertical_lines(1, 3));
    assert!(!vertical_lines(1, 4));
    assert!(diagonal_lines(1, 2));
    assert!(!diagonal_lines(1, 1));
    assert!(large_checkerboard(0, 0));
    assert!(!large_checkerboard(2, 0));
    assert!(fields(0, 5));
    assert!(!fields(1, 1));
    assert!(diamonds(1, 1));
    assert!(!diamonds(1, 3));
    assert!(meadow(0, 0));
    assert!(!meadow(1, 0));
    for m in 0..8u8 {
        let p = MaskingPattern::new(m);
        assert_eq!(p.value(), m);
    }
    assert!(MaskingPattern::new(4).get_mask_functions(0, 0));
    assert!(!MaskingPattern::new(4).get_mask_functions(0, 3));
}

#[test]
fn test_build_hello_world() {
    let data = "Hello, world!".as_bytes();
    let mut bldr = QRBuilder::new(data);
    bldr.version(Version::Normal(1)).ec_level(ECLevel::L);
    let qr = bldr.build().unwrap();
    assert_eq!(qr.version(), Version::Normal(1));
    assert_eq!(qr.width(), 21);
    assert_eq!(qr.ec_level(), ECLevel::L);
    assert!(!qr.palette());
    assert!(qr.mask().is_some());
    let data_modules = qr.grid().iter().filter(|m| matches!(m, Module::Data(_))).count();
    assert_eq!(data_modules, 26 * 8);
    assert!(!qr.grid().contains(&Module::Empty));
    assert!(qr.count_dark_modules() > 0);
}

#[test]
fn test_build_chooses_smallest_version() {
    let data = "a".repeat(20);
    let qr = QRBuilder::new(data.as_bytes()).ec_level(ECLevel::L).build().unwrap();
    assert_eq!(qr.version(), Version::Normal(2));
}

#[test]
fn test_build_keeps_given_mask() {
    let data = "12345".as_bytes();
    let mask = MaskingPattern::new(3);
    let qr = QRBuilder::new(data).version(Version::Normal(2)).mask(mask).build().unwrap();
    assert_eq!(qr.mask(), Some(mask));
}

#[test]
fn test_build_high_capacity() {
    let data = "Hello, colourful world!".as_bytes();
    let qr = QRBuilder::new(data)
        .version(Version::Normal(3))
        .ec_level(ECLevel::M)
        .high_capacity(true)
        .build()
        .unwrap();
    assert!(qr.palette());
    let coloured = qr
        .grid()
        .iter()
        .filter(|m| matches!(m, Module::Data(c) if *c != Color::Black && *c != Color::White))
        .count();
    assert!(coloured > 0);
    assert!(!qr.grid().contains(&Module::Empty));
}

#[test]
fn test_build_errors() {
    let empty: [u8; 0] = [];
    let err = QRBuilder::new(&empty).build().err().unwrap();
    assert_eq!(err, QRError::EmptyData);
    assert_eq!(err.message(), "Empty data");
    let data = "1234567890".repeat(306);
    let err = QRBuilder::new(data.as_bytes())
        .version(Version::Normal(40))
        .ec_level(ECLevel::H)
        .build()
        .err()
        .unwrap();
    assert_eq!(err, QRError::DataTooLong);
    let data = "a".repeat(3000);
    let err = QRBuilder::new(data.as_bytes()).ec_level(ECLevel::L).build().err().unwrap();
    assert_eq!(err, QRError::DataTooLong);
}

#[test]
fn test_mask_twice_restores_data() {
    let data = "Hello, world!".as_bytes();
    let qr = QRBuilder::new(data)
        .version(Version::Normal(1))
        .mask(MaskingPattern::new(5))
        .build()
        .unwrap();
    let mut twice = qr.duplicate();
    twice.apply_mask(MaskingPattern::new(2));
    twice.apply_mask(MaskingPattern::new(2));
    for (a, b) in twice.grid().iter().zip(qr.grid().iter()) {
        if let Module::Data(_) = b {
            assert_eq!(a, b);
        }
    }
    twice.apply_mask(MaskingPattern::new(5));
    twice.apply_mask(MaskingPattern::new(5));
    assert_eq!(twice.grid(), qr.grid());
}

#[test]
fn test_best_mask_has_least_penalty() {
    let data = "Verified QR".as_bytes();
    let qr = QRBuilder::new(data).version(Version::Normal(2)).mask(MaskingPattern::new(0)).build().unwrap();
    // Undo mask 0, then let the best mask be chosen.
    let mut unmasked = qr.duplicate();
    unmasked.apply_mask(MaskingPattern::new(0));
    let mut best = unmasked.duplicate();
    let m = apply_best_mask(&mut best);
    let best_penalty = compute_total_penalty(&best);
    for k in 0..8u8 {
        let mut cand = unmasked.duplicate();
        cand.apply_mask(MaskingPattern::new(k));
        let p = compute_total_penalty(&cand);
        assert!(best_penalty <= p);
        if k < m.value() {
            assert!(best_penalty < p);
        }
    }
    assert_eq!(best.mask(), Some(m));
}

#[test]
fn test_metadata_of_symbol() {
    let qr = QR::new(Version::Normal(7), ECLevel::Q, false);
    let meta = qr.metadata();
    assert_eq!(meta.ver, Some(Version::Normal(7)));
    assert_eq!(meta.ecl, Some(ECLevel::Q));
    assert_eq!(meta.mask, None);
    assert_eq!(qr.count_dark_modules(), 0);
}
