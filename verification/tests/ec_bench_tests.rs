use qrism::bench_hooks::rs_encode;
use qrism::ec::ec_bench::{
    berlekamp_massey, block_syndromes, correct_block, eloc_poly, poly_add, poly_eval, DeQRError,
    RSParameters,
};

const DATA: [u8; 11] = [32, 91, 11, 45, 89, 123, 77, 44, 56, 99, 202];
const PARAMS: RSParameters = RSParameters { bs: 15, dw: 11, ns: 1 };

#[test]
fn ec_bench_parity_matches_encoder() {
    assert_eq!(rs_encode(&DATA, 4)[11..], [21, 197, 229, 186]);
}

#[test]
fn ec_bench_correct_block_one_error() {
    let mut bad = [32, 91, 11, 45, 89, 46, 77, 44, 56, 99, 202, 21, 197, 229, 186];
    correct_block(&mut bad, &PARAMS).unwrap();
    assert_eq!(&bad[..11], &DATA);
}

#[test]
fn ec_bench_correct_block_two_errors() {
    let mut bad = [32, 91, 11, 45, 89, 46, 77, 44, 56, 99, 249, 21, 197, 229, 186];
    correct_block(&mut bad, &PARAMS).unwrap();
    assert_eq!(&bad[..11], &DATA);
}

#[test]
fn ec_bench_correct_block_too_many_errors() {
    let mut bad = [138, 91, 161, 45, 243, 46, 231, 44, 146, 99, 202, 0, 0, 0, 0];
    assert_eq!(correct_block(&mut bad, &PARAMS), Err(DeQRError::DataEcc));
}

#[test]
fn ec_bench_valid_block_untouched() {
    let mut good = rs_encode(&DATA, 4);
    good.push(7);
    let before = good.clone();
    assert_eq!(correct_block(&mut good, &PARAMS), Ok(()));
    assert_eq!(good, before);
}

#[test]
fn ec_bench_syndromes() {
    let good = rs_encode(&DATA, 4);
    let s = block_syndromes(&good, 4);
    assert_eq!(s, Ok([0u8; 64]));
    let mut bad = good.clone();
    bad[3] ^= 1;
    let s = block_syndromes(&bad, 4).unwrap_err();
    assert!(s[..4].iter().all(|x| *x != 0));
    assert!(s[4..].iter().all(|x| *x == 0));
}

#[test]
fn ec_bench_locator_of_no_errors_is_one() {
    let s = [0u8; 64];
    let sigma = berlekamp_massey(&s, 10);
    assert_eq!(sigma[0], 1);
    assert!(sigma[1..].iter().all(|x| *x == 0));
}

#[test]
fn ec_bench_locator_of_one_error() {
    // One error of magnitude 1 at the position with locator a^3 gives syndromes a^(3i).
    let mut s = [0u8; 64];
    let mut p: u8 = 1;
    for i in 0..4 {
        s[i] = p;
        // multiply by a^3 = 8
        for _ in 0..3 {
            p = if p & 0x80 != 0 { (p << 1) ^ 0x1d } else { p << 1 };
        }
    }
    let sigma = berlekamp_massey(&s, 4);
    assert_eq!(sigma[0], 1);
    assert_eq!(sigma[1], 8);
    assert!(sigma[2..].iter().all(|x| *x == 0));
}

#[test]
fn ec_bench_poly_helpers() {
    let mut dst = [0u8; 64];
    dst[0] = 1;
    let mut src = [0u8; 64];
    src[0] = 3;
    src[63] = 5;
    poly_add(&mut dst, &src, 2, 2);
    assert_eq!(dst[0], 1);
    assert_eq!(dst[2], 6);
    assert!(dst[3..].iter().all(|x| *x == 0));
    poly_add(&mut dst, &src, 0, 1);
    assert_eq!(dst[1], 0);
    // 1 + 6 x^2 at x = 2: 1 + 6 * 4 = 1 ^ 24 = 25
    assert_eq!(poly_eval(&dst, 2), 25);
    let mut sigma = [0u8; 64];
    sigma[0] = 1;
    sigma[1] = 2;
    let mut synd = [0u8; 64];
    synd[1] = 3;
    synd[2] = 4;
    let omega = eloc_poly(&synd, &sigma, 2);
    // omega[0] = sigma[0] * s[1]; omega[1] = sigma[0] * s[2] + sigma[1] * s[1]
    assert_eq!(omega[0], 3);
    assert_eq!(omega[1], 4 ^ 6);
    assert!(omega[2..].iter().all(|x| *x == 0));
}

#[test]
fn ec_bench_error_messages() {
    assert_eq!(DeQRError::DataEcc.message(), "Ecc(Too many errors to correct)");
    assert_eq!(DeQRError::EncodingError.message(), "Encoding(Not UTF8)");
}
