use qrism::ec::block::Block;

/// Builds a block, corrupts `corrupt`, flags `flagged` as erasures, and reports whether the
/// data comes back.
fn run(dlen: usize, ec_len: usize, corrupt: &[usize], flagged: &[usize]) -> bool {
    let data: Vec<u8> = (0..dlen).map(|i| (i * 7 + 13) as u8).collect();
    let len = dlen + ec_len;
    let mut blk = Block::new(&data, len);
    for &i in corrupt {
        blk.data[i] ^= 0xFF;
    }
    let mut erased = vec![false; len];
    for &i in flagged {
        erased[i] = true;
    }
    matches!(blk.rectify_with_erasures(&erased), Ok(d) if d == data.as_slice())
}

#[test]
fn test_pure_erasures_up_to_full_parity() {
    // With every corrupt position flagged, the budget is one parity symbol per erasure, so
    // all `ec_len` of them must come back.
    let (dlen, ec_len) = (40usize, 16usize);
    let all: Vec<usize> = (0..ec_len).collect();
    assert!(run(dlen, ec_len, &all, &all), "{ec_len} flagged erasures should be correctable");

}

#[test]
fn test_one_erasure_past_parity_fails() {
    let (dlen, ec_len) = (40usize, 16usize);
    let all: Vec<usize> = (0..ec_len + 1).collect();
    assert!(!run(dlen, ec_len, &all, &all), "more erasures than parity must not decode");

}

#[test]
fn test_erasures_beat_unflagged_errors_two_to_one() {
    // `ec_len` corruptions is twice what an error-only decode can fix, so it must fail
    // unflagged and succeed once flagged. This is the whole point of erasure decoding.
    let (dlen, ec_len) = (40usize, 16usize);
    let corrupt: Vec<usize> = (0..ec_len).collect();
    let none: Vec<usize> = vec![];
    assert!(!run(dlen, ec_len, &corrupt, &none), "unflagged: should exceed error capacity");
    assert!(run(dlen, ec_len, &corrupt, &corrupt), "flagged: should be within erasure budget");

}

#[test]
fn test_mixed_errors_and_erasures() {
    // 2 * errors + erasures <= ec_len. Here 4 unflagged errors and 8 erasures against 16.
    let (dlen, ec_len) = (60usize, 16usize);
    let corrupt: Vec<usize> = (0..12).collect();
    let flagged: Vec<usize> = (4..12).collect();
    assert!(run(dlen, ec_len, &corrupt, &flagged), "4 errors + 8 erasures within 16 parity");

}

#[test]
fn test_flagging_clean_positions_is_harmless() {
    // Erasures that turn out to be correct only spend budget; they must not corrupt data.
    let (dlen, ec_len) = (40usize, 16usize);
    let corrupt: Vec<usize> = vec![0, 5, 9];
    let flagged: Vec<usize> = vec![0, 5, 9, 20, 21, 22, 30];
    assert!(run(dlen, ec_len, &corrupt, &flagged), "over-flagging should still decode");

}

#[test]
fn test_no_erasures_matches_plain_rectify() {
    let (dlen, ec_len) = (40usize, 16usize);
    let corrupt: Vec<usize> = vec![3, 17, 29];
    assert!(run(dlen, ec_len, &corrupt, &[]), "empty erasure set falls back to rectify");

}
