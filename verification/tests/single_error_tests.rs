use qrism::bench_hooks::{rs_decode, rs_encode};
use qrism::ec::block::Block;

#[test]
fn any_single_error_is_corrected() {
    let data: Vec<u8> = (0u8..20).map(|i| i.wrapping_mul(37).wrapping_add(5)).collect();
    let enc = rs_encode(&data, 10);
    let erased = vec![false; enc.len()];
    for p in 0..enc.len() {
        for e in [1u8, 0x80, 0xff] {
            let mut recv = enc.clone();
            recv[p] ^= e;
            assert_eq!(rs_decode(&recv, data.len(), &erased), Some(data.clone()));
            let mut blk = Block::with_encoded(&recv, data.len());
            assert_eq!(blk.rectify().unwrap(), data);
            assert_eq!(blk.full(), &enc[..]);
        }
    }
}

#[test]
fn a_single_flagged_error_is_corrected() {
    let data: Vec<u8> = (0u8..30).map(|i| i.wrapping_mul(91).wrapping_add(17)).collect();
    let enc = rs_encode(&data, 6);
    for p in 0..enc.len() {
        let mut recv = enc.clone();
        recv[p] ^= 0x5a;
        let mut erased = vec![false; enc.len()];
        erased[p] = true;
        assert_eq!(rs_decode(&recv, data.len(), &erased), Some(data.clone()));
        let mut blk = Block::with_encoded(&recv, data.len());
        assert_eq!(blk.rectify_with_erasures(&erased).unwrap(), data);
    }
}
