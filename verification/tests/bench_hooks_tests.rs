use qrism::bench_hooks::{data_region, rs_decode, rs_encode};
use qrism::metadata::Version;

const MSG: &[u8] = b" [\x0bx\xd1r\xdcMC@\xec\x11\xec\x11\xec\x11";

#[test]
fn bench_rs_encode_appends_parity() {
    let cw = rs_encode(MSG, 10);
    assert_eq!(&cw[..16], MSG);
    assert_eq!(&cw[16..], b"\xc4#'w\xeb\xd7\xe7\xe2]\x17");
}

#[test]
fn bench_rs_decode_corrects_errors_and_erasures() {
    let cw = rs_encode(MSG, 10);
    let no_erasures = vec![false; cw.len()];
    assert_eq!(rs_decode(&cw, 16, &no_erasures), Some(MSG.to_vec()));
    let mut damaged = cw.clone();
    damaged[0] ^= 0x55;
    damaged[20] ^= 0x01;
    assert_eq!(rs_decode(&damaged, 16, &no_erasures), Some(MSG.to_vec()));
    let mut erased = vec![false; cw.len()];
    for i in 3..9 {
        damaged[i] = 0;
        erased[i] = true;
    }
    damaged[20] = cw[20];
    assert_eq!(rs_decode(&damaged, 16, &erased), Some(MSG.to_vec()));
    let all = vec![true; cw.len()];
    assert_eq!(rs_decode(&cw, 16, &all), None);
}

#[test]
fn bench_data_region_covers_the_codewords() {
    let region = data_region(Version::Normal(1));
    assert_eq!(region.len(), 26 * 8);
    assert_eq!(region[0], (20, 20));
    assert_eq!(region[1], (19, 20));
    let region7 = data_region(Version::Normal(7));
    assert_eq!(region7.len(), 196 * 8);
}
