use qrism::builder::ec::{ecc, ecc_per_block};
use qrism::metadata::{ECLevel, Version};

#[test]
fn test_poly_mod_1() {
    let res = ecc_per_block(b" [\x0bx\xd1r\xdcMC@\xec\x11\xec\x11\xec\x11", 10);
    assert_eq!(&*res, b"\xc4#'w\xeb\xd7\xe7\xe2]\x17");

}

#[test]
fn test_poly_mod_2() {
    let res = ecc_per_block(b" [\x0bx\xd1r\xdcMC@\xec\x11\xec", 13);
    assert_eq!(&*res, b"\xa8H\x16R\xd96\x9c\x00.\x0f\xb4z\x10");

}

#[test]
fn test_poly_mod_3() {
    let res = ecc_per_block(b"CUF\x86W&U\xc2w2\x06\x12\x06g&", 18);
    assert_eq!(&*res, b"\xd5\xc7\x0b-s\xf7\xf1\xdf\xe5\xf8\x9au\x9aoV\xa1o'");

}

#[test]
fn ec_test_add_ec_simple() {
    let msg = b" [\x0bx\xd1r\xdcMC@\xec\x11\xec\x11\xec\x11";
    let expected_ecc = [b"\xc4\x23\x27\x77\xeb\xd7\xe7\xe2\x5d\x17"];
    let (_, ecc) = ecc(msg, Version::Normal(1), ECLevel::M);
    assert_eq!(&*ecc, expected_ecc);

}

#[test]
fn ec_test_add_ec_complex() {
    let msg = b"CUF\x86W&U\xc2w2\x06\x12\x06g&\xf6\xf6B\x07v\x86\xf2\x07&V\x16\xc6\xc7\x92\x06\
                \xb6\xe6\xf7w2\x07v\x86W&R\x06\x86\x972\x07F\xf7vV\xc2\x06\x972\x10\xec\x11\xec\
                \x11\xec\x11\xec";
    let expected_ec = [
        b"\xd5\xc7\x0b\x2d\x73\xf7\xf1\xdf\xe5\xf8\x9a\x75\x9a\x6f\x56\xa1\x6f\x27",
        b"\x57\xcc\x60\x3c\xca\xb6\x7c\x9d\xc8\x86\x1b\x81\xd1\x11\xa3\xa3\x78\x85",
        b"\x94\x74\xb1\xd4\x4c\x85\x4b\xf2\xee\x4c\xc3\xe6\xbd\x0a\x6c\xf0\xc0\x8d",
        b"\xeb\x9f\x05\xad\x18\x93\x3b\x21\x6a\x28\xff\xac\x52\x02\x83\x20\xb2\xec",
    ];
    let (_, ecc) = ecc(msg, Version::Normal(5), ECLevel::Q);
    assert_eq!(&*ecc, &expected_ec[..]);

}
