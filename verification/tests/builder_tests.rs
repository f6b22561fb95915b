use qrism::bit_types::BitStream;
use qrism::builder::QRBuilder;
use qrism::ec::block::Block;
use qrism::metadata::{ECLevel, Version};

#[test]
fn mod_test_metadata() {
    let data = "Hello, world!".as_bytes();
    let ver = Version::Normal(1);
    let ecl = ECLevel::L;
    let mut qr_bldr = QRBuilder::new(data);
    qr_bldr.version(ver).ec_level(ecl).high_capacity(false);
    assert_eq!(qr_bldr.metadata(), "{ Version: 1, Ec level: L, High Capacity: false }");
    qr_bldr.unset_version();
    assert_eq!(qr_bldr.metadata(), "{ Version: None, Ec level: L, High Capacity: false }");

}

#[test]
fn mod_test_add_ec_simple() {
    let msg = b" [\x0bx\xd1r\xdcMC@\xec\x11\xec\x11\xec\x11";
    let exp_ecc = [b"\xc4\x23\x27\x77\xeb\xd7\xe7\xe2\x5d\x17"];
    let blks = QRBuilder::blockify(msg, Version::Normal(1), ECLevel::M);
    assert_eq!(blks.len(), exp_ecc.len());
    for (i, b) in blks.iter().enumerate() {
        assert_eq!(b.ecc(), *exp_ecc[i]);
    }

}

#[test]
fn mod_test_add_ec_complex() {
    let msg = b"CUF\x86W&U\xc2w2\x06\x12\x06g&\xf6\xf6B\x07v\x86\xf2\x07&V\x16\xc6\xc7\x92\x06\
                \xb6\xe6\xf7w2\x07v\x86W&R\x06\x86\x972\x07F\xf7vV\xc2\x06\x972\x10\xec\x11\xec\
                \x11\xec\x11\xec";
    let exp_ecc = [
        b"\xd5\xc7\x0b\x2d\x73\xf7\xf1\xdf\xe5\xf8\x9a\x75\x9a\x6f\x56\xa1\x6f\x27",
        b"\x57\xcc\x60\x3c\xca\xb6\x7c\x9d\xc8\x86\x1b\x81\xd1\x11\xa3\xa3\x78\x85",
        b"\x94\x74\xb1\xd4\x4c\x85\x4b\xf2\xee\x4c\xc3\xe6\xbd\x0a\x6c\xf0\xc0\x8d",
        b"\xeb\x9f\x05\xad\x18\x93\x3b\x21\x6a\x28\xff\xac\x52\x02\x83\x20\xb2\xec",
    ];
    let blks = QRBuilder::blockify(msg, Version::Normal(5), ECLevel::Q);
    assert_eq!(blks.len(), exp_ecc.len());
    for (i, b) in blks.iter().enumerate() {
        assert_eq!(b.ecc(), *exp_ecc[i]);
    }

}

#[test]
fn test_interleave() {
    let data = [vec![1, 2, 3], vec![4, 5, 6], vec![7, 8, 9, 0]];
    let mut blks: Vec<Block> = Vec::with_capacity(256);
    data.iter().for_each(|b| blks.push(Block::new(b, 6)));
    let mut ilvd = BitStream::new(256);
    QRBuilder::interleave_into(&blks, &mut ilvd);
    let exp_ilvd = vec![1, 4, 7, 2, 5, 8, 3, 6, 9, 0];
    assert_eq!(ilvd.data()[..10], exp_ilvd);

}
