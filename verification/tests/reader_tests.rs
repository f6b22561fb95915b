use qrism::bit_types::BitStream;
use qrism::builder::QRBuilder;
use qrism::metadata::{ECLevel, Version};
use qrism::reader::QRReader;

#[test]
fn test_deinterleave() {
    let data = vec![1, 4, 7, 2, 5, 8, 3, 6, 9, 0];
    let deinterleaved = QRReader::deinterleave(&data, (3, 2, 4, 1));
    let exp_deinterleaved = vec![vec![1, 2, 3], vec![4, 5, 6], vec![7, 8, 9, 0]];
    assert_eq!(deinterleaved, exp_deinterleaved);
}

#[test]
fn deinterleave_undoes_interleave() {
    // Two blocks of two codewords and two of three, as a builder lays them out.
    let blocks: Vec<Vec<u8>> = vec![vec![10, 11], vec![20, 21], vec![30, 31, 32], vec![40, 41, 42]];
    let interleaved: Vec<u8> = vec![10, 20, 30, 40, 11, 21, 31, 41, 32, 42];
    assert_eq!(QRReader::deinterleave(&interleaved, (2, 2, 3, 2)), blocks);
}

#[test]
fn deinterleave_undoes_builder_interleaving() {
    let ver = Version::Normal(5);
    let ecl = ECLevel::Q;
    let blocks = ver.data_codewords_per_block(ecl);
    assert_eq!(blocks, (15, 2, 16, 2));
    let len = blocks.0 * blocks.1 + blocks.2 * blocks.3;
    let data: Vec<u8> = (0..len).map(|i| (i * 7 + 3) as u8).collect();
    let blks = QRBuilder::blockify(&data, ver, ecl);
    let mut out = BitStream::new(ver.channel_codewords() * 8);
    QRBuilder::interleave_into(&blks, &mut out);
    let back = QRReader::deinterleave(&out.data()[..len], blocks);
    assert_eq!(back.len(), 4);
    assert_eq!(back[0], data[0..15].to_vec());
    assert_eq!(back[1], data[15..30].to_vec());
    assert_eq!(back[2], data[30..46].to_vec());
    assert_eq!(back[3], data[46..62].to_vec());
}
