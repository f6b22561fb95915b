use qrism::bit_types::BitStream;

#[test]
fn bit_utils_test_len() {
    let bit_capacity = 152;
    let mut bs = BitStream::new(bit_capacity);
    assert_eq!(bs.len(), 0);
    bs.push_bits(0, 0);
    assert_eq!(bs.len(), 0);
    bs.push_bits(0b1000, 4);
    assert_eq!(bs.len(), 4);
    bs.push_bits(0b1000, 8);
    assert_eq!(bs.len(), 12);
    bs.push_bits(0b1000, 4);
    assert_eq!(bs.len(), 16);
    bs.push_bits(0b1111111, 7);
    assert_eq!(bs.len(), 23);
    bs.push_bits(0b111111111111, 12);
    assert_eq!(bs.len(), 35);
    bs.push_bits(0b111111111111, 16);
    assert_eq!(bs.len(), 51);

}

#[test]
fn bit_utils_test_push() {
    let mut bs = BitStream::new(2);
    bs.push(false);
    assert_eq!(bs.data()[..1], vec![0b00000000]);
    bs.push(true);
    assert_eq!(bs.data()[..1], vec![0b01000000]);

}

#[test]
fn bit_utils_test_push_bits() {
    let bit_capacity = 152;
    let exp_vec = [210, 52, 141, 35, 72, 210, 183, 42, 7, 219, 91, 14, 253, 68, 120, 193];
    let mut inp = BitStream::from(&exp_vec);
    let mut out = BitStream::new(bit_capacity);
    for n in [0, 1, 2, 3, 4, 5, 6, 7, 8, 4, 8, 9, 11, 15, 16, 5, 16] {
        let bits = inp.take_bits(n).unwrap();
        out.push_bits(bits, n);
        let out_off = out.len() & 7;
        let len = out.len() >> 3;
        assert_eq!(out.data()[..len], exp_vec[..len], "n {n}");
        if out_off > 0 {
            assert_eq!(out.data()[len] >> (8 - out_off), exp_vec[len] >> (8 - out_off));
        }
    }

}

#[test]
fn bit_utils_test_take_bits() {
    let data = [
        0b11010010, 0b00110100, 0b10001101, 0b00100011, 0b01001000, 0b11010010, 0b00110100,
        0b10001101, 0b00100011, 0b01001000, 0b11010010, 0b00110100, 0b10001100,
    ];
    let mut bs = BitStream::from(&data);
    let bits = bs.take_bits(0);
    assert_eq!(bits, Some(0));
    let bits = bs.take_bits(4);
    assert_eq!(bits, Some(0b1101));
    let bits = bs.take_bits(4);
    assert_eq!(bits, Some(0b0010));
    let bits = bs.take_bits(8);
    assert_eq!(bits, Some(0b00110100));
    let bits = bs.take_bits(9);
    assert_eq!(bits, Some(0b100011010));
    let bits = bs.take_bits(7);
    assert_eq!(bits, Some(0b0100011));
    let bits = bs.take_bits(16);
    assert_eq!(bits, Some(0b01001000_11010010));
    let bits = bs.take_bits(1);
    assert_eq!(bits, Some(0b0));
    let bits = bs.take_bits(11);
    assert_eq!(bits, Some(0b01101001000));
    let bits = bs.take_bits(14);
    assert_eq!(bits, Some(0b11010010001101));
    let bits = bs.take_bits(16);
    assert_eq!(bits, Some(0b0010001101001000));
    let bits = bs.take_bits(4);
    assert_eq!(bits, Some(0b1101));
    let bits = bs.take_bits(4);
    assert_eq!(bits, Some(0b0010));

}
