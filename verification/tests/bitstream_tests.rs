use qrism::bit_types::BitStream;

#[test]
fn bitstream_test_len() {
    let bit_capacity = 152;
    let mut eb = BitStream::new(bit_capacity);
    assert_eq!(eb.len(), 0);
    eb.push_bits(0, 0);
    assert_eq!(eb.len(), 0);
    eb.push_bits(0b1000, 4);
    assert_eq!(eb.len(), 4);
    eb.push_bits(0b1000, 8);
    assert_eq!(eb.len(), 12);
    eb.push_bits(0b1000, 4);
    assert_eq!(eb.len(), 16);
    eb.push_bits(0b1111111, 7);
    assert_eq!(eb.len(), 23);

}

#[test]
fn bitstream_test_push() {
    let mut eb = BitStream::new(2);
    eb.push(false);
    assert_eq!(eb.data()[..1], vec![0b00000000]);
    eb.push(true);
    assert_eq!(eb.data()[..1], vec![0b01000000]);

}

#[test]
fn bitstream_test_push_bits() {
    let bit_capacity = 152;
    let exp_vec = [0b11010010, 0b00110100, 0b10001101, 0b00100011, 0b01001000, 0b11010010];
    let mut cursor = 0;
    let mut eb = BitStream::new(bit_capacity);
    for n in [0, 1, 2, 3, 4, 5, 6, 7, 8, 4, 8] {
        let offset = cursor & 7;
        let pos = cursor >> 3;
        let bits = if n == 0 {
            0
        } else if n + offset <= 8 {
            (exp_vec[pos] << offset) >> (8 - n)
        } else {
            let bits = (exp_vec[pos] << offset) >> (8 - n);
            bits | (exp_vec[pos + 1] >> (16 - offset - n))
        };
        cursor += n;
        eb.push_bits(bits as u16, n);
        let eb_offset = eb.len() & 7;
        let len = eb.len() >> 3;
        assert_eq!(eb.data()[..len], exp_vec[..len], "n {n}");
        if eb_offset > 0 {
            assert_eq!(eb.data()[len] >> (8 - eb_offset), exp_vec[len] >> (8 - eb_offset));
        }
    }

}
