use qrism::bit_matrix::BitMatrix;
use qrism::bit_types::{BitArray, BitStream};

#[test]
fn bit_types_test_len() {
    let bit_capacity = 152;
    let mut bs = BitStream::new(bit_capacity);
    assert_eq!(bs.len(), 0);
    bs.push_bits(0, 0);
    assert_eq!(bs.len(), 0);
    bs.push_bits(0b1000, 4);
    assert_eq!(bs.len(), 4);
    bs.push_bits(0b1000, 8);
    assert_eq!(bs.len(), 12);
    bs.push_bits(0b1000, 4);
    assert_eq!(bs.len(), 16);
    bs.push_bits(0b1111111, 7);
    assert_eq!(bs.len(), 23);
    bs.push_bits(0b111111111111, 12);
    assert_eq!(bs.len(), 35);
    bs.push_bits(0b111111111111, 16);
    assert_eq!(bs.len(), 51);

}

#[test]
fn bit_types_test_push() {
    let mut bs = BitStream::new(2);
    bs.push(false);
    assert_eq!(bs.data()[..1], vec![0b00000000]);
    bs.push(true);
    assert_eq!(bs.data()[..1], vec![0b01000000]);

}

#[test]
fn bit_types_test_push_bits() {
    let bit_capacity = 152;
    let exp_vec = [210, 52, 141, 35, 72, 210, 183, 42, 7, 219, 91, 14, 253, 68, 120, 193];
    let mut inp = BitStream::from(&exp_vec);
    let mut out = BitStream::new(bit_capacity);
    for n in [0, 1, 2, 3, 4, 5, 6, 7, 8, 4, 8, 9, 11, 15, 16, 5, 16] {
        let bits = inp.take_bits(n).unwrap();
        out.push_bits(bits, n);
        let out_off = out.len() & 7;
        let len = out.len() >> 3;
        assert_eq!(out.data()[..len], exp_vec[..len], "n {n}");
        if out_off > 0 {
            assert_eq!(out.data()[len] >> (8 - out_off), exp_vec[len] >> (8 - out_off));
        }
    }

}

#[test]
fn bit_types_test_take_bits() {
    let data = [
        0b11010010, 0b00110100, 0b10001101, 0b00100011, 0b01001000, 0b11010010, 0b00110100,
        0b10001101, 0b00100011, 0b01001000, 0b11010010, 0b00110100, 0b10001100,
    ];
    let mut bs = BitStream::from(&data);
    let bits = bs.take_bits(0);
    assert_eq!(bits, Some(0));
    let bits = bs.take_bits(4);
    assert_eq!(bits, Some(0b1101));
    let bits = bs.take_bits(4);
    assert_eq!(bits, Some(0b0010));
    let bits = bs.take_bits(8);
    assert_eq!(bits, Some(0b00110100));
    let bits = bs.take_bits(9);
    assert_eq!(bits, Some(0b100011010));
    let bits = bs.take_bits(7);
    assert_eq!(bits, Some(0b0100011));
    let bits = bs.take_bits(16);
    assert_eq!(bits, Some(0b01001000_11010010));
    let bits = bs.take_bits(1);
    assert_eq!(bits, Some(0b0));
    let bits = bs.take_bits(11);
    assert_eq!(bits, Some(0b01101001000));
    let bits = bs.take_bits(14);
    assert_eq!(bits, Some(0b11010010001101));
    let bits = bs.take_bits(16);
    assert_eq!(bits, Some(0b0010001101001000));
    let bits = bs.take_bits(4);
    assert_eq!(bits, Some(0b1101));
    let bits = bs.take_bits(4);
    assert_eq!(bits, Some(0b0010));

}

#[test]
fn test_new_is_all_zero() {
    let (w, h) = (10, 7);
    let bm = BitMatrix::new(w, h, 1);
    assert_eq!(bm.width(), w);
    assert_eq!(bm.height(), h);
    assert_eq!(bm.elem_bits(), 1);
    // ceil(70 / 64) = 2 words
    assert_eq!(bm.data().len(), 2);
    for y in 0..h {
        for x in 0..w {
            assert_eq!(bm.get(x, y), 0, "fresh matrix should be all zero at ({x}, {y})");
        }
    }

}

#[test]
fn test_new_multibit_capacity() {
    let bm = BitMatrix::new(10, 7, 4);
    assert_eq!(bm.elem_bits(), 4);
    // 10 * 7 * 4 = 280 bits -> ceil(280 / 64) = 5 words
    assert_eq!(bm.data().len(), 5);

}

#[test]
fn test_run_matches_naive_scan() {
    for &(w, h) in &[(1u32, 1u32), (7, 5), (63, 3), (64, 3), (65, 3), (130, 4)] {
        let mut bm = BitMatrix::new(w, h, 1);
        let max = 1;

        // A deterministic mix of long runs and rapid flips.
        let mut seed = 0x9e3779b9u64;
        for y in 0..h {
            for x in 0..w {
                seed = seed.wrapping_mul(6364136223846793005).wrapping_add(1442695040888963407);
                let v = if (seed >> 33) % 3 == 0 {
                    (seed >> 17) & max
                } else {
                    (x as u64 / 5) & max
                };
                bm.put(x, y, v);
            }
        }

        for y in 0..h {
            for x in 0..w {
                let (elem, len) = bm.run(x, y);
                assert_eq!(elem, bm.get_bit(x, y), "elem at ({x}, {y}) w={w}");

                let mut naive = 0;
                while x + naive < w && bm.get_bit(x + naive, y) == elem {
                    naive += 1;
                }
                assert_eq!(len, naive, "run length at ({x}, {y}) w={w} h={h}");
            }
        }
    }

}

#[test]
fn test_run_spans_whole_uniform_row() {
    let (w, h) = (200, 3);
    let mut bm = BitMatrix::new(w, h, 1);
    for y in 0..h {
        for x in 0..w {
            bm.put(x, y, 1);
        }
    }
    for y in 0..h {
        assert_eq!(bm.run(0, y), (true, w), "y={y}");
        assert_eq!(bm.run(w - 1, y), (true, 1), "last element");
    }

}

#[test]
fn test_put_get_roundtrip() {
    let mut bm = BitMatrix::new(10, 7, 1);
    bm.put(3, 2, 1);
    assert_eq!(bm.get(3, 2), 1);
    // Clearing a set element
    bm.put(3, 2, 0);
    assert_eq!(bm.get(3, 2), 0);

}

#[test]
fn test_put_get_roundtrip_multibit() {
    let mut bm = BitMatrix::new(10, 7, 4);
    bm.put(3, 2, 0b1011);
    assert_eq!(bm.get(3, 2), 0b1011);
    bm.put(3, 2, 0b0110);
    assert_eq!(bm.get(3, 2), 0b0110, "overwrite must replace the element wholesale");

}

#[test]
fn test_not_transposed() {
    let mut bm = BitMatrix::new(10, 7, 1);
    bm.put(6, 2, 1);
    assert_eq!(bm.get(6, 2), 1, "the exact cell that was set must read back");
    // The mirror cell is a different location and must stay zero.
    assert_eq!(bm.get(2, 6), 0, "mirror cell must be unaffected");

}

#[test]
fn test_elements_are_independent() {
    let mut bm = BitMatrix::new(10, 7, 4);
    bm.put(4, 3, 0b1010);
    // Every 4-neighbour stays zero.
    assert_eq!(bm.get(3, 3), 0);
    assert_eq!(bm.get(5, 3), 0);
    assert_eq!(bm.get(4, 2), 0);
    assert_eq!(bm.get(4, 4), 0);
    // Writing a neighbour doesn't disturb the set element.
    bm.put(5, 3, 0b0101);
    assert_eq!(bm.get(4, 3), 0b1010);

}

#[test]
fn test_word_boundary() {
    let mut bm = BitMatrix::new(100, 2, 4);
    bm.put(15, 0, 0b1111); // last element of word 0 (bits 60..64)
    bm.put(16, 0, 0b1111); // first element of word 1 (bits 64..68)
    assert_eq!(bm.get(15, 0), 0b1111);
    assert_eq!(bm.get(16, 0), 0b1111);
    assert_eq!(bm.data()[0].count_ones(), 4);
    assert_eq!(bm.data()[1].count_ones(), 4);
    // They are genuinely distinct cells.
    bm.put(15, 0, 0);
    assert_eq!(bm.get(15, 0), 0);
    assert_eq!(bm.get(16, 0), 0b1111);

}

#[test]
fn test_full_coverage() {
    let (w, h, elem_bits) = (13u32, 9u32, 4u32);
    let mut bm = BitMatrix::new(w, h, elem_bits);
    let val = |x: u32, y: u32| ((x + y) & 0b1111) as u64;
    for y in 0..h {
        for x in 0..w {
            bm.put(x, y, val(x, y));
        }
    }
    for y in 0..h {
        for x in 0..w {
            assert_eq!(bm.get(x, y), val(x, y), "mismatch at ({x}, {y})");
        }
    }

}

#[test]
fn test_last_cell() {
    let (w, h) = (10, 7);
    let mut bm = BitMatrix::new(w, h, 1);
    bm.put(w - 1, h - 1, 1);
    assert_eq!(bm.get(w - 1, h - 1), 1);
    assert_eq!(bm.data().iter().map(|word| word.count_ones()).sum::<u32>(), 1);

}

#[test]
fn test_full_word_element() {
    let mut bm = BitMatrix::new(3, 1, 64);
    let pattern = 0xF0F0_F0F0_0F0F_0F0Fu64;
    bm.put(1, 0, pattern);
    assert_eq!(bm.get(1, 0), pattern);
    assert_eq!(bm.get(0, 0), 0, "neighbouring word must stay zero");
    assert_eq!(bm.get(2, 0), 0);

}

#[test]
fn test_put_get_round_trip_sweep() {
    // Deterministic pseudo-random payloads via a small LCG.
    let mut seed = 0x9E37_79B9_7F4A_7C15u64;
    let mut next = || {
        seed = seed.wrapping_mul(6364136223846793005).wrapping_add(1442695040888963407);
        seed
    };

    for elem_bits in [1u32, 2, 4, 8, 16, 32, 64] {
        let mask = if elem_bits == 64 { u64::MAX } else { (1u64 << elem_bits) - 1 };
        // Wide enough to span several words for the smaller element widths.
        let w = 200u32;
        let mut bm = BitMatrix::new(w, 1, elem_bits);

        let mut expected = vec![0u64; w as usize];
        for x in 0..w {
            let v = next() & mask;
            expected[x as usize] = v;
            bm.put(x, 0, v);
        }
        for x in 0..w {
            assert_eq!(
                bm.get(x, 0),
                expected[x as usize],
                "round trip failed at x={x}, elem_bits={elem_bits}"
            );
        }
    }

}

#[test]
fn test_get_bit_matches_get() {
    for &(w, h) in &[(1u32, 1u32), (7, 5), (63, 3), (64, 3), (65, 3), (130, 4)] {
        let mut bm = BitMatrix::new(w, h, 1);

        let mut seed = 0x9e3779b9u64;
        for y in 0..h {
            for x in 0..w {
                seed = seed.wrapping_mul(6364136223846793005).wrapping_add(1442695040888963407);
                bm.put(x, y, (seed >> 33) & 1);
            }
        }

        for y in 0..h {
            for x in 0..w {
                assert_eq!(
                    bm.get_bit(x, y),
                    bm.get(x, y) != 0,
                    "get_bit disagrees with get at ({x}, {y}) w={w} h={h}"
                );
            }
        }
    }

}

#[test]
fn test_get_bit_reads_exact_cell() {
    let mut bm = BitMatrix::new(10, 7, 1);
    bm.put(6, 2, 1);
    assert!(bm.get_bit(6, 2), "the exact cell that was set must read back");
    assert!(!bm.get_bit(2, 6), "mirror cell must be unaffected");
    assert!(!bm.get_bit(5, 2), "row neighbours must be unaffected");
    assert!(!bm.get_bit(7, 2));

}

#[test]
fn test_get_bit_across_word_boundary() {
    let mut bm = BitMatrix::new(200, 2, 1);
    bm.put(63, 0, 1);
    bm.put(64, 0, 1);
    assert!(bm.get_bit(63, 0), "last bit of word 0");
    assert!(bm.get_bit(64, 0), "first bit of word 1");
    assert!(!bm.get_bit(62, 0));
    assert!(!bm.get_bit(65, 0));
    // They are genuinely distinct cells in distinct words.
    bm.put(63, 0, 0);
    assert!(!bm.get_bit(63, 0));
    assert!(bm.get_bit(64, 0));

}

#[test]
fn test_get_bit_last_cell() {
    let (w, h) = (10, 7);
    let mut bm = BitMatrix::new(w, h, 1);
    assert!(!bm.get_bit(w - 1, h - 1), "a fresh matrix reads zero");
    bm.put(w - 1, h - 1, 1);
    assert!(bm.get_bit(w - 1, h - 1));

}

#[test]
fn test_run_stops_at_flip_and_row_edge() {
    let (w, h) = (8u32, 2u32);
    let mut bm = BitMatrix::new(w, h, 1);
    // Row 0: 0 0 1 1 1 0 1 1. Row 1 is all ones, so a run overrunning row 0 would keep going.
    for (x, bit) in [0u64, 0, 1, 1, 1, 0, 1, 1].into_iter().enumerate() {
        bm.put(x as u32, 0, bit);
    }
    for x in 0..w {
        bm.put(x, 1, 1);
    }

    assert_eq!(bm.run(0, 0), (false, 2), "two zeroes, then a flip");
    assert_eq!(bm.run(1, 0), (false, 1), "one zero left of the flip");
    assert_eq!(bm.run(2, 0), (true, 3), "three ones, then a flip");
    assert_eq!(bm.run(4, 0), (true, 1));
    assert_eq!(bm.run(5, 0), (false, 1));
    assert_eq!(bm.run(6, 0), (true, 2), "clamped at the row edge, not run into row 1");
    assert_eq!(bm.run(w - 1, 0), (true, 1), "last element of the row");

}

#[test]
fn test_push_bits_one_at_a_time_matches_put() {
    let (w, h) = (13u32, 5u32);
    let pattern = |x: u32, y: u32| ((x * 7 + y * 3) % 5 == 0) as u64;

    let mut pushed = BitMatrix::new(w, h, 1);
    for y in 0..h {
        for x in 0..w {
            pushed.push_bits(pattern(x, y), 1);
        }
    }

    let mut put = BitMatrix::new(w, h, 1);
    for y in 0..h {
        for x in 0..w {
            put.put(x, y, pattern(x, y));
        }
    }

    assert_eq!(pushed.data(), put.data(), "raster-order pushes must equal the same puts");

}

#[test]
fn test_push_bits_word_aligned_chunks() {
    let mut bm = BitMatrix::new(128, 1, 1);
    bm.push_bits(0xDEAD_BEEF_0123_4567, 64);
    bm.push_bits(0x0FED_CBA9_8765_4321, 64);
    assert_eq!(bm.data(), [0xDEAD_BEEF_0123_4567, 0x0FED_CBA9_8765_4321].as_slice());

}

#[test]
fn test_push_bits_straddles_word_boundary() {
    let lo = 0x0000_00AB_CDEF_1234 & ((1u64 << 40) - 1);
    let hi = 0x0000_0056_789A_BCDE & ((1u64 << 40) - 1);

    let mut bm = BitMatrix::new(80, 1, 1);
    bm.push_bits(lo, 40);
    bm.push_bits(hi, 40);

    // Word 0 takes `lo` plus the low 24 bits of `hi`; word 1 takes `hi`'s remaining 16.
    assert_eq!(bm.data()[0], lo | (hi << 40), "low word");
    assert_eq!(bm.data()[1], hi >> 24, "carry into the next word");

}

#[test]
fn test_push_bits_matches_naive_stream() {
    // Mixed chunk lengths, including ones that straddle words, checked bit for bit.
    for &(w, h) in &[(1u32, 1u32), (7, 3), (63, 2), (64, 2), (65, 2), (100, 4), (128, 3)] {
        let total = (w * h) as usize;
        let mut seed = 0x9e37_79b9_7f4a_7c15u64;
        let mut rng = || {
            seed ^= seed << 13;
            seed ^= seed >> 7;
            seed ^= seed << 17;
            seed
        };

        let mut bm = BitMatrix::new(w, h, 1);
        let mut expect: Vec<bool> = Vec::with_capacity(total);

        while expect.len() < total {
            let n = ((rng() % 64) as usize + 1).min(total - expect.len());
            let mask = if n == 64 { u64::MAX } else { (1u64 << n) - 1 };
            let bits = rng() & mask;
            bm.push_bits(bits, n);
            for i in 0..n {
                expect.push((bits >> i) & 1 == 1);
            }
        }

        for (i, &want) in expect.iter().enumerate() {
            let (x, y) = (i as u32 % w, i as u32 / w);
            assert_eq!(bm.get_bit(x, y), want, "bit {i} at ({x}, {y}) in {w}x{h}");
        }
    }

}

#[test]
fn test_push_bits_row_major_fill_matches_put() {
    // The shape `BinaryImage::prepare` uses: per row, whole 64-bit chunks then a short tail.
    // Widths either side of a word boundary put the tail in every alignment.
    for &w in &[1u32, 63, 64, 65, 100, 127, 128, 200] {
        let h = 5u32;
        let pattern = |x: u32, y: u32| ((x ^ y).count_ones() % 2) as u64;

        let mut pushed = BitMatrix::new(w, h, 1);
        for y in 0..h {
            let mut x = 0;
            while x < w {
                let n = std::cmp::min(64, w - x);
                let mut word = 0u64;
                for i in 0..n {
                    word |= pattern(x + i, y) << i;
                }
                pushed.push_bits(word, n as usize);
                x += n;
            }
        }

        let mut put = BitMatrix::new(w, h, 1);
        for y in 0..h {
            for x in 0..w {
                put.put(x, y, pattern(x, y));
            }
        }

        assert_eq!(pushed.data(), put.data(), "w={w}");
    }

}

#[test]
fn test_push_bits_fills_exact_capacity() {
    // 70 bits: the last word is partial, and the padding above it must stay zero.
    let (w, h) = (10u32, 7u32);
    let mut bm = BitMatrix::new(w, h, 1);
    for _ in 0..(w * h) {
        bm.push_bits(1, 1);
    }

    for y in 0..h {
        for x in 0..w {
            assert!(bm.get_bit(x, y), "({x}, {y}) should be set");
        }
    }
    assert_eq!(bm.data().len(), 2);
    assert_eq!(bm.data()[0], u64::MAX);
    assert_eq!(bm.data()[1], (1u64 << 6) - 1, "only the 6 live bits of the last word");

}

#[test]
fn test_push_bits_zero_length_is_a_noop() {
    let mut bm = BitMatrix::new(64, 2, 1);
    bm.push_bits(0b1011, 4);
    let before = bm.data().to_vec();

    bm.push_bits(0, 0);
    assert_eq!(bm.data(), before.as_slice(), "a zero-length push must change nothing");

    bm.push_bits(1, 1);
    assert!(bm.get_bit(4, 0), "the next push must still land at bit 4");

}
