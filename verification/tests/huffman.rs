use lib::decompress::DecompressError;
use lib::huffman::{DecodeResult, HuffmanTable};

#[test]
fn test_rfc1951_example1() {
    // https://datatracker.ietf.org/doc/html/rfc1951 gives the following example
    // on page 8:
    //
    //    Symbol  Code
    //    ------  ----
    //    A       10
    //    B       0
    //    C       110
    //    D       111

    let t = HuffmanTable::try_from(&[2, 1, 3, 3], false).unwrap();
    assert_eq!(
        t.decode(0b_10_000000_u8.reverse_bits() as u64),
        DecodeResult {
            symbol: 0,
            bits_used: 2
        },
    );
    assert_eq!(
        t.decode(0b_0_0000000_u8.reverse_bits() as u64),
        DecodeResult {
            symbol: 1,
            bits_used: 1
        }
    );
    assert_eq!(
        t.decode(0b_110_00000_u8.reverse_bits() as u64),
        DecodeResult {
            symbol: 2,
            bits_used: 3
        },
    );
    assert_eq!(
        t.decode(0b_111_00000_u8.reverse_bits() as u64),
        DecodeResult {
            symbol: 3,
            bits_used: 3
        },
    );
}

#[test]
fn test_rfc1951_example2() {
    // https://datatracker.ietf.org/doc/html/rfc1951 gives the following example
    // on page 9:
    //
    //    Symbol Length   Code
    //    ------ ------   ----
    //    A       3        010
    //    B       3        011
    //    C       3        100
    //    D       3        101
    //    E       3        110
    //    F       2         00
    //    G       4       1110
    //    H       4       1111

    let t = HuffmanTable::try_from(&[3, 3, 3, 3, 3, 2, 4, 4], false).unwrap();
    assert_eq!(
        t.decode(0b_010_00000_u8.reverse_bits() as u64),
        DecodeResult {
            symbol: 0,
            bits_used: 3
        },
    );
    assert_eq!(
        t.decode(0b_011_00000_u8.reverse_bits() as u64),
        DecodeResult {
            symbol: 1,
            bits_used: 3
        }
    );
    assert_eq!(
        t.decode(0b_100_00000_u8.reverse_bits() as u64),
        DecodeResult {
            symbol: 2,
            bits_used: 3
        },
    );
    assert_eq!(
        t.decode(0b_101_00000_u8.reverse_bits() as u64),
        DecodeResult {
            symbol: 3,
            bits_used: 3
        },
    );
    assert_eq!(
        t.decode(0b_110_00000_u8.reverse_bits() as u64),
        DecodeResult {
            symbol: 4,
            bits_used: 3
        },
    );
    assert_eq!(
        t.decode(0b_00_000000_u8.reverse_bits() as u64),
        DecodeResult {
            symbol: 5,
            bits_used: 2
        }
    );
    assert_eq!(
        t.decode(0b_1110_0000_u8.reverse_bits() as u64),
        DecodeResult {
            symbol: 6,
            bits_used: 4
        },
    );
    assert_eq!(
        t.decode(0b_1111_0000_u8.reverse_bits() as u64),
        DecodeResult {
            symbol: 7,
            bits_used: 4
        },
    );
}

#[test]
fn test_full_length() {
    // Copied from image-rs/fdeflate:
    //
    //    Symbol Length                 Code
    //    ------ ------   ------------------
    //    0       1                        0
    //    1       2                       10
    //    2       3                      110
    //    3       4                     1110
    //    4       5                   1_1110
    //    5       6                  11_1110
    //    6       7                 111_1110
    //    7       8                1111_1110
    //    8       9              1_1111_1110
    //    9       10            11_1111_1110
    //    10      11           111_1111_1110
    //    11      12          1111_1111_1110
    //    12      13        1_1111_1111_1110
    //    13      14       11_1111_1111_1110
    //    14      15      111_1111_1111_1110
    //    15      15      111_1111_1111_1111

    let t = HuffmanTable::try_from(
        &[1, 2, 3, 4, 5, 6, 7, 8, 9, 10, 11, 12, 13, 14, 15, 15],
        false,
    )
    .unwrap();
    assert_eq!(
        t.decode(0b_0_0000000_u8.reverse_bits() as u64),
        DecodeResult {
            symbol: 0,
            bits_used: 1
        },
    );
    assert_eq!(
        t.decode(0b_10_000000_u8.reverse_bits() as u64),
        DecodeResult {
            symbol: 1,
            bits_used: 2
        },
    );
    assert_eq!(
        t.decode(0b_110_00000_u8.reverse_bits() as u64),
        DecodeResult {
            symbol: 2,
            bits_used: 3
        },
    );
    assert_eq!(
        t.decode(0b_1110_0000_u8.reverse_bits() as u64),
        DecodeResult {
            symbol: 3,
            bits_used: 4
        },
    );
    assert_eq!(
        t.decode(0b_11110_000_u8.reverse_bits() as u64),
        DecodeResult {
            symbol: 4,
            bits_used: 5
        },
    );
    assert_eq!(
        t.decode(0b_111110_00_u8.reverse_bits() as u64),
        DecodeResult {
            symbol: 5,
            bits_used: 6
        },
    );
    assert_eq!(
        t.decode(0b_1111110_0_u8.reverse_bits() as u64),
        DecodeResult {
            symbol: 6,
            bits_used: 7
        },
    );
    assert_eq!(
        t.decode(0b_11111110_u8.reverse_bits() as u64),
        DecodeResult {
            symbol: 7,
            bits_used: 8
        },
    );

    // Symbols 8-15: codes exceed 8 bits, use u16 directly
    assert_eq!(
        t.decode(0b_1_1111_1110_0000000_u16.reverse_bits() as u64),
        DecodeResult {
            symbol: 8,
            bits_used: 9
        },
    );
    assert_eq!(
        t.decode(0b_11_1111_1110_000000_u16.reverse_bits() as u64),
        DecodeResult {
            symbol: 9,
            bits_used: 10
        },
    );
    assert_eq!(
        t.decode(0b_111_1111_1110_00000_u16.reverse_bits() as u64),
        DecodeResult {
            symbol: 10,
            bits_used: 11
        },
    );
    assert_eq!(
        t.decode(0b_1111_1111_1110_0000_u16.reverse_bits() as u64),
        DecodeResult {
            symbol: 11,
            bits_used: 12
        },
    );
    assert_eq!(
        t.decode(0b_1_1111_1111_1110_000_u16.reverse_bits() as u64),
        DecodeResult {
            symbol: 12,
            bits_used: 13
        },
    );
    assert_eq!(
        t.decode(0b_11_1111_1111_1110_00_u16.reverse_bits() as u64),
        DecodeResult {
            symbol: 13,
            bits_used: 14
        },
    );
    assert_eq!(
        t.decode(0b_111_1111_1111_1110_0_u16.reverse_bits() as u64),
        DecodeResult {
            symbol: 14,
            bits_used: 15
        },
    );
    assert_eq!(
        t.decode(0b_111_1111_1111_1111_0_u16.reverse_bits() as u64),
        DecodeResult {
            symbol: 15,
            bits_used: 15
        },
    );
}

#[test]
fn test_table_from_slots() {
    let slots = vec![
        DecodeResult { symbol: 7, bits_used: 1 },
        DecodeResult { symbol: 9, bits_used: 2 },
        DecodeResult { symbol: 7, bits_used: 1 },
        DecodeResult { symbol: 4, bits_used: 2 },
    ];
    let t = HuffmanTable::new(slots, 3);
    assert_eq!(t.decode(0b1101), DecodeResult { symbol: 9, bits_used: 2 });
    assert_eq!(t.decode(0b0111), DecodeResult { symbol: 4, bits_used: 2 });
    assert_eq!(t.decode(0b1000), DecodeResult { symbol: 7, bits_used: 1 });
}

#[test]
fn test_try_from_rejects_too_few_literal_lengths() {
    assert!(matches!(
        HuffmanTable::try_from(&[1], false),
        Err(DecompressError::InvalidCodeLength)
    ));
    assert!(matches!(
        HuffmanTable::try_from(&[], false),
        Err(DecompressError::InvalidCodeLength)
    ));
}

#[test]
fn test_try_from_rejects_too_many_lengths() {
    let lengths = vec![9u8; 289];
    assert!(matches!(
        HuffmanTable::try_from(&lengths, true),
        Err(DecompressError::InvalidCodeLength)
    ));
}

#[test]
fn test_try_from_rejects_oversubscribed_code() {
    assert!(matches!(
        HuffmanTable::try_from(&[1, 1, 1], false),
        Err(DecompressError::InvalidCodeLength)
    ));
}

#[test]
fn test_try_from_rejects_incomplete_code() {
    assert!(matches!(
        HuffmanTable::try_from(&[1, 2], false),
        Err(DecompressError::InvalidCodeLength)
    ));
    // An incomplete distance code is refused unless it is one of one bit.
    assert!(matches!(
        HuffmanTable::try_from(&[2, 0, 0], true),
        Err(DecompressError::InvalidCodeLength)
    ));
}

#[test]
fn test_single_distance_code() {
    let t = HuffmanTable::try_from(&[0, 1, 0], true).unwrap();
    assert_eq!(t.decode(0b0), DecodeResult { symbol: 1, bits_used: 1 });
    assert_eq!(t.decode(0b10), DecodeResult { symbol: 1, bits_used: 1 });
    assert_eq!(t.decode(0b1), DecodeResult { symbol: 0, bits_used: 0 });
}

#[test]
fn test_empty_distance_code() {
    let t = HuffmanTable::try_from(&[0, 0], true).unwrap();
    assert_eq!(t.decode(0), DecodeResult { symbol: 0, bits_used: 0 });
    assert_eq!(t.decode(u64::MAX), DecodeResult { symbol: 0, bits_used: 0 });
}

#[test]
fn test_decode_ignores_bits_beyond_the_code() {
    // Symbol 1 has code 0 (one bit); whatever follows it does not matter.
    let t = HuffmanTable::try_from(&[2, 1, 3, 3], false).unwrap();
    for rest in 0..64u64 {
        assert_eq!(t.decode(rest << 1), DecodeResult { symbol: 1, bits_used: 1 });
    }
}
