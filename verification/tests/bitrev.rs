use lib::bitrev::get_packed_code;
use lib::tables::{fixed_distance_code_lengths, fixed_litlen_code_lengths};

#[test]
fn test_get_packed_code() {
    assert_eq!(get_packed_code(0b110, 3), 0b011);
    assert_eq!(get_packed_code(0b1011, 4), 0b1101);
    assert_eq!(get_packed_code(1, 16), 0x8000);
    assert_eq!(get_packed_code(0b10, 2), 0b01);
    assert_eq!(get_packed_code(0x1234, 0), 0);
}

#[test]
fn test_reverse_twice_is_identity() {
    for len in 1..=12u8 {
        for code in 0..(1u16 << len) {
            assert_eq!(get_packed_code(get_packed_code(code, len), len), code);
        }
    }
}

#[test]
fn test_fixed_code_lengths() {
    let ll = fixed_litlen_code_lengths();
    assert_eq!(ll.len(), 288);
    assert_eq!(ll[0], 8);
    assert_eq!(ll[143], 8);
    assert_eq!(ll[144], 9);
    assert_eq!(ll[255], 9);
    assert_eq!(ll[256], 7);
    assert_eq!(ll[279], 7);
    assert_eq!(ll[280], 8);
    assert_eq!(ll[287], 8);
    let dl = fixed_distance_code_lengths();
    assert_eq!(dl, vec![5u8; 32]);
}
