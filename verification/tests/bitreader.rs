use lib::bitreader::{BitReader, ReadError};

#[test]
fn test_read_bits_lsb_first() {
    let mut r = BitReader::new(vec![0b1011_0100, 0xff, 0x01]);
    assert_eq!(r.read_bits(3), Ok(0b100));
    assert_eq!(r.read_bits(5), Ok(0b10110));
    assert_eq!(r.read_bits(4), Ok(0xf));
    r.seek_next_byte();
    assert_eq!(r.read_bits(8), Ok(1));
    assert_eq!(r.read_bits(1), Err(ReadError::UnexpectedEof));
}

#[test]
fn test_read_across_bytes() {
    let mut r = BitReader::new(vec![0x34, 0x12, 0x78, 0x56]);
    assert_eq!(r.read_bits(4), Ok(0x4));
    assert_eq!(r.read_bits(16), Ok(0x8123));
    assert_eq!(r.read_bits(12), Ok(0x567));
    assert_eq!(r.read_bits(0), Ok(0));
    assert_eq!(r.read_bits(1), Err(ReadError::UnexpectedEof));
}

#[test]
fn test_read_concatenates() {
    let data = vec![0xde, 0xad, 0xbe, 0xef, 0x01];
    let mut whole = BitReader::new(data.clone());
    let mut parts = BitReader::new(data);
    let all = whole.read_bits(29).unwrap();
    let low = parts.read_bits(11).unwrap();
    let high = parts.read_bits(18).unwrap();
    assert_eq!(all, low | (high << 11));
}

#[test]
fn test_peek_does_not_consume() {
    let mut r = BitReader::new(vec![0xa5, 0x0f]);
    assert_eq!(r.peek_bits(6), Ok(0x25));
    assert_eq!(r.peek_bits(6), Ok(0x25));
    assert_eq!(r.consume_bits(6), Ok(()));
    assert_eq!(r.peek_bits(10), Ok(0x3e));
    assert_eq!(r.peek_bits(11), Err(ReadError::UnexpectedEof));
}

#[test]
fn test_peek_57_bits() {
    let mut r = BitReader::new(vec![0xff; 8]);
    assert_eq!(r.consume_bits(7), Ok(()));
    assert_eq!(r.peek_bits(57), Ok((1u64 << 57) - 1));
    let mut short = BitReader::new(vec![0xff; 7]);
    assert_eq!(short.peek_bits(57), Err(ReadError::UnexpectedEof));
}

#[test]
fn test_consume_past_end_stops_at_end() {
    let mut r = BitReader::new(vec![1, 2]);
    assert_eq!(r.consume_bits(40), Ok(()));
    assert_eq!(r.read_bits(1), Err(ReadError::UnexpectedEof));
    assert_eq!(r.into_inner(), Vec::<u8>::new());
}

#[test]
fn test_seek_next_byte() {
    let mut r = BitReader::new(vec![0xff, 0x80]);
    r.seek_next_byte();
    assert_eq!(r.read_bits(1), Ok(1));
    r.seek_next_byte();
    r.seek_next_byte();
    assert_eq!(r.read_bits(8), Ok(0x80));
}

#[test]
fn test_into_inner_drops_partial_byte() {
    let mut r = BitReader::new(vec![10, 20, 30]);
    assert_eq!(r.read_bits(3), Ok(2));
    assert_eq!(r.into_inner(), vec![20, 30]);
    let r = BitReader::new(vec![10, 20, 30]);
    assert_eq!(r.into_inner(), vec![10, 20, 30]);
}

#[test]
fn test_read_align_bytes_exact() {
    let mut r = BitReader::new(vec![10, 20, 30, 40]);
    assert_eq!(r.read_bits(1), Ok(0));
    let mut buf = [0u8; 2];
    assert_eq!(r.read_align_bytes_exact(&mut buf), Ok(()));
    assert_eq!(buf, [20, 30]);
    let mut too_long = [7u8; 2];
    assert_eq!(r.read_align_bytes_exact(&mut too_long), Err(ReadError::UnexpectedEof));
    assert_eq!(too_long, [7, 7]);
    let mut last = [0u8; 1];
    assert_eq!(r.read_align_bytes_exact(&mut last), Ok(()));
    assert_eq!(last, [40]);
}
