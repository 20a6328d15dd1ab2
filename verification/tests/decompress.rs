use lib::bitreader::ReadError;
use lib::decompress::{DecompressError, Decompressor};

fn inflate(data: &[u8]) -> Result<Vec<u8>, DecompressError> {
    Decompressor::new(data.to_vec()).run()
}

#[test]
fn test_fixed_block() {
    let data = [
        120, 156, 203, 72, 205, 201, 201, 87, 40, 207, 47, 202, 73, 1, 0, 26, 11, 4, 93,
    ];
    assert_eq!(inflate(&data).unwrap(), b"hello world".to_vec());
}

#[test]
fn test_stored_block() {
    let data = [120, 1, 1, 3, 0, 252, 255, 97, 98, 99, 2, 77, 1, 39];
    assert_eq!(inflate(&data).unwrap(), b"abc".to_vec());
}

#[test]
fn test_two_stored_blocks() {
    let data = [
        120, 156, 0, 2, 0, 253, 255, 97, 98, 1, 2, 0, 253, 255, 99, 100,
    ];
    assert_eq!(inflate(&data).unwrap(), b"abcd".to_vec());
}

#[test]
fn test_dynamic_block() {
    let data = [
        120, 218, 205, 203, 199, 1, 128, 32, 16, 5, 209, 86, 126, 5, 212, 226, 193, 6, 64, 73,
        6, 86, 178, 80, 189, 91, 134, 231, 121, 179, 58, 141, 88, 253, 118, 66, 37, 234, 1, 134,
        94, 28, 245, 126, 50, 168, 233, 132, 194, 249, 146, 115, 96, 39, 43, 176, 254, 3, 47,
        146, 221, 61, 160, 24, 117, 95, 28, 140, 111, 154, 211, 212, 1, 151, 143, 149, 18, 191,
        54, 139, 15, 58, 100, 79, 52,
    ];
    let mut expected = b"The quick brown fox jumps over the lazy dog. ".repeat(4);
    expected.extend_from_slice(b"Pack my box with five dozen liquor jugs.");
    assert_eq!(inflate(&data).unwrap(), expected);
}

#[test]
fn test_overlapping_copy() {
    // A literal 'a', then a copy of length 100-1 at distance 1.
    let data = [120, 156, 75, 76, 164, 61, 0, 0, 122, 71, 37, 229];
    assert_eq!(inflate(&data).unwrap(), vec![b'a'; 100]);
    // A literal 'a', then a copy of length 4 at distance 1.
    let data = [120, 156, 75, 4, 1, 0, 0, 0, 0, 0];
    assert_eq!(inflate(&data).unwrap(), b"aaaaa".to_vec());
}

#[test]
fn test_empty_stream() {
    let data = [120, 156, 3, 0, 0, 0, 0, 1];
    assert_eq!(inflate(&data).unwrap(), Vec::<u8>::new());
}

#[test]
fn test_bad_zlib_header() {
    assert_eq!(inflate(&[0x78, 0x00, 0x03, 0x00]), Err(DecompressError::BadZlibHeader));
}

#[test]
fn test_unknown_compression_method() {
    assert_eq!(inflate(&[0x77, 9, 0x03, 0x00]), Err(DecompressError::UnknownCompressionMethod));
}

#[test]
fn test_invalid_window_length() {
    assert_eq!(inflate(&[0x88, 28, 0x03, 0x00]), Err(DecompressError::InvalidWindowLength));
}

#[test]
fn test_unknown_dictionary() {
    assert_eq!(inflate(&[0x78, 0xbb, 0, 0, 0, 0, 0x03, 0x00]), Err(DecompressError::UnknownDictionary));
}

#[test]
fn test_truncated_input() {
    assert_eq!(inflate(&[]), Err(DecompressError::IO(ReadError::UnexpectedEof)));
    assert_eq!(inflate(&[0x78]), Err(DecompressError::IO(ReadError::UnexpectedEof)));
    assert_eq!(inflate(&[0x78, 0x9c]), Err(DecompressError::IO(ReadError::UnexpectedEof)));
    // The fixed block of "hello world" without its last bytes.
    let data = [120, 156, 203, 72, 205, 201, 201, 87, 40, 207, 47];
    assert_eq!(inflate(&data), Err(DecompressError::IO(ReadError::UnexpectedEof)));
}

#[test]
fn test_short_stored_block() {
    let data = [120, 156, 1, 5, 0, 250, 255, 97, 98];
    assert_eq!(inflate(&data), Err(DecompressError::IO(ReadError::UnexpectedEof)));
}

#[test]
fn test_invalid_uncompressed_block_length() {
    let data = [120, 156, 1, 2, 0, 253, 254, 97, 98];
    assert_eq!(inflate(&data), Err(DecompressError::InvalidUncompressedBlockLength));
}

#[test]
fn test_unknown_block_type() {
    let data = [120, 156, 7, 0, 0, 0, 0];
    assert_eq!(inflate(&data), Err(DecompressError::UnknownCompressedBlockType));
}

#[test]
fn test_invalid_code_length() {
    // A dynamic block whose code-length code has no codes at all.
    let data = [120, 156, 5, 0, 0, 0, 0, 0, 0, 0];
    assert_eq!(inflate(&data), Err(DecompressError::InvalidCodeLength));
}

#[test]
fn test_unknown_length_symbol() {
    let data = [120, 156, 27, 3, 0, 0, 0, 0, 0];
    assert_eq!(inflate(&data), Err(DecompressError::UnknownLengthSymbol));
}

#[test]
fn test_unknown_distance_symbol() {
    let data = [120, 156, 75, 4, 62, 0, 0, 0, 0, 0];
    assert_eq!(inflate(&data), Err(DecompressError::UnknownDistanceSymbol));
}

#[test]
fn test_distance_too_far() {
    // A 256-byte window, and a back-reference 257 bytes back.
    let data = [8, 29, 3, 6, 0, 0, 0, 0, 0, 0];
    assert_eq!(inflate(&data), Err(DecompressError::DistanceTooFar));
}

#[test]
fn test_reference_before_start_is_refused() {
    // A back-reference one byte back before any byte was written.
    let data = [120, 156, 3, 2, 0, 0, 0, 0, 0];
    assert!(Decompressor::new(data.to_vec()).try_run().is_none());
}

#[test]
fn test_try_run_agrees_with_run() {
    let data = [120, 1, 1, 3, 0, 252, 255, 97, 98, 99, 2, 77, 1, 39];
    let tried = Decompressor::new(data.to_vec()).try_run();
    assert_eq!(tried, Some(Ok(b"abc".to_vec())));
    let bad = [0x78, 0x00];
    assert_eq!(
        Decompressor::new(bad.to_vec()).try_run(),
        Some(Err(DecompressError::BadZlibHeader))
    );
}

#[test]
fn test_stream_after_padding() {
    // A second stream follows the first; a decompressor reads one stream.
    let mut data = vec![120, 1, 1, 3, 0, 252, 255, 97, 98, 99, 2, 77, 1, 39];
    data.extend_from_slice(&[120, 1, 1, 1, 0, 254, 255, 122]);
    let mut de = Decompressor::new(data);
    assert_eq!(de.run().unwrap(), b"abc".to_vec());
}

#[test]
fn test_header_error_moves_past_header() {
    // A refused header is still two bytes long: the next run starts after it.
    let mut data = vec![0x78, 0x00];
    data.extend_from_slice(&[120, 1, 1, 3, 0, 252, 255, 97, 98, 99]);
    let mut de = Decompressor::new(data);
    assert_eq!(de.run(), Err(DecompressError::BadZlibHeader));
    assert_eq!(de.run().unwrap(), b"abc".to_vec());
}
