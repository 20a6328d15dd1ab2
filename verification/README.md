# zlib decompression, verified

A zlib (RFC 1950) / DEFLATE (RFC 1951) decompressor whose behaviour is
proved with Verus against a model of the format.

- `src/format.rs` states what a zlib stream decodes to, as a function of
  its bytes; `Decompressor::try_run` and `Decompressor::run` are proved to
  return exactly that.
- `src/bitreader.rs` reads a byte buffer as a stream of bits, least
  significant bit first.
- `src/huffman.rs` builds canonical Huffman decoding tables;
  `src/prefix_code.rs` proves that a table decodes each symbol's code back
  to that symbol.
- `src/bitrev.rs`, `src/tables.rs`: bit reversal and the constant tables of
  DEFLATE.
- `src/array2d.rs`: a small row-major two-dimensional array.
- `app/main.rs` decompresses the file named on the command line.
