use vstd::prelude::*;

pub mod array2d;
pub mod bitreader;
pub mod bitrev;
pub mod decompress;
pub mod format;
pub mod format_laws;
pub mod huffman;
pub mod prefix_code;
pub mod tables;

verus! {
} // verus!
