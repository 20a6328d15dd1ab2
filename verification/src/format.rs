//! The zlib stream format (RFC 1950) with DEFLATE data (RFC 1951), as the
//! decoder reads it: what a stream decodes to, or the error the decoder
//! reports, as a function of the input bytes.
//!
//! A decoding step that starts at bit position `p` of the input `d` yields
//! the position after it. An outcome of `None` marks a stream that the
//! decoder does not accept as input: a back-reference that reaches before the
//! start of the output.
use vstd::prelude::*;
use vstd::arithmetic::power2::pow2;
use crate::bitreader::{align_up, stream_bits, stream_len, ReadError};
use crate::decompress::DecompressError;
use crate::huffman::{table_accepts, table_bits, table_entry, DecodeResult};
use crate::tables::{
    fixed_distance_lengths, fixed_litlen_lengths, CL_CODE_LENGTH_ORDER, DISTANCE_BASE,
    DISTANCE_EXTRA_BITS, LENGTH_BASE, LENGTH_EXTRA_BITS,
};

verus! {

/// The error of a read past the end of the input.
pub open spec fn eof() -> DecompressError {
    DecompressError::IO(ReadError::UnexpectedEof)
}

/// Reads `n` bits at `p`: their value and the position after them.
pub open spec fn read_at(d: Seq<u8>, p: nat, n: nat) -> Result<(nat, nat), DecompressError> {
    if p + n <= stream_len(d) {
        Ok((stream_bits(d, p, n), p + n))
    } else {
        Err(eof())
    }
}

/// Decodes one symbol at `p` with the code of the given lengths. The decoder
/// looks at 16 bits, so 16 bits must remain, however short the code.
pub open spec fn symbol_at(d: Seq<u8>, p: nat, lengths: Seq<u8>) -> Result<
    (DecodeResult, nat),
    DecompressError,
> {
    if p + 16 <= stream_len(d) {
        let e = table_entry(lengths, stream_bits(d, p, table_bits(lengths)), lengths.len());
        Ok((e, p + e.bits_used as nat))
    } else {
        Err(eof())
    }
}

/// `shorter` is a prefix of `longer`: output only ever grows at its end.
pub open spec fn extends(longer: Seq<u8>, shorter: Seq<u8>) -> bool {
    &&& shorter.len() <= longer.len()
    &&& forall|i: int| 0 <= i < shorter.len() ==> #[trigger] longer[i] == shorter[i]
}

/// `n` copies of `x`.
pub open spec fn repeat(x: u8, n: nat) -> Seq<u8> {
    Seq::new(n, |i: int| x)
}

/// One instruction of the code-length alphabet (RFC 1951, 3.2.7), appended
/// to the lengths read so far.
pub open spec fn code_length_step(d: Seq<u8>, p: nat, cl: Seq<u8>, acc: Seq<u8>) -> Result<
    (Seq<u8>, nat),
    DecompressError,
> {
    match symbol_at(d, p, cl) {
        Err(e) => Err(e),
        Ok((e, p1)) => {
            if e.symbol <= 15 {
                Ok((acc.push(e.symbol as u8), p1))
            } else if e.symbol == 16 {
                match read_at(d, p1, 2) {
                    Err(x) => Err(x),
                    Ok((v, p2)) => if acc.len() == 0 {
                        Err(DecompressError::InvalidCodeLength)
                    } else {
                        Ok((acc + repeat(acc.last(), v + 3), p2))
                    },
                }
            } else if e.symbol == 17 {
                match read_at(d, p1, 3) {
                    Err(x) => Err(x),
                    Ok((v, p2)) => Ok((acc + repeat(0, v + 3), p2)),
                }
            } else {
                // The code-length alphabet has no symbol above 18.
                match read_at(d, p1, 7) {
                    Err(x) => Err(x),
                    Ok((v, p2)) => Ok((acc + repeat(0, v + 11), p2)),
                }
            }
        },
    }
}

/// Reads code lengths until exactly `count` of them are known.
pub open spec fn code_lengths_from(
    d: Seq<u8>,
    p: nat,
    cl: Seq<u8>,
    count: nat,
    acc: Seq<u8>,
) -> Result<(Seq<u8>, nat), DecompressError>
    decreases count - acc.len(),
{
    match code_length_step(d, p, cl, acc) {
        Err(e) => Err(e),
        Ok((acc1, p1)) => {
            if acc1.len() == count {
                Ok((acc1, p1))
            } else if acc1.len() > count {
                Err(DecompressError::InvalidCodeLength)
            } else if acc1.len() <= acc.len() {
                // Every instruction adds at least one length.
                Err(DecompressError::InvalidCodeLength)
            } else {
                code_lengths_from(d, p1, cl, count, acc1)
            }
        },
    }
}

/// Reads the `hclen` code lengths of the code-length alphabet, three bits
/// each, into their places.
pub open spec fn code_length_lengths(d: Seq<u8>, p: nat, i: nat, hclen: nat, clcl: Seq<u8>) -> Result<
    (Seq<u8>, nat),
    DecompressError,
>
    decreases hclen - i,
{
    if i >= hclen || i >= 19 {
        Ok((clcl, p))
    } else {
        match read_at(d, p, 3) {
            Err(e) => Err(e),
            Ok((v, p1)) => code_length_lengths(
                d,
                p1,
                i + 1,
                hclen,
                clcl.update(CL_CODE_LENGTH_ORDER[i as int] as int, v as u8),
            ),
        }
    }
}

/// Appends `len` bytes, each copied from `dist` bytes back (the copy may
/// overlap what it appends).
pub open spec fn copy_back(out: Seq<u8>, dist: nat, len: nat) -> Seq<u8>
    decreases len,
{
    if len == 0 {
        out
    } else {
        copy_back(out.push(out[out.len() - dist]), dist, (len - 1) as nat)
    }
}

/// Decodes literals and back-references with the given codes up to the end
/// of the block.
pub open spec fn inflate_codes(
    d: Seq<u8>,
    p: nat,
    ll: Seq<u8>,
    dl: Seq<u8>,
    window: nat,
    out: Seq<u8>,
) -> Option<Result<(Seq<u8>, nat), DecompressError>>
    decreases stream_len(d) - p,
{
    match symbol_at(d, p, ll) {
        Err(e) => Some(Err(e)),
        Ok((e, p1)) => {
            if !(p < p1 <= stream_len(d)) {
                // A code without bits; complete codes have none.
                None
            } else if e.symbol <= 255 {
                inflate_codes(d, p1, ll, dl, window, out.push(e.symbol as u8))
            } else if e.symbol == 256 {
                Some(Ok((out, p1)))
            } else if e.symbol <= 285 {
                let li = e.symbol - 257;
                match read_at(d, p1, LENGTH_EXTRA_BITS[li] as nat) {
                    Err(x) => Some(Err(x)),
                    Ok((v, p2)) => {
                        let len = LENGTH_BASE[li] + v;
                        match symbol_at(d, p2, dl) {
                            Err(x) => Some(Err(x)),
                            Ok((de, p3)) => {
                                if de.symbol > 29 {
                                    Some(Err(DecompressError::UnknownDistanceSymbol))
                                } else {
                                    match read_at(d, p3, DISTANCE_EXTRA_BITS[de.symbol as int] as nat) {
                                        Err(x) => Some(Err(x)),
                                        Ok((w, p4)) => {
                                            let dist = (DISTANCE_BASE[de.symbol as int] + w) as nat;
                                            if dist > window {
                                                Some(Err(DecompressError::DistanceTooFar))
                                            } else if dist > out.len() {
                                                None
                                            } else if p4 > stream_len(d) {
                                                None
                                            } else {
                                                inflate_codes(
                                                    d,
                                                    p4,
                                                    ll,
                                                    dl,
                                                    window,
                                                    copy_back(out, dist, len as nat),
                                                )
                                            }
                                        },
                                    }
                                }
                            },
                        }
                    },
                }
            } else {
                Some(Err(DecompressError::UnknownLengthSymbol))
            }
        },
    }
}

/// A stored block: at the next byte boundary, its length, the length's
/// complement, and that many bytes.
pub open spec fn stored_block(d: Seq<u8>, p: nat, out: Seq<u8>) -> Result<
    (Seq<u8>, nat),
    DecompressError,
> {
    let q = align_up(p, d);
    match read_at(d, q, 16) {
        Err(e) => Err(e),
        Ok((len, q1)) => match read_at(d, q1, 16) {
            Err(e) => Err(e),
            Ok((nlen, q2)) => {
                if nlen != 0xffff - len {
                    Err(DecompressError::InvalidUncompressedBlockLength)
                } else if q2 / 8 + len <= d.len() {
                    Ok((out + d.subrange((q2 / 8) as int, (q2 / 8 + len) as int), 8 * (q2 / 8 + len)))
                } else {
                    Err(eof())
                }
            },
        },
    }
}

/// The code lengths of a dynamic block's two codes, once the lengths of the
/// code-length code have been read.
pub open spec fn dynamic_code_lengths(
    d: Seq<u8>,
    clcl_read: Result<(Seq<u8>, nat), DecompressError>,
    hlit: nat,
    hdist: nat,
) -> Result<(Seq<u8>, Seq<u8>, nat), DecompressError> {
    match clcl_read {
        Err(e) => Err(e),
        Ok((clcl, p4)) => {
            if !table_accepts(clcl, false) {
                Err(DecompressError::InvalidCodeLength)
            } else {
                match code_lengths_from(d, p4, clcl, hlit, Seq::empty()) {
                    Err(e) => Err(e),
                    Ok((ll, p5)) => match code_lengths_from(d, p5, clcl, hdist, Seq::empty()) {
                        Err(e) => Err(e),
                        Ok((dl, p6)) => {
                            if !table_accepts(ll, false) || !table_accepts(dl, true) {
                                Err(DecompressError::InvalidCodeLength)
                            } else {
                                Ok((ll, dl, p6))
                            }
                        },
                    },
                }
            }
        },
    }
}

/// The code lengths of a dynamic block's two codes.
pub open spec fn dynamic_header(d: Seq<u8>, p: nat) -> Result<
    (Seq<u8>, Seq<u8>, nat),
    DecompressError,
> {
    match read_at(d, p, 5) {
        Err(e) => Err(e),
        Ok((hlit, p1)) => match read_at(d, p1, 5) {
            Err(e) => Err(e),
            Ok((hdist, p2)) => match read_at(d, p2, 4) {
                Err(e) => Err(e),
                Ok((hclen, p3)) => dynamic_code_lengths(
                    d,
                    code_length_lengths(d, p3, 0, hclen + 4, Seq::new(19, |i: int| 0u8)),
                    hlit + 257,
                    hdist + 1,
                ),
            },
        },
    }
}

/// Attaches the final-block flag to the outcome of a compressed block.
pub open spec fn with_last(
    r: Option<Result<(Seq<u8>, nat), DecompressError>>,
    last: bool,
) -> Option<Result<(Seq<u8>, nat, bool), DecompressError>> {
    match r {
        None => None,
        Some(Err(e)) => Some(Err(e)),
        Some(Ok((o, q))) => Some(Ok((o, q, last))),
    }
}

/// One block: its header bits, then its data by its type. The flag tells
/// whether it was the last block.
pub open spec fn inflate_block(d: Seq<u8>, p: nat, window: nat, out: Seq<u8>) -> Option<
    Result<(Seq<u8>, nat, bool), DecompressError>,
> {
    match read_at(d, p, 1) {
        Err(e) => Some(Err(e)),
        Ok((bfinal, p1)) => match read_at(d, p1, 2) {
            Err(e) => Some(Err(e)),
            Ok((btype, p2)) => {
                let last = bfinal != 0;
                if btype == 0 {
                    match stored_block(d, p2, out) {
                        Err(e) => Some(Err(e)),
                        Ok((o, q)) => Some(Ok((o, q, last))),
                    }
                } else if btype == 1 {
                    with_last(
                        inflate_codes(
                            d,
                            p2,
                            fixed_litlen_lengths(),
                            fixed_distance_lengths(),
                            window,
                            out,
                        ),
                        last,
                    )
                } else if btype == 2 {
                    match dynamic_header(d, p2) {
                        Err(e) => Some(Err(e)),
                        Ok((ll, dl, q)) => with_last(inflate_codes(d, q, ll, dl, window, out), last),
                    }
                } else {
                    Some(Err(DecompressError::UnknownCompressedBlockType))
                }
            },
        },
    }
}

/// Blocks, up to and including the one marked last: the output, and the
/// position after the last block.
pub open spec fn inflate_blocks(d: Seq<u8>, p: nat, window: nat, out: Seq<u8>) -> Option<
    Result<(Seq<u8>, nat), DecompressError>,
>
    decreases stream_len(d) - p,
{
    match inflate_block(d, p, window, out) {
        None => None,
        Some(Err(e)) => Some(Err(e)),
        Some(Ok((o, p1, last))) => {
            if last {
                Some(Ok((o, p1)))
            } else if !(p < p1 <= stream_len(d)) {
                // Every block header takes three bits.
                None
            } else {
                inflate_blocks(d, p1, window, o)
            }
        },
    }
}

/// The two-byte zlib header at the next byte boundary: the window size it
/// announces, and the position after it.
pub open spec fn zlib_header(d: Seq<u8>, p: nat) -> Result<(nat, nat), DecompressError> {
    let b = align_up(p, d) / 8;
    if b + 2 > d.len() {
        Err(eof())
    } else {
        let cmf = d[b as int];
        let flg = d[b + 1 as int];
        if (cmf * 256 + flg) % 31 != 0 {
            Err(DecompressError::BadZlibHeader)
        } else if cmf % 16 != 8 {
            Err(DecompressError::UnknownCompressionMethod)
        } else if cmf / 16 > 7 {
            Err(DecompressError::InvalidWindowLength)
        } else if (flg / 32) % 2 != 0 {
            Err(DecompressError::UnknownDictionary)
        } else {
            Ok((pow2((cmf / 16 + 8) as nat), 8 * (b + 2)))
        }
    }
}

/// Where reading the zlib header leaves the reader, whether the header is
/// accepted or not: after its two bytes, or at the next byte boundary when
/// fewer than two bytes remain there.
pub open spec fn zlib_header_end(d: Seq<u8>, p: nat) -> nat {
    let b = align_up(p, d) / 8;
    if b + 2 > d.len() {
        align_up(p, d)
    } else {
        8 * (b + 2)
    }
}

/// What the zlib stream that starts at `p` decodes to, and the position
/// after its last block.
pub open spec fn inflate(d: Seq<u8>, p: nat) -> Option<Result<(Seq<u8>, nat), DecompressError>> {
    match zlib_header(d, p) {
        Err(e) => Some(Err(e)),
        Ok((window, p1)) => inflate_blocks(d, p1, window, Seq::empty()),
    }
}

/// A zlib stream that holds `payload` in a single stored block, after the
/// header of a 32 KiB window and no dictionary.
pub open spec fn stored_stream(payload: Seq<u8>) -> Seq<u8> {
    let n = payload.len();
    let m = (0xffff - n) as nat;
    seq![0x78u8, 0x01u8, 0x01u8, (n % 256) as u8, (n / 256) as u8, (m % 256) as u8, (m / 256) as u8]
        + payload
}

/// Bits read at a byte boundary of the header part are those of the bytes
/// there.
proof fn lemma_header_bits(d: Seq<u8>, b: int, k: int, bit: nat, n: nat)
    requires
        0 <= b,
        b + k <= d.len(),
        0 <= k,
        bit + n <= 8 * k,
    ensures
        stream_bits(d, (8 * b + bit) as nat, n) == stream_bits(d.subrange(b, b + k), bit, n),
{
    crate::bitreader::lemma_stream_bits_skip(d, b, bit, n);
    crate::bitreader::lemma_stream_bits_take(d.skip(b), k, bit, n);
    assert(d.skip(b).take(k) =~= d.subrange(b, b + k));
}

/// The le_value of one or two bytes.
proof fn lemma_le_value_short(x: u8, y: u8)
    ensures
        crate::bitreader::le_value(seq![x]) == x,
        crate::bitreader::le_value(seq![x, y]) == x + 256 * y,
{
    let e = Seq::<u8>::empty();
    assert(crate::bitreader::le_value(e) == 0);
    assert(seq![x].drop_first() =~= e);
    assert(seq![y].drop_first() =~= e);
    assert(crate::bitreader::le_value(seq![y]) == y + 256 * crate::bitreader::le_value(e));
    assert(crate::bitreader::le_value(seq![x]) == x + 256 * crate::bitreader::le_value(e));
    assert(seq![x, y].drop_first() =~= seq![y]);
    assert(crate::bitreader::le_value(seq![x, y]) == x + 256 * crate::bitreader::le_value(seq![y]));
}

/// The header of a stored stream.
proof fn lemma_stored_stream_header(payload: Seq<u8>)
    requires
        payload.len() <= 0xffff,
    ensures
        zlib_header(stored_stream(payload), 0) == Ok::<(nat, nat), DecompressError>((pow2(15), 16)),
{
    let d = stored_stream(payload);
    assert(d[0] == 0x78u8 && d[1] == 0x01u8);
    assert(align_up(0, d) == 0);
}

/// The block header of a stored stream: a last block, stored.
proof fn lemma_stored_stream_block_type(payload: Seq<u8>)
    requires
        payload.len() <= 0xffff,
    ensures
        read_at(stored_stream(payload), 16, 1) == Ok::<(nat, nat), DecompressError>((1, 17)),
        read_at(stored_stream(payload), 17, 2) == Ok::<(nat, nat), DecompressError>((0, 19)),
{
    let d = stored_stream(payload);
    vstd::arithmetic::power2::lemma2_to64();
    lemma_header_bits(d, 2, 1, 0, 1);
    lemma_header_bits(d, 2, 1, 1, 2);
    assert(d.subrange(2, 3) =~= seq![0x01u8]);
    lemma_le_value_short(0x01u8, 0);
}

/// The length of a stored stream's block, and its complement.
proof fn lemma_stored_stream_lengths(payload: Seq<u8>)
    requires
        payload.len() <= 0xffff,
    ensures
        read_at(stored_stream(payload), 24, 16) == Ok::<(nat, nat), DecompressError>((payload.len(), 40)),
        read_at(stored_stream(payload), 40, 16) == Ok::<(nat, nat), DecompressError>(
            ((0xffff - payload.len()) as nat, 56),
        ),
{
    let d = stored_stream(payload);
    let n = payload.len();
    let m = (0xffff - n) as nat;
    vstd::arithmetic::power2::lemma2_to64();
    lemma_header_bits(d, 3, 2, 0, 16);
    lemma_header_bits(d, 5, 2, 0, 16);
    assert(d.subrange(3, 5) =~= seq![(n % 256) as u8, (n / 256) as u8]);
    assert(d.subrange(5, 7) =~= seq![(m % 256) as u8, (m / 256) as u8]);
    lemma_le_value_short((n % 256) as u8, (n / 256) as u8);
    lemma_le_value_short((m % 256) as u8, (m / 256) as u8);
}

/// Whatever bytes a stored block carries, the stream decodes to exactly
/// those bytes.
pub proof fn lemma_inflate_stored_stream(payload: Seq<u8>)
    requires
        payload.len() <= 0xffff,
    ensures
        inflate(stored_stream(payload), 0) == Some(
            Ok::<(Seq<u8>, nat), DecompressError>((payload, stream_len(stored_stream(payload)))),
        ),
{
    let d = stored_stream(payload);
    let n = payload.len();
    lemma_stored_stream_header(payload);
    lemma_stored_stream_block_type(payload);
    lemma_stored_stream_lengths(payload);
    assert(align_up(19, d) == 24);
    assert(d.subrange(7, 7 + n as int) =~= payload);
    assert(stored_block(d, 19, Seq::empty()) == Ok::<(Seq<u8>, nat), DecompressError>((payload, 8 * (7 + n))));
    assert(inflate_block(d, 16, pow2(15), Seq::empty()) == Some(
        Ok::<(Seq<u8>, nat, bool), DecompressError>((payload, 8 * (7 + n), true)),
    ));
}

} // verus!
