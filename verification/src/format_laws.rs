//! What the steps of decoding do, stated directly in terms of the bits of
//! the input: the zlib header, the code-length instructions of a dynamic
//! block, literals and back-references, and the chaining of blocks.
use vstd::prelude::*;
use vstd::arithmetic::power2::pow2;
use crate::bitreader::{align_up, lemma_stream_bits_bound, stream_bits, stream_len};
use crate::format::{
    code_length_lengths, code_length_step, code_lengths_from, copy_back,
    dynamic_header, extends, stored_block, inflate_block, inflate_blocks, inflate_codes, read_at,
    symbol_at, zlib_header,
};
use crate::tables::{DISTANCE_BASE, DISTANCE_EXTRA_BITS, LENGTH_BASE, LENGTH_EXTRA_BITS};

verus! {

/// The zlib header at the next byte boundary is accepted exactly when its
/// check value `CMF * 256 + FLG` is a multiple of 31, its method `CM` (low
/// nibble of `CMF`) is 8, its `CINFO` (high nibble) is at most 7, and its
/// `FDICT` bit (bit 5 of `FLG`) is clear; the `FLEVEL` bits (6 and 7 of
/// `FLG`) play no part. An accepted header announces a window of
/// `2^(CINFO + 8)` bytes and is followed by the data.
pub proof fn lemma_zlib_header_accepts(d: Seq<u8>, p: nat)
    requires
        align_up(p, d) / 8 + 2 <= d.len(),
    ensures
        ({
            let b = align_up(p, d) / 8;
            let cmf = d[b as int];
            let flg = d[b + 1 as int];
            &&& zlib_header(d, p) is Ok <==> {
                &&& ((cmf as u16) * 256 + flg as u16) % 31 == 0
                &&& cmf & 0x0f == 8
                &&& cmf >> 4 <= 7
                &&& (flg >> 5) & 1 == 0
            }
            &&& zlib_header(d, p) is Ok ==> zlib_header(d, p) == Ok::<(nat, nat), crate::decompress::DecompressError>(
                (pow2(((cmf >> 4) + 8) as nat), 8 * (b + 2)),
            )
        }),
{
    let b = align_up(p, d) / 8;
    let cmf = d[b as int];
    let flg = d[b + 1 as int];
    assert(cmf & 0x0f == cmf % 16) by (bit_vector);
    assert(cmf >> 4 == cmf / 16) by (bit_vector);
    assert((flg >> 5) & 1 == (flg / 32) % 2) by (bit_vector);
    assert((cmf as u16) * 256 + flg as u16 == cmf * 256 + flg);
}

/// The lengths that a code-length instruction appends, and the bits it
/// takes. Symbols 0 to 15 append themselves. Symbol 16 with two extra bits
/// of value `v` appends `v + 3` copies of the last length so far (and needs
/// one); symbol 17 with three extra bits appends `v + 3` zeros; symbol 18
/// with seven extra bits appends `v + 11` zeros. The lengths read before
/// are kept as they were.
pub proof fn lemma_code_length_instruction(d: Seq<u8>, p: nat, cl: Seq<u8>, acc: Seq<u8>)
    requires
        p + 16 <= stream_len(d),
        crate::huffman::lengths_bounded(cl),
    ensures
        ({
            let e = crate::huffman::table_entry(cl, stream_bits(d, p, crate::huffman::table_bits(cl)), cl.len());
            let s = e.symbol;
            let p1 = (p + e.bits_used) as nat;
            let extra: nat = if s <= 15 { 0 } else if s == 16 { 2 } else if s == 17 { 3 } else { 7 };
            let v = stream_bits(d, p1, extra);
            &&& code_length_step(d, p, cl, acc) is Ok <==> p1 + extra <= stream_len(d) && (s == 16 ==> acc.len() > 0)
            &&& code_length_step(d, p, cl, acc) matches Ok((acc1, p2)) ==> {
                &&& p2 == p1 + extra
                &&& extends(acc1, acc)
                &&& s <= 15 ==> acc1.len() == acc.len() + 1 && acc1[acc.len() as int] == s
                &&& s == 16 ==> acc1.len() == acc.len() + v + 3
                    && forall|k: int| acc.len() <= k < acc1.len() ==> #[trigger] acc1[k] == acc[acc.len() - 1]
                &&& s == 17 ==> acc1.len() == acc.len() + v + 3
                    && forall|k: int| acc.len() <= k < acc1.len() ==> #[trigger] acc1[k] == 0
                &&& s > 17 ==> acc1.len() == acc.len() + v + 11
                    && forall|k: int| acc.len() <= k < acc1.len() ==> #[trigger] acc1[k] == 0
            }
        }),
{
    let e = crate::huffman::table_entry(cl, stream_bits(d, p, crate::huffman::table_bits(cl)), cl.len());
    let p1 = (p + e.bits_used) as nat;
    crate::huffman::lemma_table_entry_bounds(cl, stream_bits(d, p, crate::huffman::table_bits(cl)), cl.len());
    assert(crate::format::symbol_at(d, p, cl) == Ok::<(crate::huffman::DecodeResult, nat), crate::decompress::DecompressError>((e, p1)));
    if e.symbol <= 15 {
        let acc1 = acc.push(e.symbol as u8);
        assert(code_length_step(d, p, cl, acc) == Ok::<(Seq<u8>, nat), crate::decompress::DecompressError>((acc1, p1)));
        assert(extends(acc1, acc));
    } else {
        let extra: nat = if e.symbol == 16 { 2 } else if e.symbol == 17 { 3 } else { 7 };
        if p1 + extra <= stream_len(d) {
            let v = stream_bits(d, p1, extra);
            assert(crate::format::read_at(d, p1, extra) == Ok::<(nat, nat), crate::decompress::DecompressError>((v, p1 + extra)));
            if e.symbol == 16 {
                if acc.len() > 0 {
                    let acc1 = acc + crate::format::repeat(acc.last(), v + 3);
                    assert(code_length_step(d, p, cl, acc) == Ok::<(Seq<u8>, nat), crate::decompress::DecompressError>((acc1, p1 + extra)));
                    assert(extends(acc1, acc));
                }
            } else if e.symbol == 17 {
                let acc1 = acc + crate::format::repeat(0, v + 3);
                assert(code_length_step(d, p, cl, acc) == Ok::<(Seq<u8>, nat), crate::decompress::DecompressError>((acc1, p1 + extra)));
                assert(extends(acc1, acc));
            } else {
                let acc1 = acc + crate::format::repeat(0, v + 11);
                assert(code_length_step(d, p, cl, acc) == Ok::<(Seq<u8>, nat), crate::decompress::DecompressError>((acc1, p1 + extra)));
                assert(extends(acc1, acc));
            }
        }
    }
}

/// A copy of `len` bytes from `dist` bytes back keeps the output before it
/// and appends `len` bytes, each equal to the byte `dist` places before it
/// (so a copy may repeat bytes it has itself just written).
pub proof fn lemma_copy_back(out: Seq<u8>, dist: nat, len: nat)
    requires
        1 <= dist <= out.len(),
    ensures
        copy_back(out, dist, len).len() == out.len() + len,
        extends(copy_back(out, dist, len), out),
        forall|k: int|
            out.len() <= k < out.len() + len ==> #[trigger] copy_back(out, dist, len)[k] == copy_back(
                out,
                dist,
                len,
            )[k - dist],
    decreases len,
{
    if len > 0 {
        let out1 = out.push(out[out.len() - dist]);
        lemma_copy_back(out1, dist, (len - 1) as nat);
        let c = copy_back(out, dist, len);
        assert(c == copy_back(out1, dist, (len - 1) as nat));
        assert(c[out.len() as int] == out1[out.len() as int]);
        assert(c[out.len() - dist] == out1[out.len() - dist]);
    }
}

/// Decoding a block's codes only appends to the output, and ends further on
/// in the input.
pub proof fn lemma_inflate_codes_advances(
    d: Seq<u8>,
    p: nat,
    ll: Seq<u8>,
    dl: Seq<u8>,
    window: nat,
    out: Seq<u8>,
)
    ensures
        inflate_codes(d, p, ll, dl, window, out) matches Some(Ok((o, p1))) ==> p < p1 <= stream_len(d)
            && extends(o, out),
    decreases stream_len(d) - p,
{
    match symbol_at(d, p, ll) {
        Err(_) => {},
        Ok((e, p1)) => {
            if !(p < p1 <= stream_len(d)) {
            } else if e.symbol <= 255 {
                lemma_inflate_codes_advances(d, p1, ll, dl, window, out.push(e.symbol as u8));
            } else if e.symbol == 256 {
            } else if e.symbol <= 285 {
                let li = e.symbol - 257;
                match read_at(d, p1, LENGTH_EXTRA_BITS[li] as nat) {
                    Err(_) => {},
                    Ok((v, p2)) => {
                        let len = LENGTH_BASE[li] + v;
                        match symbol_at(d, p2, dl) {
                            Err(_) => {},
                            Ok((de, p3)) => {
                                if de.symbol <= 29 {
                                    match read_at(d, p3, DISTANCE_EXTRA_BITS[de.symbol as int] as nat) {
                                        Err(_) => {},
                                        Ok((w, p4)) => {
                                            let dist = (DISTANCE_BASE[de.symbol as int] + w) as nat;
                                            if dist <= window && 1 <= dist <= out.len() && p4 <= stream_len(d) {
                                                lemma_copy_back(out, dist, len as nat);
                                                lemma_inflate_codes_advances(
                                                    d,
                                                    p4,
                                                    ll,
                                                    dl,
                                                    window,
                                                    copy_back(out, dist, len as nat),
                                                );
                                            }
                                        },
                                    }
                                }
                            },
                        }
                    },
                }
            }
        },
    }
}

proof fn lemma_code_length_lengths_advances(d: Seq<u8>, p: nat, i: nat, hclen: nat, clcl: Seq<u8>)
    ensures
        code_length_lengths(d, p, i, hclen, clcl) matches Ok((_, q)) ==> p <= q,
    decreases hclen - i,
{
    if !(i >= hclen || i >= 19) {
        if let Ok((v, p1)) = read_at(d, p, 3) {
            lemma_code_length_lengths_advances(
                d,
                p1,
                i + 1,
                hclen,
                clcl.update(crate::tables::CL_CODE_LENGTH_ORDER[i as int] as int, v as u8),
            );
        }
    }
}

proof fn lemma_code_lengths_from_advances(d: Seq<u8>, p: nat, cl: Seq<u8>, count: nat, acc: Seq<u8>)
    ensures
        code_lengths_from(d, p, cl, count, acc) matches Ok((_, q)) ==> p <= q,
    decreases count - acc.len(),
{
    if let Ok((acc1, p1)) = code_length_step(d, p, cl, acc) {
        assert(p <= p1);
        if acc1.len() < count && acc1.len() > acc.len() {
            lemma_code_lengths_from_advances(d, p1, cl, count, acc1);
        }
    }
}

proof fn lemma_dynamic_header_advances(d: Seq<u8>, p: nat)
    ensures
        dynamic_header(d, p) matches Ok((_, _, q)) ==> p <= q,
{
    if let Ok((hlit, p1)) = read_at(d, p, 5) {
        if let Ok((hdist, p2)) = read_at(d, p1, 5) {
            if let Ok((hclen, p3)) = read_at(d, p2, 4) {
                let clcl0 = Seq::new(19, |i: int| 0u8);
                lemma_code_length_lengths_advances(d, p3, 0, hclen + 4, clcl0);
                if let Ok((clcl, p4)) = code_length_lengths(d, p3, 0, hclen + 4, clcl0) {
                    lemma_code_lengths_from_advances(d, p4, clcl, hlit + 257, Seq::empty());
                    if let Ok((ll, p5)) = code_lengths_from(d, p4, clcl, hlit + 257, Seq::empty()) {
                        lemma_code_lengths_from_advances(d, p5, clcl, hdist + 1, Seq::empty());
                    }
                }
            }
        }
    }
}

/// A decoded block is the last one exactly when its first bit (BFINAL) is
/// 1, whatever the block's type.
pub proof fn lemma_block_last_is_first_bit(d: Seq<u8>, p: nat, window: nat, out: Seq<u8>)
    ensures
        inflate_block(d, p, window, out) matches Some(Ok((_, _, last))) ==> last == (stream_bits(
            d,
            p,
            1,
        ) == 1),
{
    lemma_stream_bits_bound(d, p, 1);
    vstd::arithmetic::power2::lemma2_to64();
}

/// Whether decoding stops after a block is decided by the block's first bit
/// (BFINAL) alone, whatever the block's type. A block only appends to the
/// output and ends further on in the input; after a block whose first bit
/// is 0 decoding goes on with the next block, so a stream decodes to the
/// output of all its blocks up to the first one whose first bit is 1.
pub proof fn lemma_final_bit_decides(d: Seq<u8>, p: nat, window: nat, out: Seq<u8>)
    ensures
        inflate_block(d, p, window, out) matches Some(Ok((o, p1, last))) ==> {
            &&& last == (stream_bits(d, p, 1) == 1)
            &&& p < p1 <= stream_len(d)
            &&& extends(o, out)
            &&& inflate_blocks(d, p, window, out) == if last {
                Some(Ok::<(Seq<u8>, nat), crate::decompress::DecompressError>((o, p1)))
            } else {
                inflate_blocks(d, p1, window, o)
            }
        },
{
    lemma_block_last_is_first_bit(d, p, window, out);
    if let Ok((bfinal, p1)) = read_at(d, p, 1) {
        if let Ok((btype, p2)) = read_at(d, p1, 2) {
            if btype == 0 {
                if let Ok((o, q)) = stored_block(d, p2, out) {
                    crate::bitreader::lemma_align_up_bounds(p2, d);
                    assert(extends(o, out));
                }
            } else if btype == 1 {
                lemma_inflate_codes_advances(
                    d,
                    p2,
                    crate::tables::fixed_litlen_lengths(),
                    crate::tables::fixed_distance_lengths(),
                    window,
                    out,
                );
            } else if btype == 2 {
                lemma_dynamic_header_advances(d, p2);
                if let Ok((ll, dl, q)) = dynamic_header(d, p2) {
                    lemma_inflate_codes_advances(d, q, ll, dl, window, out);
                }
            }
        }
    }
}

/// The entry that the code with the given lengths decodes from the bits at
/// `p`.
pub open spec fn code_at(d: Seq<u8>, p: nat, lengths: Seq<u8>) -> crate::huffman::DecodeResult {
    crate::huffman::table_entry(lengths, stream_bits(d, p, crate::huffman::table_bits(lengths)), lengths.len())
}

/// Literals and the end of a block: a literal symbol (0 to 255) appends
/// that byte and decoding goes on after its code; the end-of-block symbol
/// (256) ends the block right after its code with the output as it is.
pub proof fn lemma_literal_and_end(
    d: Seq<u8>,
    p: nat,
    ll: Seq<u8>,
    dl: Seq<u8>,
    window: nat,
    out: Seq<u8>,
)
    requires
        p + 16 <= stream_len(d),
        code_at(d, p, ll).bits_used >= 1,
        crate::huffman::lengths_bounded(ll),
    ensures
        ({
            let e = code_at(d, p, ll);
            let p1 = (p + e.bits_used) as nat;
            &&& e.symbol <= 255 ==> inflate_codes(d, p, ll, dl, window, out) == inflate_codes(
                d,
                p1,
                ll,
                dl,
                window,
                out.push(e.symbol as u8),
            )
            &&& e.symbol == 256 ==> inflate_codes(d, p, ll, dl, window, out) == Some(
                Ok::<(Seq<u8>, nat), crate::decompress::DecompressError>((out, p1)),
            )
        }),
{
    crate::huffman::lemma_table_entry_bounds(ll, stream_bits(d, p, crate::huffman::table_bits(ll)), ll.len());
}

/// A length/distance pair. After a length symbol `s` (257 to 285) come
/// `LENGTH_EXTRA_BITS[s - 257]` extra bits of value `v`, then a distance
/// symbol `t` and `DISTANCE_EXTRA_BITS[t]` extra bits of value `w`, all
/// read least-significant bit first. Decoding goes on after them with
/// `LENGTH_BASE[s - 257] + v` bytes appended, copied from
/// `DISTANCE_BASE[t] + w` bytes back. A distance symbol above 29 is refused,
/// and so is a distance beyond the window.
pub proof fn lemma_back_reference(
    d: Seq<u8>,
    p: nat,
    ll: Seq<u8>,
    dl: Seq<u8>,
    window: nat,
    out: Seq<u8>,
)
    requires
        p + 16 <= stream_len(d),
        257 <= code_at(d, p, ll).symbol <= 285,
        code_at(d, p, ll).bits_used >= 1,
        crate::huffman::lengths_bounded(ll),
        crate::huffman::lengths_bounded(dl),
    ensures
        ({
            let s = code_at(d, p, ll).symbol - 257;
            let p1 = (p + code_at(d, p, ll).bits_used) as nat;
            let p2 = (p1 + LENGTH_EXTRA_BITS[s]) as nat;
            let len = (LENGTH_BASE[s] + stream_bits(d, p1, LENGTH_EXTRA_BITS[s] as nat)) as nat;
            let t = code_at(d, p2, dl).symbol as int;
            let p3 = (p2 + code_at(d, p2, dl).bits_used) as nat;
            let p4 = (p3 + DISTANCE_EXTRA_BITS[t]) as nat;
            let dist = (DISTANCE_BASE[t] + stream_bits(d, p3, DISTANCE_EXTRA_BITS[t] as nat)) as nat;
            p2 + 16 <= stream_len(d) ==> {
                &&& t > 29 ==> inflate_codes(d, p, ll, dl, window, out) == Some(
                    Err::<(Seq<u8>, nat), crate::decompress::DecompressError>(
                        crate::decompress::DecompressError::UnknownDistanceSymbol,
                    ),
                )
                &&& t <= 29 && p4 <= stream_len(d) && dist > window ==> inflate_codes(
                    d,
                    p,
                    ll,
                    dl,
                    window,
                    out,
                ) == Some(
                    Err::<(Seq<u8>, nat), crate::decompress::DecompressError>(
                        crate::decompress::DecompressError::DistanceTooFar,
                    ),
                )
                &&& t <= 29 && p4 <= stream_len(d) && dist <= window && dist <= out.len()
                    ==> inflate_codes(d, p, ll, dl, window, out) == inflate_codes(
                    d,
                    p4,
                    ll,
                    dl,
                    window,
                    copy_back(out, dist, len),
                )
            }
        }),
{
    let e = code_at(d, p, ll);
    crate::huffman::lemma_table_entry_bounds(ll, stream_bits(d, p, crate::huffman::table_bits(ll)), ll.len());
    let s = e.symbol - 257;
    let p1 = (p + e.bits_used) as nat;
    let p2 = (p1 + LENGTH_EXTRA_BITS[s]) as nat;
    assert(symbol_at(d, p, ll) == Ok::<(crate::huffman::DecodeResult, nat), crate::decompress::DecompressError>((e, p1)));
    if p2 + 16 <= stream_len(d) {
        assert(read_at(d, p1, LENGTH_EXTRA_BITS[s] as nat) == Ok::<(nat, nat), crate::decompress::DecompressError>(
            (stream_bits(d, p1, LENGTH_EXTRA_BITS[s] as nat), p2),
        ));
        let de = code_at(d, p2, dl);
        crate::huffman::lemma_table_entry_bounds(dl, stream_bits(d, p2, crate::huffman::table_bits(dl)), dl.len());
        let p3 = (p2 + de.bits_used) as nat;
        assert(symbol_at(d, p2, dl) == Ok::<(crate::huffman::DecodeResult, nat), crate::decompress::DecompressError>((de, p3)));
        let t = de.symbol as int;
        if t <= 29 {
            let p4 = (p3 + DISTANCE_EXTRA_BITS[t]) as nat;
            if p4 <= stream_len(d) {
                assert(read_at(d, p3, DISTANCE_EXTRA_BITS[t] as nat) == Ok::<(nat, nat), crate::decompress::DecompressError>(
                    (stream_bits(d, p3, DISTANCE_EXTRA_BITS[t] as nat), p4),
                ));
            }
        }
    }
}

} // verus!
