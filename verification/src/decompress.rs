//! The zlib / DEFLATE decompressor.
use vstd::prelude::*;
use vstd::arithmetic::power2::*;
use vstd::arithmetic::div_mod::*;
use vstd::bits::lemma_u64_low_bits_mask_is_mod;
use crate::bitreader::{BitReader, ReadError, stream_bits, stream_len};
use crate::format::{
    code_length_lengths, code_length_step, code_lengths_from, copy_back, dynamic_code_lengths,
    dynamic_header, extends,
    inflate, inflate_block, inflate_blocks, inflate_codes, read_at, repeat, stored_block,
    symbol_at, with_last, zlib_header, zlib_header_end,
};
use crate::tables::{
    fixed_distance_code_lengths, fixed_distance_lengths, fixed_litlen_code_lengths,
    fixed_litlen_lengths, CL_CODE_LENGTH_ORDER,
};
use crate::huffman::{
    decode_table, is_complete, lemma_max_len, lemma_table_entry_bounds,
    lengths_bounded, table_bits, DecodeResult, HuffmanTable,
};

verus! {

/// Why a stream could not be decompressed.
#[derive(Debug, PartialEq, Eq, Structural)]
pub enum DecompressError {
    IO(ReadError),
    BadZlibHeader,
    UnknownCompressionMethod,
    InvalidWindowLength,
    UnknownDictionary,
    InvalidUncompressedBlockLength,
    InvalidCodeLength,
    UnknownCompressedBlockType,
    UnknownLengthSymbol,
    UnknownDistanceSymbol,
    DistanceTooFar,
}

/// `table` is the decoding table of the code with the given lengths.
pub open spec fn table_for(table: &HuffmanTable, lengths: Seq<u8>) -> bool {
    &&& table.entries() == decode_table(lengths)
    &&& table.index_mask() == pow2(table_bits(lengths)) - 1
    &&& lengths_bounded(lengths)
    &&& lengths.len() <= 288
}

/// Decompresses a zlib stream held in memory.
pub struct Decompressor {
    inner: BitReader,
    window_len: usize,
}

impl Decompressor {
    /// The compressed input.
    pub closed spec fn input(&self) -> Seq<u8> {
        self.inner.data()
    }

    /// The bit position in the input where decoding continues.
    pub closed spec fn position(&self) -> nat {
        self.inner.pos()
    }

    /// The window size announced by the last header read.
    pub closed spec fn window(&self) -> nat {
        self.window_len as nat
    }

    /// The reader is within the input.
    pub closed spec fn wf(&self) -> bool {
        self.inner.wf() && self.inner.in_stream()
    }

    /// Reads `n` bits.
    fn read(&mut self, n: usize) -> (r: Result<u64, DecompressError>)
        requires
            old(self).wf(),
            n <= 57,
        ensures
            final(self).wf(),
            final(self).input() == old(self).input(),
            final(self).window() == old(self).window(),
            match read_at(old(self).input(), old(self).position(), n as nat) {
                Ok((v, p1)) => r matches Ok(x) && x as nat == v && final(self).position() == p1,
                Err(e) => r == Err::<u64, DecompressError>(e),
            },
            r matches Ok(v) ==> v < pow2(n as nat),
            final(self).position() >= old(self).position(),
    {
        proof {
            crate::bitreader::lemma_stream_bits_bound(self.input(), self.position(), n as nat);
        }
        match self.inner.read_bits(n) {
            Ok(v) => Ok(v),
            Err(e) => Err(DecompressError::IO(e)),
        }
    }

    /// Decodes one symbol with `table`, the table of the code with the given
    /// lengths.
    fn decode_symbol(&mut self, table: &HuffmanTable, Ghost(lengths): Ghost<Seq<u8>>) -> (r: Result<
        DecodeResult,
        DecompressError,
    >)
        requires
            old(self).wf(),
            table_for(table, lengths),
        ensures
            final(self).wf(),
            final(self).input() == old(self).input(),
            final(self).window() == old(self).window(),
            match symbol_at(old(self).input(), old(self).position(), lengths) {
                Ok((e, p1)) => r == Ok::<DecodeResult, DecompressError>(e) && final(self).position() == p1,
                Err(x) => r == Err::<DecodeResult, DecompressError>(x),
            },
            final(self).position() >= old(self).position(),
    {
        let ghost d = self.inner.data();
        let ghost p = self.inner.pos();
        let bits = match self.inner.peek_bits(16) {
            Ok(v) => v,
            Err(e) => {
                return Err(DecompressError::IO(e));
            },
        };
        let ghost tb = table_bits(lengths);
        proof {
            lemma_max_len(lengths);
            assert(tb <= 15);
            lemma_u64_low_bits_mask_is_mod(bits, tb);
            vstd::bits::lemma_u64_pow2_no_overflow(tb);
            lemma_pow2_pos(tb);
            lemma_pow2_pos((16 - tb) as nat);
            lemma_pow2_adds(tb, (16 - tb) as nat);
            assert(tb + (16 - tb) as nat == 16);
            lemma_mod_mod((crate::bitreader::le_value(d) / pow2(p)) as int, pow2(tb) as int, pow2((16 - tb) as nat) as int);
            assert(bits % (pow2(tb) as u64) == stream_bits(d, p, tb));
            vstd::bits::lemma_u64_low_bits_mask_is_mod(bits, tb);
            lemma_mod_pos_bound(bits as int, pow2(tb) as int);
            lemma_table_entry_bounds(lengths, stream_bits(d, p, tb), lengths.len());
        }
        let result = table.decode(bits);
        let _ = self.inner.consume_bits(result.bits_used as usize);
        Ok(result)
    }

    /// Reads and checks the two-byte zlib header.
    fn read_zlib_header(&mut self) -> (r: Result<(), DecompressError>)
        requires
            old(self).wf(),
        ensures
            final(self).wf(),
            final(self).input() == old(self).input(),
            match zlib_header(old(self).input(), old(self).position()) {
                Ok((w, p1)) => r is Ok && final(self).window() == w && final(self).position() == p1,
                Err(e) => r == Err::<(), DecompressError>(e),
            },
            final(self).position() == zlib_header_end(old(self).input(), old(self).position()),
    {
        let ghost d = self.inner.data();
        let ghost p = self.inner.pos();
        let mut buf = [0u8; 2];
        match self.inner.read_align_bytes_exact(&mut buf) {
            Ok(()) => {},
            Err(e) => {
                return Err(DecompressError::IO(e));
            },
        }
        let cmf = buf[0];
        let flg = buf[1];
        let ghost b = crate::bitreader::align_up(p, d) / 8;
        assert(self.inner.byte_pos() == b + 2);
        assert(cmf == d[b as int] && flg == d[b + 1 as int]);
        if ((cmf as u32) * 256 + flg as u32) % 31 != 0 {
            return Err(DecompressError::BadZlibHeader);
        }
        let cm = cmf & 15;
        let cinfo = cmf >> 4;
        assert(cmf & 15 == cmf % 16) by (bit_vector);
        assert(cmf >> 4 == cmf / 16) by (bit_vector);
        if cm != 8 {
            return Err(DecompressError::UnknownCompressionMethod);
        }
        if cinfo > 7 {
            return Err(DecompressError::InvalidWindowLength);
        }
        proof {
            lemma2_to64();
            vstd::bits::lemma_usize_shl_is_mul(1, (cinfo + 8) as usize);
        }
        self.window_len = 1usize << (cinfo as usize + 8);
        let fdict = (flg >> 5) & 1;
        assert((flg >> 5) & 1 == (flg / 32) % 2) by (bit_vector);
        if fdict != 0 {
            return Err(DecompressError::UnknownDictionary);
        }
        Ok(())
    }

    /// Appends `n` copies of `x` to `v`.
    fn push_repeated(v: &mut Vec<u8>, x: u8, n: u64)
        requires
            n <= 138,
            old(v)@.len() <= 1000,
        ensures
            final(v)@ == old(v)@ + repeat(x, n as nat),
    {
        let mut j: u64 = 0;
        while j < n
            invariant
                j <= n <= 138,
                old(v)@.len() <= 1000,
                v@ =~= old(v)@ + repeat(x, j as nat),
            decreases n - j,
        {
            v.push(x);
            j = j + 1;
        }
    }

    /// Reads one instruction of the code-length alphabet and appends the
    /// lengths it gives.
    fn read_code_length_instruction(
        &mut self,
        code_length_table: &HuffmanTable,
        Ghost(cl): Ghost<Seq<u8>>,
        code_lengths: &mut Vec<u8>,
    ) -> (r: Result<(), DecompressError>)
        requires
            old(self).wf(),
            table_for(code_length_table, cl),
            old(code_lengths)@.len() < 288,
            lengths_bounded(old(code_lengths)@),
        ensures
            final(self).wf(),
            final(self).input() == old(self).input(),
            final(self).window() == old(self).window(),
            match code_length_step(old(self).input(), old(self).position(), cl, old(code_lengths)@) {
                Ok((acc1, p1)) => r is Ok && final(code_lengths)@ == acc1 && final(self).position() == p1,
                Err(e) => r == Err::<(), DecompressError>(e),
            },
            r is Ok ==> lengths_bounded(final(code_lengths)@),
            final(self).position() >= old(self).position(),
    {
        let result = match self.decode_symbol(code_length_table, Ghost(cl)) {
            Ok(res) => res,
            Err(e) => {
                return Err(e);
            },
        };
        proof {
            lemma2_to64();
        }
        if result.symbol <= 15 {
            code_lengths.push(result.symbol as u8);
        } else if result.symbol == 16 {
            let extra = match self.read(2) {
                Ok(v) => v,
                Err(e) => {
                    return Err(e);
                },
            };
            if code_lengths.len() == 0 {
                return Err(DecompressError::InvalidCodeLength);
            }
            let previous = code_lengths[code_lengths.len() - 1];
            Self::push_repeated(code_lengths, previous, extra + 3);
        } else if result.symbol == 17 {
            let extra = match self.read(3) {
                Ok(v) => v,
                Err(e) => {
                    return Err(e);
                },
            };
            Self::push_repeated(code_lengths, 0, extra + 3);
        } else {
            let extra = match self.read(7) {
                Ok(v) => v,
                Err(e) => {
                    return Err(e);
                },
            };
            Self::push_repeated(code_lengths, 0, extra + 11);
        }
        Ok(())
    }

    /// Reads `count` code lengths, coded with `code_length_table`, the table
    /// of the code-length code with lengths `cl`.
    fn read_dynamic_code_lengths(
        &mut self,
        code_length_table: &HuffmanTable,
        Ghost(cl): Ghost<Seq<u8>>,
        count: usize,
    ) -> (r: Result<Vec<u8>, DecompressError>)
        requires
            old(self).wf(),
            table_for(code_length_table, cl),
            1 <= count <= 288,
        ensures
            final(self).wf(),
            final(self).input() == old(self).input(),
            final(self).window() == old(self).window(),
            match code_lengths_from(old(self).input(), old(self).position(), cl, count as nat, Seq::empty()) {
                Ok((ls, p1)) => r matches Ok(v) && v@ == ls && final(self).position() == p1,
                Err(e) => r == Err::<Vec<u8>, DecompressError>(e),
            },
            r matches Ok(v) ==> lengths_bounded(v@),
            final(self).position() >= old(self).position(),
    {
        let ghost d = self.input();
        let ghost p0 = self.position();
        let ghost w = self.window();
        let mut code_lengths: Vec<u8> = Vec::with_capacity(count);
        loop
            invariant
                self.wf(),
                self.input() == d,
                self.window() == w,
                d == old(self).input(),
                w == old(self).window(),
                p0 == old(self).position(),
                table_for(code_length_table, cl),
                1 <= count <= 288,
                code_lengths@.len() < count,
                lengths_bounded(code_lengths@),
                code_lengths_from(d, p0, cl, count as nat, Seq::empty()) == code_lengths_from(
                    d,
                    self.position(),
                    cl,
                    count as nat,
                    code_lengths@,
                ),
                self.position() >= p0,
            decreases count - code_lengths@.len(),
        {
            let ghost p = self.position();
            let ghost acc = code_lengths@;
            match self.read_code_length_instruction(code_length_table, Ghost(cl), &mut code_lengths) {
                Ok(()) => {},
                Err(e) => {
                    return Err(e);
                },
            }
            if code_lengths.len() == count {
                return Ok(code_lengths);
            }
            if code_lengths.len() > count {
                return Err(DecompressError::InvalidCodeLength);
            }
            assert(code_lengths@.len() > acc.len()) by {
                if code_lengths@.len() <= acc.len() {
                    assert(code_lengths_from(d, p, cl, count as nat, acc) == Err::<(Seq<u8>, nat), DecompressError>(DecompressError::InvalidCodeLength));
                }
            }
        }
    }

    /// Appends `len` bytes copied from `dist` bytes back.
    fn copy_match(res: &mut Vec<u8>, dist: usize, len: usize)
        requires
            1 <= dist <= old(res)@.len(),
        ensures
            final(res)@ == copy_back(old(res)@, dist as nat, len as nat),
            extends(final(res)@, old(res)@),
    {
        let mut i: usize = 0;
        while i < len
            invariant
                i <= len,
                1 <= dist <= res@.len(),
                extends(res@, old(res)@),
                copy_back(old(res)@, dist as nat, len as nat) == copy_back(res@, dist as nat, (len - i) as nat),
            decreases len - i,
        {
            let b = res[res.len() - dist];
            res.push(b);
            i = i + 1;
        }
    }

    /// Decodes the data of a compressed block with the given tables, up to
    /// the end-of-block symbol. `None` when a back-reference reaches before
    /// the start of the output.
    fn read_compressed_block(
        &mut self,
        litlen_table: &HuffmanTable,
        dist_table: &HuffmanTable,
        Ghost(ll): Ghost<Seq<u8>>,
        Ghost(dl): Ghost<Seq<u8>>,
        res: &mut Vec<u8>,
    ) -> (r: Option<Result<(), DecompressError>>)
        requires
            old(self).wf(),
            table_for(litlen_table, ll),
            table_for(dist_table, dl),
            is_complete(ll),
        ensures
            final(self).wf(),
            final(self).input() == old(self).input(),
            final(self).window() == old(self).window(),
            match inflate_codes(old(self).input(), old(self).position(), ll, dl, old(self).window(), old(res)@) {
                None => r is None,
                Some(Err(e)) => r == Some(Err::<(), DecompressError>(e)),
                Some(Ok((o, p1))) => r == Some(Ok::<(), DecompressError>(())) && final(res)@ == o
                    && final(self).position() == p1,
            },
            extends(final(res)@, old(res)@),
            final(self).position() >= old(self).position(),
    {
        let ghost d = self.input();
        let ghost p0 = self.position();
        let ghost w = self.window();
        let ghost out0 = res@;
        loop
            invariant
                self.wf(),
                self.input() == d,
                self.window() == w,
                d == old(self).input(),
                w == old(self).window(),
                p0 == old(self).position(),
                out0 == old(res)@,
                extends(res@, out0),
                table_for(litlen_table, ll),
                table_for(dist_table, dl),
                is_complete(ll),
                inflate_codes(d, p0, ll, dl, w, out0) == inflate_codes(d, self.position(), ll, dl, w, res@),
                self.position() >= p0,
            decreases stream_len(d) - self.position(),
        {
            let ghost p = self.position();
            let ghost out = res@;
            let result = match self.decode_symbol(litlen_table, Ghost(ll)) {
                Ok(v) => v,
                Err(e) => {
                    return Some(Err(e));
                },
            };
            proof {
                crate::prefix_code::lemma_decode_complete_code(ll, stream_bits(d, p, table_bits(ll)));
            }
            if result.symbol <= 255 {
                res.push(result.symbol as u8);
            } else if result.symbol == 256 {
                return Some(Ok(()));
            } else if result.symbol <= 285 {
                let len_symbol = (result.symbol - 257) as usize;
                let extra = match self.read(crate::tables::LENGTH_EXTRA_BITS[len_symbol]) {
                    Ok(v) => v,
                    Err(e) => {
                        return Some(Err(e));
                    },
                };
                proof {
                    lemma2_to64();
                }
                let len = crate::tables::LENGTH_BASE[len_symbol] + extra as usize;
                let dres = match self.decode_symbol(dist_table, Ghost(dl)) {
                    Ok(v) => v,
                    Err(e) => {
                        return Some(Err(e));
                    },
                };
                let dist_symbol = dres.symbol as usize;
                if dist_symbol > 29 {
                    return Some(Err(DecompressError::UnknownDistanceSymbol));
                }
                let dextra = match self.read(crate::tables::DISTANCE_EXTRA_BITS[dist_symbol]) {
                    Ok(v) => v,
                    Err(e) => {
                        return Some(Err(e));
                    },
                };
                let dist = crate::tables::DISTANCE_BASE[dist_symbol] + dextra as usize;
                if dist > self.window_len {
                    return Some(Err(DecompressError::DistanceTooFar));
                }
                if dist > res.len() {
                    return None;
                }
                Self::copy_match(res, dist, len);
            } else {
                return Some(Err(DecompressError::UnknownLengthSymbol));
            }
        }
    }

    /// Reads the code lengths of a dynamic block and builds its two tables.
    fn read_dynamic_header(&mut self) -> (r: Result<
        (HuffmanTable, HuffmanTable, Ghost<Seq<u8>>, Ghost<Seq<u8>>),
        DecompressError,
    >)
        requires
            old(self).wf(),
        ensures
            final(self).wf(),
            final(self).input() == old(self).input(),
            final(self).window() == old(self).window(),
            final(self).position() >= old(self).position(),
            match dynamic_header(old(self).input(), old(self).position()) {
                Ok((ll, dl, p1)) => r matches Ok((lt, dt, gll, gdl)) && gll@ == ll && gdl@ == dl
                    && table_for(&lt, ll) && table_for(&dt, dl) && is_complete(ll)
                    && final(self).position() == p1,
                Err(e) => r matches Err(x) && x == e,
            },
    {
        let ghost d = self.input();
        let ghost w = self.window();
        let hlit = match self.read(5) {
            Ok(v) => v,
            Err(e) => {
                return Err(e);
            },
        };
        let hdist = match self.read(5) {
            Ok(v) => v,
            Err(e) => {
                return Err(e);
            },
        };
        let hclen = match self.read(4) {
            Ok(v) => v,
            Err(e) => {
                return Err(e);
            },
        };
        proof {
            lemma2_to64();
        }
        let hlit = hlit as usize + 257;
        let hdist = hdist as usize + 1;
        let hclen = hclen as usize + 4;
        let mut clcl: Vec<u8> = Vec::new();
        let mut z: usize = 0;
        while z < 19
            invariant
                z <= 19,
                clcl@ =~= Seq::new(z as nat, |i: int| 0u8),
            decreases 19 - z,
        {
            clcl.push(0);
            z = z + 1;
        }
        let ghost p3 = self.position();
        assert(clcl@ =~= Seq::new(19, |i: int| 0u8));
        let mut i: usize = 0;
        while i < hclen
            invariant
                self.wf(),
                self.input() == d,
                self.window() == w,
                d == old(self).input(),
                w == old(self).window(),
                self.position() >= old(self).position(),
                p3 >= old(self).position(),
                i <= hclen <= 19,
                clcl@.len() == 19,
                lengths_bounded(clcl@),
                dynamic_header(d, old(self).position()) == dynamic_code_lengths(
                    d,
                    code_length_lengths(d, self.position(), i as nat, hclen as nat, clcl@),
                    hlit as nat,
                    hdist as nat,
                ),
            decreases hclen - i,
        {
            let v = match self.read(3) {
                Ok(v) => v,
                Err(e) => {
                    return Err(e);
                },
            };
            proof {
                lemma2_to64();
            }
            clcl.set(CL_CODE_LENGTH_ORDER[i], v as u8);
            i = i + 1;
        }
        let code_length_table = match HuffmanTable::try_from(clcl.as_slice(), false) {
            Ok(t) => t,
            Err(e) => {
                return Err(e);
            },
        };
        proof {
            lemma_max_len(clcl@);
        }
        let litlen_code_lengths = match self.read_dynamic_code_lengths(&code_length_table, Ghost(clcl@), hlit) {
            Ok(v) => v,
            Err(e) => {
                return Err(e);
            },
        };
        let dist_code_lengths = match self.read_dynamic_code_lengths(&code_length_table, Ghost(clcl@), hdist) {
            Ok(v) => v,
            Err(e) => {
                return Err(e);
            },
        };
        let litlen_table = match HuffmanTable::try_from(litlen_code_lengths.as_slice(), false) {
            Ok(t) => t,
            Err(e) => {
                return Err(e);
            },
        };
        let dist_table = match HuffmanTable::try_from(dist_code_lengths.as_slice(), true) {
            Ok(t) => t,
            Err(e) => {
                return Err(e);
            },
        };
        Ok((litlen_table, dist_table, Ghost(litlen_code_lengths@), Ghost(dist_code_lengths@)))
    }

    /// Reads a stored block and appends its bytes.
    fn read_stored_block(&mut self, res: &mut Vec<u8>) -> (r: Result<(), DecompressError>)
        requires
            old(self).wf(),
        ensures
            final(self).wf(),
            final(self).input() == old(self).input(),
            final(self).window() == old(self).window(),
            final(self).position() >= old(self).position(),
            match stored_block(old(self).input(), old(self).position(), old(res)@) {
                Ok((o, p1)) => r is Ok && final(res)@ == o && final(self).position() == p1,
                Err(e) => r == Err::<(), DecompressError>(e),
            },
            extends(final(res)@, old(res)@),
    {
        let ghost d = self.input();
        self.inner.seek_next_byte();
        proof {
            crate::bitreader::lemma_align_up_bounds(old(self).position(), d);
        }
        let len = match self.read(16) {
            Ok(v) => v,
            Err(e) => {
                return Err(e);
            },
        };
        let nlen = match self.read(16) {
            Ok(v) => v,
            Err(e) => {
                return Err(e);
            },
        };
        proof {
            lemma2_to64();
        }
        let len = len as u16;
        let nlen = nlen as u16;
        assert(!len == 0xffff - len) by (bit_vector);
        if nlen != !len {
            return Err(DecompressError::InvalidUncompressedBlockLength);
        }
        let mut chunk: Vec<u8> = Vec::new();
        let mut z: usize = 0;
        while z < len as usize
            invariant
                z <= len,
                chunk@.len() == z,
            decreases len - z,
        {
            chunk.push(0);
            z = z + 1;
        }
        assert(self.inner.bit_pos() == 0);
        match self.inner.read_align_bytes_exact(chunk.as_mut_slice()) {
            Ok(()) => {},
            Err(e) => {
                return Err(DecompressError::IO(e));
            },
        }
        res.append(&mut chunk);
        Ok(())
    }
}

/// The tables of the fixed codes, once built.
pub open spec fn fixed_tables_ok(fixed: Option<(HuffmanTable, HuffmanTable)>) -> bool {
    fixed matches Some(t) ==> table_for(&t.0, fixed_litlen_lengths()) && table_for(
        &t.1,
        fixed_distance_lengths(),
    )
}

/// `r`, with the output and position it left, is the outcome `s` of
/// decoding a compressed block.
pub open spec fn codes_outcome(
    r: Option<Result<(), DecompressError>>,
    s: Option<Result<(Seq<u8>, nat), DecompressError>>,
    out: Seq<u8>,
    pos: nat,
) -> bool {
    match s {
        None => r is None,
        Some(Err(e)) => r == Some(Err::<(), DecompressError>(e)),
        Some(Ok((o, p1))) => r == Some(Ok::<(), DecompressError>(())) && out == o && pos == p1,
    }
}

impl Decompressor {
    /// Decodes a block compressed with the fixed codes, building their tables
    /// the first time.
    fn read_fixed_block(
        &mut self,
        res: &mut Vec<u8>,
        fixed_tables: &mut Option<(HuffmanTable, HuffmanTable)>,
    ) -> (r: Option<Result<(), DecompressError>>)
        requires
            old(self).wf(),
            fixed_tables_ok(*old(fixed_tables)),
        ensures
            final(self).wf(),
            final(self).input() == old(self).input(),
            final(self).window() == old(self).window(),
            final(self).position() >= old(self).position(),
            fixed_tables_ok(*final(fixed_tables)),
            extends(final(res)@, old(res)@),
            codes_outcome(
                r,
                inflate_codes(
                    old(self).input(),
                    old(self).position(),
                    fixed_litlen_lengths(),
                    fixed_distance_lengths(),
                    old(self).window(),
                    old(res)@,
                ),
                final(res)@,
                final(self).position(),
            ),
    {
        proof {
            crate::tables::lemma_fixed_litlen_valid();
            crate::tables::lemma_fixed_distance_valid();
        }
        if fixed_tables.is_none() {
            let litlen_lengths = fixed_litlen_code_lengths();
            let dist_lengths = fixed_distance_code_lengths();
            let litlen_table = match HuffmanTable::try_from(litlen_lengths.as_slice(), false) {
                Ok(t) => t,
                Err(e) => {
                    return Some(Err(e));
                },
            };
            let dist_table = match HuffmanTable::try_from(dist_lengths.as_slice(), true) {
                Ok(t) => t,
                Err(e) => {
                    return Some(Err(e));
                },
            };
            *fixed_tables = Some((litlen_table, dist_table));
        }
        match fixed_tables {
            Some(tables) => self.read_compressed_block(
                &tables.0,
                &tables.1,
                Ghost(fixed_litlen_lengths()),
                Ghost(fixed_distance_lengths()),
                res,
            ),
            None => None,
        }
    }

    /// Decodes a block compressed with codes of its own.
    fn read_dynamic_block(&mut self, res: &mut Vec<u8>) -> (r: Option<Result<(), DecompressError>>)
        requires
            old(self).wf(),
        ensures
            final(self).wf(),
            final(self).input() == old(self).input(),
            final(self).window() == old(self).window(),
            final(self).position() >= old(self).position(),
            extends(final(res)@, old(res)@),
            match dynamic_header(old(self).input(), old(self).position()) {
                Err(e) => r == Some(Err::<(), DecompressError>(e)),
                Ok((ll, dl, q)) => codes_outcome(
                    r,
                    inflate_codes(old(self).input(), q, ll, dl, old(self).window(), old(res)@),
                    final(res)@,
                    final(self).position(),
                ),
            },
    {
        let (litlen_table, dist_table, Ghost(ll), Ghost(dl)) = match self.read_dynamic_header() {
            Ok(x) => x,
            Err(e) => {
                return Some(Err(e));
            },
        };
        self.read_compressed_block(&litlen_table, &dist_table, Ghost(ll), Ghost(dl), res)
    }

    /// Reads one block and appends its data; tells whether it was the last.
    fn read_block(
        &mut self,
        res: &mut Vec<u8>,
        fixed_tables: &mut Option<(HuffmanTable, HuffmanTable)>,
    ) -> (r: Option<Result<bool, DecompressError>>)
        requires
            old(self).wf(),
            fixed_tables_ok(*old(fixed_tables)),
        ensures
            final(self).wf(),
            final(self).input() == old(self).input(),
            final(self).window() == old(self).window(),
            fixed_tables_ok(*final(fixed_tables)),
            match inflate_block(old(self).input(), old(self).position(), old(self).window(), old(res)@) {
                None => r is None,
                Some(Err(e)) => r == Some(Err::<bool, DecompressError>(e)),
                Some(Ok((o, p1, last))) => r == Some(Ok::<bool, DecompressError>(last)) && final(res)@ == o
                    && final(self).position() == p1,
            },
            r matches Some(Ok(_)) ==> final(self).position() >= old(self).position() + 3,
            extends(final(res)@, old(res)@),
    {
        let ghost d = self.input();
        let ghost p = self.position();
        let ghost w = self.window();
        let ghost out = res@;
        let bfinal = match self.read(1) {
            Ok(v) => v,
            Err(e) => {
                return Some(Err(e));
            },
        };
        let ghost p1 = self.position();
        let btype = match self.read(2) {
            Ok(v) => v,
            Err(e) => {
                return Some(Err(e));
            },
        };
        let ghost p2 = self.position();
        let last = bfinal != 0;
        assert(read_at(d, p, 1) == Ok::<(nat, nat), DecompressError>((bfinal as nat, p1)));
        assert(read_at(d, p1, 2) == Ok::<(nat, nat), DecompressError>((btype as nat, p2)));
        if btype == 0 {
            let r = self.read_stored_block(res);
            assert(inflate_block(d, p, w, out) == match stored_block(d, p2, out) {
                Err(e) => Some(Err(e)),
                Ok((o, q)) => Some(Ok((o, q, last))),
            });
            match r {
                Ok(()) => Some(Ok(last)),
                Err(e) => Some(Err(e)),
            }
        } else if btype == 1 {
            let r = self.read_fixed_block(res, fixed_tables);
            assert(inflate_block(d, p, w, out) == with_last(
                inflate_codes(d, p2, fixed_litlen_lengths(), fixed_distance_lengths(), w, out),
                last,
            ));
            match r {
                None => None,
                Some(Err(e)) => Some(Err(e)),
                Some(Ok(())) => Some(Ok(last)),
            }
        } else if btype == 2 {
            let r = self.read_dynamic_block(res);
            assert(inflate_block(d, p, w, out) == match dynamic_header(d, p2) {
                Err(e) => Some(Err(e)),
                Ok((ll, dl, q)) => with_last(inflate_codes(d, q, ll, dl, w, out), last),
            });
            match r {
                None => None,
                Some(Err(e)) => Some(Err(e)),
                Some(Ok(())) => Some(Ok(last)),
            }
        } else {
            Some(Err(DecompressError::UnknownCompressedBlockType))
        }
    }

    /// Decompresses the zlib stream that starts at the current position.
    /// `None` when a back-reference in the stream reaches before the start of
    /// the output.
    pub fn try_run(&mut self) -> (r: Option<Result<Vec<u8>, DecompressError>>)
        requires
            old(self).wf(),
        ensures
            final(self).wf(),
            final(self).input() == old(self).input(),
            match inflate(old(self).input(), old(self).position()) {
                None => r is None,
                Some(Err(e)) => r == Some(Err::<Vec<u8>, DecompressError>(e)),
                Some(Ok((o, q))) => r matches Some(Ok(v)) && v@ == o && final(self).position() == q,
            },
            zlib_header(old(self).input(), old(self).position()) is Err ==> final(self).position()
                == zlib_header_end(old(self).input(), old(self).position()),
    {
        let ghost d = self.input();
        match self.read_zlib_header() {
            Ok(()) => {},
            Err(e) => {
                return Some(Err(e));
            },
        }
        let ghost p1 = self.position();
        let ghost w = self.window();
        let mut res: Vec<u8> = Vec::new();
        let mut fixed_tables: Option<(HuffmanTable, HuffmanTable)> = None;
        loop
            invariant
                self.wf(),
                self.input() == d,
                self.window() == w,
                d == old(self).input(),
                zlib_header(d, old(self).position()) is Ok,
                inflate(d, old(self).position()) == inflate_blocks(d, p1, w, Seq::empty()),
                inflate_blocks(d, p1, w, Seq::empty()) == inflate_blocks(d, self.position(), w, res@),
                fixed_tables_ok(fixed_tables),
            decreases stream_len(d) - self.position(),
        {
            let ghost p = self.position();
            let ghost out = res@;
            match self.read_block(&mut res, &mut fixed_tables) {
                None => {
                    return None;
                },
                Some(Err(e)) => {
                    return Some(Err(e));
                },
                Some(Ok(last)) => {
                    if last {
                        return Some(Ok(res));
                    }
                },
            }
        }
    }

    /// Decompresses the zlib stream that starts at the current position.
    pub fn run(&mut self) -> (r: Result<Vec<u8>, DecompressError>)
        requires
            old(self).wf(),
            inflate(old(self).input(), old(self).position()) is Some,
        ensures
            final(self).wf(),
            final(self).input() == old(self).input(),
            match inflate(old(self).input(), old(self).position()) {
                Some(Err(e)) => r == Err::<Vec<u8>, DecompressError>(e),
                Some(Ok((o, q))) => r matches Ok(v) && v@ == o && final(self).position() == q,
                None => false,
            },
            zlib_header(old(self).input(), old(self).position()) is Err ==> final(self).position()
                == zlib_header_end(old(self).input(), old(self).position()),
    {
        match self.try_run() {
            Some(r) => r,
            None => Ok(Vec::new()),
        }
    }

    /// Starts decompressing `data` at its first byte.
    pub fn new(data: Vec<u8>) -> (r: Self)
        ensures
            r.wf(),
            r.input() == data@,
            r.position() == 0,
    {
        Decompressor { inner: BitReader::new(data), window_len: 0 }
    }
}

} // verus!
