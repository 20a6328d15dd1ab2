//! Reading a byte buffer as a stream of bits, least-significant bit first.
//!
//! The bytes are the digits, in base 256 and least-significant first, of one
//! natural number; the bits at stream position `p` are that number's binary
//! digits from `p` on.
use vstd::prelude::*;
use vstd::arithmetic::power2::*;
use vstd::arithmetic::div_mod::*;
use vstd::arithmetic::mul::*;
use vstd::bits::{
    low_bits_mask, lemma_u64_low_bits_mask_is_mod, lemma_u64_shl_is_mul, lemma_u64_shr_is_div,
};

verus! {

/// The ways a read from the underlying bytes can fail.
#[derive(Debug, PartialEq, Eq, Structural)]
pub enum ReadError {
    /// Fewer bits or bytes remain than were asked for.
    UnexpectedEof,
}

/// The number whose base-256 digits, least-significant first, are `bytes`.
pub open spec fn le_value(bytes: Seq<u8>) -> nat
    decreases bytes.len(),
{
    if bytes.len() == 0 {
        0
    } else {
        bytes[0] as nat + 256 * le_value(bytes.drop_first())
    }
}

/// The `n` bits of the stream `bytes` that start at bit position `pos`, as a
/// number whose least-significant bit is the first bit read.
pub open spec fn stream_bits(bytes: Seq<u8>, pos: nat, n: nat) -> nat {
    (le_value(bytes) / pow2(pos)) % pow2(n)
}

/// The number of bits in the stream.
pub open spec fn stream_len(bytes: Seq<u8>) -> nat {
    8 * bytes.len()
}

/// The position reached by skipping to the next byte boundary, within the
/// stream.
pub open spec fn align_up(pos: nat, bytes: Seq<u8>) -> nat {
    if pos % 8 == 0 {
        pos
    } else if pos / 8 + 1 <= bytes.len() {
        8 * (pos / 8 + 1)
    } else {
        8 * bytes.len()
    }
}

/// Aligning a position within the stream keeps it within the stream and
/// never moves it back.
pub proof fn lemma_align_up_bounds(pos: nat, bytes: Seq<u8>)
    requires
        pos <= stream_len(bytes),
    ensures
        pos <= align_up(pos, bytes) <= stream_len(bytes),
        align_up(pos, bytes) % 8 == 0,
{
}

pub proof fn lemma_pow2_8()
    ensures
        pow2(8) == 256,
        pow2(0) == 1,
{
    lemma2_to64();
}

/// A number of `k` base-256 digits is below 2^(8k).
pub proof fn lemma_le_value_bound(bytes: Seq<u8>)
    ensures
        le_value(bytes) < pow2(8 * bytes.len()),
    decreases bytes.len(),
{
    lemma_pow2_8();
    if bytes.len() > 0 {
        let rest = bytes.drop_first();
        lemma_le_value_bound(rest);
        assert(8 * bytes.len() == 8 + 8 * rest.len());
        lemma_pow2_adds(8, 8 * rest.len());
        assert(le_value(rest) + 1 <= pow2(8 * rest.len()));
        lemma_mul_inequality((le_value(rest) + 1) as int, pow2(8 * rest.len()) as int, 256);
    }
}

/// The digits split at any place: low digits plus the high digits shifted up.
pub proof fn lemma_le_value_split(bytes: Seq<u8>, b: int)
    requires
        0 <= b <= bytes.len(),
    ensures
        le_value(bytes) == le_value(bytes.take(b)) + pow2(8 * b as nat) * le_value(bytes.skip(b)),
    decreases b,
{
    lemma_pow2_8();
    if b == 0 {
        assert(bytes.take(0) =~= Seq::<u8>::empty());
        assert(bytes.skip(0) =~= bytes);
        lemma_mul_basics(le_value(bytes) as int);
    } else {
        let rest = bytes.drop_first();
        lemma_le_value_split(rest, b - 1);
        assert(rest.skip(b - 1) =~= bytes.skip(b));
        assert(bytes.take(b).drop_first() =~= rest.take(b - 1));
        assert(8 * b as nat == 8 + 8 * (b - 1) as nat);
        lemma_pow2_adds(8, 8 * (b - 1) as nat);
        let q = pow2(8 * (b - 1) as nat);
        let h = le_value(bytes.skip(b));
        lemma_mul_is_distributive_add(256, le_value(rest.take(b - 1)) as int, (q * h) as int);
        lemma_mul_is_associative(256, q as int, h as int);
    }
}

/// Dropping the first `b` whole bytes divides the number by 2^(8b).
pub proof fn lemma_le_value_skip(bytes: Seq<u8>, b: int)
    requires
        0 <= b <= bytes.len(),
    ensures
        le_value(bytes) / pow2(8 * b as nat) == le_value(bytes.skip(b)),
{
    lemma_le_value_split(bytes, b);
    lemma_le_value_bound(bytes.take(b));
    lemma_pow2_pos(8 * b as nat);
    lemma_mul_is_commutative(pow2(8 * b as nat) as int, le_value(bytes.skip(b)) as int);
    lemma_fundamental_div_mod_converse(
        le_value(bytes) as int,
        pow2(8 * b as nat) as int,
        le_value(bytes.skip(b)) as int,
        le_value(bytes.take(b)) as int,
    );
}

/// `n` bits hold a number below 2^n.
pub proof fn lemma_stream_bits_bound(bytes: Seq<u8>, pos: nat, n: nat)
    ensures
        stream_bits(bytes, pos, n) < pow2(n),
{
    lemma_pow2_pos(n);
    lemma_pow2_pos(pos);
    lemma_mod_pos_bound((le_value(bytes) / pow2(pos)) as int, pow2(n) as int);
}

/// The bits at a position depend only on the bytes from that position's
/// byte on.
pub proof fn lemma_stream_bits_skip(bytes: Seq<u8>, b: int, bit: nat, n: nat)
    requires
        0 <= b <= bytes.len(),
    ensures
        stream_bits(bytes, (8 * b + bit) as nat, n) == stream_bits(bytes.skip(b), bit, n),
{
    lemma_le_value_skip(bytes, b);
    lemma_pow2_adds(8 * b as nat, bit);
    lemma_pow2_pos(8 * b as nat);
    lemma_pow2_pos(bit);
    lemma_div_denominator(le_value(bytes) as int, pow2(8 * b as nat) as int, pow2(bit) as int);
    assert((8 * b + bit) as nat == 8 * b as nat + bit);
}

/// Bits that end within the first `k` bytes are determined by those bytes.
pub proof fn lemma_stream_bits_take(bytes: Seq<u8>, k: int, bit: nat, n: nat)
    requires
        0 <= k <= bytes.len(),
        bit + n <= 8 * k,
    ensures
        stream_bits(bytes, bit, n) == stream_bits(bytes.take(k), bit, n),
{
    let a = le_value(bytes.take(k));
    let h = le_value(bytes.skip(k));
    let big = (8 * k) as nat;
    lemma_le_value_split(bytes, k);
    let d = (big - bit - n) as nat;
    lemma_pow2_adds(bit, (big - bit) as nat);
    lemma_pow2_adds(n, d);
    lemma_pow2_pos(bit);
    lemma_pow2_pos(n);
    lemma_pow2_pos(d);
    assert(bit + (big - bit) as nat == big);
    assert(n + d == (big - bit) as nat);
    let pb = pow2(bit);
    let rest = pow2((big - bit) as nat);
    // (a + 2^big h) / 2^bit == a / 2^bit + 2^(big - bit) h
    assert(pow2(big) * h == pb * (rest * h)) by {
        lemma_mul_is_associative(pb as int, rest as int, h as int);
    }
    lemma_mul_is_commutative(pb as int, (rest * h) as int);
    assert((le_value(bytes) / pb) == rest * h + a / pb) by {
        lemma_fundamental_div_mod(a as int, pb as int);
        lemma_mod_pos_bound(a as int, pb as int);
        lemma_mul_is_distributive_add(pb as int, (rest * h) as int, (a / pb) as int);
        lemma_fundamental_div_mod_converse(
            le_value(bytes) as int,
            pb as int,
            (rest * h + a / pb) as int,
            (a % pb) as int,
        );
    }
    // and the high part vanishes modulo 2^n.
    assert(rest * h == pow2(n) * (pow2(d) * h)) by {
        lemma_mul_is_associative(pow2(n) as int, pow2(d) as int, h as int);
    }
    lemma_mod_multiples_vanish((pow2(d) * h) as int, (a / pb) as int, pow2(n) as int);
}

/// Reading `n` bits and then `m` more gives the same bits as reading
/// `n + m` at once: the first read supplies the low bits, the second the
/// high ones.
pub proof fn lemma_stream_bits_concat(bytes: Seq<u8>, pos: nat, n: nat, m: nat)
    ensures
        stream_bits(bytes, pos, n) + pow2(n) * stream_bits(bytes, pos + n, m) == stream_bits(
            bytes,
            pos,
            n + m,
        ),
{
    let x = le_value(bytes) / pow2(pos);
    lemma_pow2_pos(pos);
    lemma_pow2_pos(n);
    lemma_pow2_pos(m);
    lemma_pow2_adds(n, m);
    lemma_pow2_adds(pos, n);
    lemma_div_denominator(le_value(bytes) as int, pow2(pos) as int, pow2(n) as int);
    lemma_mod_breakdown(x as int, pow2(n) as int, pow2(m) as int);
}

/// Skipping to the next byte boundary a second time does not move.
pub proof fn lemma_align_up_idempotent(pos: nat, bytes: Seq<u8>)
    requires
        pos <= stream_len(bytes),
    ensures
        align_up(align_up(pos, bytes), bytes) == align_up(pos, bytes),
{
}

/// A byte buffer read as a bit stream.
pub struct BitReader {
    inner: Vec<u8>,
    byte_pos: usize,
    bit_pos: usize,
}

impl BitReader {
    /// The bytes being read.
    pub closed spec fn data(&self) -> Seq<u8> {
        self.inner@
    }

    /// The index of the byte that holds the next bit.
    pub closed spec fn byte_pos(&self) -> nat {
        self.byte_pos as nat
    }

    /// How many bits of that byte have been read.
    pub closed spec fn bit_pos(&self) -> nat {
        self.bit_pos as nat
    }

    /// The position of the next bit in the stream.
    pub open spec fn pos(&self) -> nat {
        8 * self.byte_pos() + self.bit_pos()
    }

    /// The reader's position is a position of the stream, or lies within the
    /// byte just past its end.
    pub open spec fn wf(&self) -> bool {
        &&& self.byte_pos() <= self.data().len()
        &&& self.bit_pos() < 8
    }

    /// The reader has not moved past the end of the stream.
    pub open spec fn in_stream(&self) -> bool {
        self.pos() <= stream_len(self.data())
    }

    fn peek_u64_le(&self, x: &mut u64) -> (r: usize)
        requires
            self.wf(),
        ensures
            r == 8 * (if self.data().len() - self.byte_pos() < 8 {
                self.data().len() - self.byte_pos()
            } else {
                8
            }),
            *final(x) == le_value(self.data().skip(self.byte_pos() as int).take(r as int / 8)),
    {
        let len = self.inner.len();
        let remaining = len - self.byte_pos;
        let k: usize = if remaining < 8 { remaining } else { 8 };
        let ghost tail = self.inner@.skip(self.byte_pos as int).take(k as int);
        let mut v: u64 = 0;
        let mut j: usize = k;
        proof {
            lemma_pow2_8();
            assert(tail.subrange(k as int, k as int) =~= Seq::<u8>::empty());
        }
        while j > 0
            invariant
                j <= k <= 8,
                len == self.inner@.len(),
                self.byte_pos + k <= self.inner@.len(),
                tail == self.inner@.skip(self.byte_pos as int).take(k as int),
                v == le_value(tail.subrange(j as int, k as int)),
                v < pow2(8 * (k - j) as nat),
            decreases j,
        {
            j = j - 1;
            let ghost part = tail.subrange(j as int, k as int);
            proof {
                assert(part.drop_first() =~= tail.subrange(j + 1, k as int));
                lemma_le_value_bound(part);
                assert(8 * (k - j) as nat == 8 + 8 * (k - j - 1) as nat);
                lemma_pow2_adds(8, 8 * (k - j - 1) as nat);
                vstd::bits::lemma_u64_pow2_no_overflow(8 * (k - j - 1) as nat);
                assert(pow2(8 * (k - j) as nat) <= pow2(64)) by {
                    if k - j < 8 {
                        lemma_pow2_strictly_increases(8 * (k - j) as nat, 64);
                    }
                }
                lemma2_to64_rest();
                lemma_mul_inequality(v as int, (pow2(8 * (k - j - 1) as nat) - 1) as int, 256);
            }
            v = v * 256 + self.inner[self.byte_pos + j] as u64;
        }
        *x = v;
        assert(tail.subrange(0, k as int) =~= tail);
        8 * k
    }

    /// Skips the rest of a partly read byte.
    pub fn seek_next_byte(&mut self)
        requires
            old(self).wf(),
        ensures
            final(self).wf(),
            final(self).data() == old(self).data(),
            final(self).bit_pos() == 0,
            final(self).byte_pos() == if old(self).bit_pos() != 0 {
                if old(self).byte_pos() + 1 <= old(self).data().len() {
                    old(self).byte_pos() + 1
                } else {
                    old(self).data().len()
                }
            } else {
                old(self).byte_pos()
            },
            old(self).in_stream() ==> final(self).pos() == align_up(old(self).pos(), old(self).data()),
    {
        if self.bit_pos != 0 {
            if self.byte_pos < self.inner.len() {
                self.byte_pos = self.byte_pos + 1;
            }
            self.bit_pos = 0;
        }
    }

    /// Starts reading `data` at its first bit.
    pub fn new(data: Vec<u8>) -> (r: Self)
        ensures
            r.wf(),
            r.data() == data@,
            r.pos() == 0,
    {
        BitReader { inner: data, byte_pos: 0, bit_pos: 0 }
    }

    /// The next `n` bits, without moving past them.
    pub fn peek_bits(&mut self, n: usize) -> (r: Result<u64, ReadError>)
        requires
            old(self).wf(),
            old(self).in_stream(),
            n <= 57,
        ensures
            *final(self) == *old(self),
            r is Ok <==> old(self).pos() + n <= stream_len(old(self).data()),
            r matches Ok(v) ==> v == stream_bits(old(self).data(), old(self).pos(), n as nat),
            r is Err ==> r == Err::<u64, ReadError>(ReadError::UnexpectedEof),
    {
        let mut bits: u64 = 0;
        let bits_peeked = self.peek_u64_le(&mut bits);
        let bits_available = bits_peeked - self.bit_pos;
        if n > bits_available {
            return Err(ReadError::UnexpectedEof);
        }
        let ghost d = self.inner@;
        let ghost b = self.byte_pos as int;
        let ghost k = bits_peeked as int / 8;
        proof {
            lemma_stream_bits_skip(d, b, self.bit_pos as nat, n as nat);
            lemma_stream_bits_take(d.skip(b), k, self.bit_pos as nat, n as nat);
            lemma_u64_shr_is_div(bits, self.bit_pos as u64);
            lemma_u64_pow2_no_overflow_small(n as nat);
            lemma_u64_shl_is_mul(1, n as u64);
            lemma_pow2_pos(n as nat);
            lemma_u64_low_bits_mask_is_mod(bits >> self.bit_pos as u64, n as nat);
        }
        let mask: u64 = (1u64 << n as u64) - 1;
        assert(mask == low_bits_mask(n as nat) as u64);
        Ok(bits >> self.bit_pos as u64 & mask)
    }

    /// Moves past the next `n` bits; at the end of the stream, moves to the
    /// end of the last byte.
    pub fn consume_bits(&mut self, n: usize) -> (r: Result<(), ReadError>)
        requires
            old(self).wf(),
            n <= 57,
        ensures
            r is Ok,
            final(self).wf(),
            final(self).data() == old(self).data(),
            final(self).bit_pos() == (old(self).bit_pos() + n) % 8,
            final(self).byte_pos() == if old(self).byte_pos() + (old(self).bit_pos() + n) / 8
                <= old(self).data().len() {
                old(self).byte_pos() + (old(self).bit_pos() + n) / 8
            } else {
                old(self).data().len() as int
            },
            old(self).pos() + n <= stream_len(old(self).data()) ==> final(self).pos() == old(self).pos() + n,
    {
        let step = (self.bit_pos + n) / 8;
        let remaining = self.inner.len() - self.byte_pos;
        if step <= remaining {
            self.byte_pos = self.byte_pos + step;
        } else {
            self.byte_pos = self.inner.len();
        }
        self.bit_pos = (self.bit_pos + n) % 8;
        Ok(())
    }

    /// Reads up to 57 bits, the first bit read being the least significant.
    pub fn read_bits(&mut self, n: usize) -> (r: Result<u64, ReadError>)
        requires
            old(self).wf(),
            old(self).in_stream(),
            n <= 57,
        ensures
            final(self).wf(),
            final(self).data() == old(self).data(),
            r is Ok <==> old(self).pos() + n <= stream_len(old(self).data()),
            r matches Ok(v) ==> v == stream_bits(old(self).data(), old(self).pos(), n as nat)
                && final(self).pos() == old(self).pos() + n,
            r is Err ==> r == Err::<u64, ReadError>(ReadError::UnexpectedEof) && *final(self) == *old(self),
    {
        let res = match self.peek_bits(n) {
            Ok(v) => v,
            Err(e) => {
                return Err(e);
            },
        };
        let _ = self.consume_bits(n);
        Ok(res)
    }

    /// Gives back the bytes not yet read; the rest of a partly read byte is
    /// dropped.
    pub fn into_inner(self) -> (r: Vec<u8>)
        requires
            self.wf(),
        ensures
            r@ == self.data().skip(
                (if self.bit_pos() != 0 && self.byte_pos() < self.data().len() {
                    self.byte_pos() + 1
                } else {
                    self.byte_pos()
                }) as int,
            ),
    {
        let mut this = self;
        this.seek_next_byte();
        let mut rest: Vec<u8> = Vec::new();
        let mut i = this.byte_pos;
        while i < this.inner.len()
            invariant
                this.byte_pos <= i <= this.inner@.len(),
                rest@ =~= this.inner@.subrange(this.byte_pos as int, i as int),
            decreases this.inner@.len() - i,
        {
            rest.push(this.inner[i]);
            i = i + 1;
        }
        rest
    }

    /// Skips to the next byte boundary, then fills `buf` with the bytes that
    /// follow. Fails, leaving `buf` as it was, when too few bytes remain.
    pub fn read_align_bytes_exact(&mut self, buf: &mut [u8]) -> (r: Result<(), ReadError>)
        requires
            old(self).wf(),
        ensures
            final(self).wf(),
            final(self).data() == old(self).data(),
            ({
                let start = if old(self).bit_pos() != 0 && old(self).byte_pos() < old(self).data().len() {
                    old(self).byte_pos() + 1
                } else {
                    old(self).byte_pos()
                };
                &&& r is Ok <==> start + old(buf)@.len() <= old(self).data().len()
                &&& r is Ok ==> {
                    &&& final(buf)@ == old(self).data().subrange(start as int, start + old(buf)@.len() as int)
                    &&& final(self).byte_pos() == start + old(buf)@.len()
                    &&& final(self).bit_pos() == 0
                }
                &&& r is Err ==> {
                    &&& r == Err::<(), ReadError>(ReadError::UnexpectedEof)
                    &&& final(buf)@ == old(buf)@
                    &&& final(self).byte_pos() == start
                    &&& final(self).bit_pos() == 0
                }
            }),
    {
        self.seek_next_byte();
        let n = buf.len();
        if n > self.inner.len() - self.byte_pos {
            return Err(ReadError::UnexpectedEof);
        }
        let start = self.byte_pos;
        let len = self.inner.len();
        let mut i: usize = 0;
        while i < n
            invariant
                i <= n == buf@.len(),
                len == self.inner@.len(),
                start + n <= self.inner@.len(),
                forall|j: int| 0 <= j < i ==> #[trigger] buf@[j] == self.inner@[start + j],
            decreases n - i,
        {
            buf[i] = self.inner[start + i];
            i = i + 1;
        }
        assert(buf@ =~= self.inner@.subrange(start as int, start + n));
        self.byte_pos = start + n;
        Ok(())
    }
}

proof fn lemma_u64_pow2_no_overflow_small(n: nat)
    requires
        n <= 57,
    ensures
        1 * pow2(n) <= u64::MAX,
{
    vstd::bits::lemma_u64_pow2_no_overflow(n);
}

} // verus!
