//! Canonical Huffman codes (RFC 1951, section 3.2.2) and the lookup tables
//! that decode them.
use vstd::prelude::*;
use vstd::arithmetic::power2::*;
use vstd::arithmetic::mul::*;
use vstd::arithmetic::div_mod::*;
use crate::bitrev::{bit_reverse, get_packed_code};
use crate::decompress::DecompressError;

verus! {

// ---------------------------------------------------------------------------
// The canonical code, as a function of the code lengths
// ---------------------------------------------------------------------------

/// The number of symbols whose code length is `l`.
pub open spec fn count_len(lengths: Seq<u8>, l: nat) -> nat
    decreases lengths.len(),
{
    if lengths.len() == 0 {
        0
    } else {
        count_len(lengths.drop_last(), l) + if lengths.last() == l { 1nat } else { 0nat }
    }
}

/// `bl_count` of RFC 1951: the number of codes of each length, where
/// symbols of length 0 take no part in the code.
pub open spec fn bl_count(lengths: Seq<u8>, l: nat) -> nat {
    if l == 0 {
        0
    } else {
        count_len(lengths, l)
    }
}

/// The largest code length (0 when every length is 0 or there is none).
pub open spec fn max_len(lengths: Seq<u8>) -> nat
    decreases lengths.len(),
{
    if lengths.len() == 0 {
        0
    } else {
        let m = max_len(lengths.drop_last());
        if lengths.last() > m {
            lengths.last() as nat
        } else {
            m
        }
    }
}

/// The smallest code of length `l` (`next_code[l]` of RFC 1951).
pub open spec fn first_code(lengths: Seq<u8>, l: nat) -> nat
    decreases l,
{
    if l == 0 {
        0
    } else {
        2 * (first_code(lengths, (l - 1) as nat) + bl_count(lengths, (l - 1) as nat))
    }
}

/// The code of symbol `i`: codes of one length are consecutive and follow
/// the order of the symbols.
pub open spec fn canonical_code(lengths: Seq<u8>, i: int) -> nat {
    first_code(lengths, lengths[i] as nat) + count_len(lengths.take(i), lengths[i] as nat)
}

/// Every code length is one that DEFLATE can express.
pub open spec fn lengths_bounded(lengths: Seq<u8>) -> bool {
    forall|i: int| 0 <= i < lengths.len() ==> #[trigger] lengths[i] <= 15
}

/// The code uses every bit pattern of the longest length: it is a full
/// prefix code (Kraft's sum is exactly one).
pub open spec fn is_complete(lengths: Seq<u8>) -> bool {
    first_code(lengths, max_len(lengths)) + bl_count(lengths, max_len(lengths)) == pow2(
        max_len(lengths),
    )
}

/// The two distance codes that RFC 1951 allows to be incomplete:
/// no code at all, or a single code of one bit.
pub open spec fn is_degenerate_distance_code(lengths: Seq<u8>) -> bool {
    max_len(lengths) == 0 || (max_len(lengths) == 1 && count_len(lengths, 1) == 1)
}

/// Code lengths from which a code can be built.
pub open spec fn codes_valid(lengths: Seq<u8>, is_distance: bool) -> bool {
    (is_distance && is_degenerate_distance_code(lengths)) || is_complete(lengths)
}

// ---------------------------------------------------------------------------
// Lemmas on counting
// ---------------------------------------------------------------------------

pub proof fn lemma_count_len_bound(lengths: Seq<u8>, l: nat)
    ensures
        count_len(lengths, l) <= lengths.len(),
    decreases lengths.len(),
{
    if lengths.len() > 0 {
        lemma_count_len_bound(lengths.drop_last(), l);
    }
}

pub proof fn lemma_count_len_take_step(lengths: Seq<u8>, k: int, l: nat)
    requires
        0 <= k < lengths.len(),
    ensures
        count_len(lengths.take(k + 1), l) == count_len(lengths.take(k), l) + if lengths[k] == l {
            1nat
        } else {
            0nat
        },
{
    assert(lengths.take(k + 1).drop_last() =~= lengths.take(k));
}

/// The longest length bounds every length, occurs when positive, and no
/// symbol is longer.
pub proof fn lemma_max_len(lengths: Seq<u8>)
    ensures
        forall|i: int| 0 <= i < lengths.len() ==> lengths[i] <= max_len(lengths),
        max_len(lengths) > 0 ==> count_len(lengths, max_len(lengths)) > 0,
        forall|l: nat| l > max_len(lengths) ==> count_len(lengths, l) == 0,
        max_len(lengths) <= 255,
        lengths_bounded(lengths) ==> max_len(lengths) <= 15,
    decreases lengths.len(),
{
    if lengths.len() > 0 {
        let init = lengths.drop_last();
        lemma_max_len(init);
        assert forall|i: int| 0 <= i < lengths.len() implies lengths[i] <= max_len(lengths) by {
            if i < lengths.len() - 1 {
                assert(lengths[i] == init[i]);
            }
        }
        assert forall|l: nat| l > max_len(lengths) implies count_len(lengths, l) == 0 by {
            assert(count_len(init, l) == 0);
        }
        if max_len(lengths) > 0 && max_len(lengths) == max_len(init) {
            assert(count_len(init, max_len(init)) > 0);
        }
        if lengths_bounded(lengths) {
            assert(lengths[lengths.len() - 1] <= 15);
            assert forall|i: int| 0 <= i < init.len() implies #[trigger] init[i] <= 15 by {
                assert(init[i] == lengths[i]);
            }
        }
    }
}

/// Counting in a prefix never exceeds counting in the whole.
pub proof fn lemma_count_len_take_le(lengths: Seq<u8>, k: int, l: nat)
    requires
        0 <= k <= lengths.len(),
    ensures
        count_len(lengths.take(k), l) <= count_len(lengths, l),
    decreases lengths.len() - k,
{
    if k < lengths.len() {
        lemma_count_len_take_step(lengths, k, l);
        lemma_count_len_take_le(lengths, k + 1, l);
    } else {
        assert(lengths.take(k) =~= lengths);
    }
}

/// A rough bound on the first codes, enough to compute them in 32 bits.
pub proof fn lemma_first_code_bound(lengths: Seq<u8>, l: nat)
    requires
        l >= 1,
    ensures
        first_code(lengths, l) + 2 * lengths.len() <= lengths.len() * pow2(l),
    decreases l,
{
    let n = lengths.len();
    if l == 1 {
        lemma2_to64();
        assert(first_code(lengths, 0) == 0);
        assert(first_code(lengths, 1) == 0);
    } else {
        let lm1 = (l - 1) as nat;
        lemma_first_code_bound(lengths, lm1);
        lemma_count_len_bound(lengths, lm1);
        lemma_pow2_unfold(l);
        assert(n * pow2(l) == 2 * (n * pow2(lm1))) by {
            lemma_mul_is_associative(n as int, 2, pow2(lm1) as int);
            lemma_mul_is_commutative(n as int, 2);
            lemma_mul_is_associative(2, n as int, pow2(lm1) as int);
        }
    }
}

/// In a complete code, the codes of every length fit in that length.
pub proof fn lemma_complete_codes_fit(lengths: Seq<u8>, l: nat)
    requires
        is_complete(lengths),
        1 <= l <= max_len(lengths),
    ensures
        first_code(lengths, l) + bl_count(lengths, l) <= pow2(l),
    decreases max_len(lengths) - l,
{
    if l < max_len(lengths) {
        lemma_complete_codes_fit(lengths, l + 1);
        lemma_pow2_unfold(l + 1);
        assert(first_code(lengths, l + 1) == 2 * (first_code(lengths, l) + bl_count(lengths, l)));
    }
}

/// 2^l for the code lengths that occur.
pub proof fn lemma_pow2_small(l: nat)
    requires
        l <= 16,
    ensures
        pow2(l) <= 0x10000,
        pow2(l) >= 1,
{
    lemma2_to64();
    lemma_pow2_pos(l);
    if l < 16 {
        lemma_pow2_strictly_increases(l, 16);
    }
}

// ---------------------------------------------------------------------------
// Computing the codes
// ---------------------------------------------------------------------------

/// Assigns the canonical code to every symbol with a nonzero length, after
/// checking that the lengths describe a usable code.
fn get_huffman_codes(lengths: &[u8], is_distance: bool, codes: &mut [u16; 288]) -> (r: Result<
    (),
    DecompressError,
>)
    requires
        lengths@.len() <= 288,
        lengths_bounded(lengths@),
    ensures
        r is Ok <==> codes_valid(lengths@, is_distance),
        r is Err ==> r == Err::<(), DecompressError>(DecompressError::InvalidCodeLength),
        forall|i: int|
            0 <= i < 288 ==> #[trigger] final(codes)@[i] == if r is Ok && i < lengths@.len()
                && lengths@[i] != 0 {
                canonical_code(lengths@, i)
            } else {
                0
            },
{
    let ghost lens = lengths@;
    let n = lengths.len();
    let mut z: usize = 0;
    while z < 288
        invariant
            z <= 288,
            forall|i: int| 0 <= i < z ==> #[trigger] codes@[i] == 0,
        decreases 288 - z,
    {
        codes[z] = 0;
        z = z + 1;
    }

    let mut length_count: [u32; 16] = [0; 16];
    let mut k: usize = 0;
    while k < n
        invariant
            n == lens.len() <= 288,
            lens == lengths@,
            lengths_bounded(lens),
            k <= n,
            forall|l: int| 0 <= l < 16 ==> #[trigger] length_count@[l] == count_len(lens.take(k as int), l as nat),
        decreases n - k,
    {
        let len = lengths[k] as usize;
        proof {
            assert(lens[k as int] <= 15);
            lemma_count_len_bound(lens.take(k as int), len as nat);
            assert forall|l: int| 0 <= l < 16 implies #[trigger] count_len(lens.take(k + 1), l as nat) == count_len(lens.take(k as int), l as nat) + if lens[k as int] == l { 1nat } else { 0nat } by {
                lemma_count_len_take_step(lens, k as int, l as nat);
            }
        }
        length_count[len] = length_count[len] + 1;
        k = k + 1;
    }
    assert(lens.take(n as int) =~= lens);
    proof {
        lemma_max_len(lens);
    }

    let mut max_length: usize = 15;
    while max_length > 0 && length_count[max_length] == 0
        invariant
            max_length <= 15,
            forall|l: int| 0 <= l < 16 ==> #[trigger] length_count@[l] == count_len(lens, l as nat),
            forall|l: nat| max_length < l <= 15 ==> count_len(lens, l) == 0,
        decreases max_length,
    {
        max_length = max_length - 1;
    }
    assert(max_length == max_len(lens)) by {
        if max_length < max_len(lens) {
            assert(count_len(lens, max_len(lens)) == 0);
        }
    }

    if is_distance {
        if max_length == 0 || (max_length == 1 && length_count[1] == 1) {
            proof {
                assert forall|j: int| 0 <= j < lens.len() && lens[j] != 0 implies canonical_code(lens, j) == 0 by {
                    assert(lens[j] <= max_length);
                    assert(first_code(lens, 0) == 0);
                    lemma_count_len_take_step(lens, j, 1);
                    lemma_count_len_take_le(lens, j + 1, 1);
                }
            }
            return Ok(());
        }
    }

    let mut used_codes: u32 = 0;
    let mut next_code: [u32; 16] = [0; 16];
    let mut i: usize = 1;
    while i <= max_length
        invariant
            1 <= i <= max_length + 1,
            max_length == max_len(lens) <= 15,
            n == lens.len() <= 288,
            forall|l: int| 0 <= l < 16 ==> #[trigger] length_count@[l] == count_len(lens, l as nat),
            used_codes == first_code(lens, (i - 1) as nat),
            forall|l: int| 1 <= l < i ==> #[trigger] next_code@[l] == first_code(lens, l as nat),
        decreases max_length + 1 - i,
    {
        let prev = if i - 1 == 0 { 0 } else { length_count[i - 1] };
        proof {
            lemma_first_code_bound(lens, i as nat);
            lemma_pow2_small(i as nat);
            lemma_mul_upper_bound(n as int, 288, pow2(i as nat) as int, 0x10000);
            assert(first_code(lens, i as nat) == 2 * (first_code(lens, (i - 1) as nat) + bl_count(lens, (i - 1) as nat)));
        }
        used_codes = (used_codes + prev) * 2;
        next_code[i] = used_codes;
        i = i + 1;
    }
    proof {
        lemma_count_len_bound(lens, max_length as nat);
        if max_length > 0 {
            lemma_first_code_bound(lens, max_length as nat);
            lemma_pow2_small(max_length as nat);
            lemma_mul_upper_bound(n as int, 288, pow2(max_length as nat) as int, 0x10000);
        }
    }
    let top = if max_length == 0 { 0 } else { length_count[max_length] };
    used_codes = used_codes + top;

    proof {
        lemma_pow2_small(max_length as nat);
        vstd::bits::lemma_u32_shl_is_mul(1, max_length as u32);
    }
    let full: u32 = 1u32 << max_length as u32;
    if used_codes != full {
        return Err(DecompressError::InvalidCodeLength);
    }

    let mut k: usize = 0;
    while k < n
        invariant
            n == lens.len() <= 288,
            lens == lengths@,
            lengths_bounded(lens),
            is_complete(lens),
            max_length == max_len(lens) <= 15,
            k <= n,
            forall|l: int| 1 <= l <= max_length ==> #[trigger] next_code@[l] == first_code(lens, l as nat) + count_len(lens.take(k as int), l as nat),
            forall|j: int| 0 <= j < 288 ==> #[trigger] codes@[j] == if j < k && lens[j] != 0 {
                canonical_code(lens, j)
            } else {
                0
            },
        decreases n - k,
    {
        let len = lengths[k] as usize;
        if len != 0 {
            proof {
                lemma_max_len(lens);
                lemma_complete_codes_fit(lens, len as nat);
                lemma_count_len_take_le(lens, k as int, len as nat);
                lemma_count_len_take_step(lens, k as int, len as nat);
                lemma_count_len_take_le(lens, k + 1, len as nat);
                lemma_pow2_small(len as nat);
            }
            codes[k] = next_code[len] as u16;
            next_code[len] = next_code[len] + 1;
        }
        proof {
            assert forall|l: int| 1 <= l <= max_length implies #[trigger] next_code@[l] == first_code(lens, l as nat) + count_len(lens.take(k + 1), l as nat) by {
                lemma_count_len_take_step(lens, k as int, l as nat);
            }
        }
        k = k + 1;
    }
    Ok(())
}


// ---------------------------------------------------------------------------
// Decoding tables
// ---------------------------------------------------------------------------

/// What one lookup in a decoding table yields: the decoded symbol and the
/// number of bits of its code.
#[derive(Clone, Copy, Debug, Default, PartialEq, Eq, Structural)]
pub struct DecodeResult {
    pub symbol: u16,
    pub bits_used: u8,
}

/// The entry of a table slot that no code reaches.
pub open spec fn empty_entry() -> DecodeResult {
    DecodeResult { symbol: 0, bits_used: 0 }
}

/// How many bits of the stream index a table built from `lengths`.
pub open spec fn table_bits(lengths: Seq<u8>) -> nat {
    if lengths.len() == 0 {
        1
    } else {
        max_len(lengths)
    }
}

/// The code of symbol `i`, read from the stream (least-significant bit
/// first), forms the low bits of `state`.
pub open spec fn code_matches(lengths: Seq<u8>, i: int, state: nat) -> bool {
    lengths[i] != 0 && state % pow2(lengths[i] as nat) == bit_reverse(
        canonical_code(lengths, i),
        lengths[i] as nat,
    )
}

/// Slot `state` of the table, looking at the first `k` symbols: the last of
/// them whose code matches, or the empty entry when none does.
pub open spec fn table_entry(lengths: Seq<u8>, state: nat, k: nat) -> DecodeResult
    decreases k,
{
    if k == 0 {
        empty_entry()
    } else if code_matches(lengths, k - 1, state) {
        DecodeResult { symbol: (k - 1) as u16, bits_used: lengths[k - 1] }
    } else {
        table_entry(lengths, state, (k - 1) as nat)
    }
}

/// The table built from `lengths`: one slot per value of `table_bits` bits.
pub open spec fn decode_table(lengths: Seq<u8>) -> Seq<DecodeResult> {
    Seq::new(pow2(table_bits(lengths)), |s: int| table_entry(lengths, s as nat, lengths.len()))
}

/// When `HuffmanTable::try_from` accepts the lengths.
pub open spec fn table_accepts(lengths: Seq<u8>, is_distance: bool) -> bool {
    &&& lengths.len() <= 288
    &&& (is_distance || lengths.len() > 1)
    &&& codes_valid(lengths, is_distance)
}

/// A table that maps the next bits of a stream to the symbol whose code they
/// start with.
#[derive(Debug)]
pub struct HuffmanTable {
    table: Vec<DecodeResult>,
    mask: u64,
}

impl HuffmanTable {
    /// The slots of the table.
    pub closed spec fn entries(&self) -> Seq<DecodeResult> {
        self.table@
    }

    /// The mask that selects a slot from the stream's bits.
    pub closed spec fn index_mask(&self) -> u64 {
        self.mask
    }

    /// Makes a table from its slots and the mask that indexes them.
    pub fn new(table: Vec<DecodeResult>, mask: u64) -> (r: Self)
        ensures
            r.entries() == table@,
            r.index_mask() == mask,
    {
        Self { table, mask }
    }

    /// Builds the decoding table of the canonical code with the given code
    /// lengths. Distance codes may also be empty or a single one-bit code.
    pub fn try_from(lengths: &[u8], is_distance: bool) -> (r: Result<Self, DecompressError>)
        requires
            lengths@.len() > 288 || (!is_distance && lengths@.len() <= 1) || lengths_bounded(
                lengths@,
            ),
        ensures
            r is Ok <==> table_accepts(lengths@, is_distance),
            r is Err ==> r == Err::<Self, DecompressError>(DecompressError::InvalidCodeLength),
            r matches Ok(t) ==> {
                &&& t.entries() == decode_table(lengths@)
                &&& t.index_mask() == pow2(table_bits(lengths@)) - 1
            },
    {
        let ghost lens = lengths@;
        let code_count = lengths.len();
        if code_count > 288 || (!is_distance && code_count <= 1) {
            return Err(DecompressError::InvalidCodeLength);
        }

        let mut max_length: u8 = 0;
        let mut k: usize = 0;
        while k < code_count
            invariant
                code_count == lens.len(),
                lens == lengths@,
                k <= code_count,
                max_length == max_len(lens.take(k as int)),
            decreases code_count - k,
        {
            assert(lens.take(k + 1).drop_last() =~= lens.take(k as int));
            if lengths[k] > max_length {
                max_length = lengths[k];
            }
            k = k + 1;
        }
        assert(lens.take(code_count as int) =~= lens);
        if code_count == 0 {
            max_length = 1;
        }
        proof {
            lemma_max_len(lens);
        }

        let mut codes: [u16; 288] = [0; 288];
        match get_huffman_codes(lengths, is_distance, &mut codes) {
            Ok(()) => {},
            Err(e) => {
                return Err(e);
            },
        }

        proof {
            lemma_pow2_small(max_length as nat);
            vstd::bits::lemma_usize_shl_is_mul(1, max_length as usize);
        }
        let size: usize = 1usize << max_length as usize;
        let mut table: Vec<DecodeResult> = Vec::new();
        let mut t: usize = 0;
        while t < size
            invariant
                t <= size,
                table@.len() == t,
                forall|j: int| 0 <= j < t ==> #[trigger] table@[j] == empty_entry(),
            decreases size - t,
        {
            table.push(DecodeResult { symbol: 0, bits_used: 0 });
            t = t + 1;
        }

        let mut i: usize = 0;
        while i < code_count
            invariant
                code_count == lens.len() <= 288,
                lens == lengths@,
                lengths_bounded(lens),
                codes_valid(lens, is_distance),
                max_length as nat == table_bits(lens),
                max_length <= 15,
                size == pow2(max_length as nat),
                i <= code_count,
                forall|j: int|
                    0 <= j < 288 ==> #[trigger] codes@[j] == if j < lens.len() && lens[j] != 0 {
                        canonical_code(lens, j)
                    } else {
                        0
                    },
                table@.len() == size,
                forall|s: int| 0 <= s < size ==> #[trigger] table@[s] == table_entry(lens, s as nat, i as nat),
            decreases code_count - i,
        {
            let len = lengths[i];
            if len != 0 {
                let packed = get_packed_code(codes[i], len) as usize;
                proof {
                    crate::bitrev::lemma_bit_reverse_bound(codes@[i as int] as nat, len as nat);
                    lemma_max_len(lens);
                    assert(lens[i as int] <= max_length);
                    lemma_pow2_small(len as nat);
                    lemma_pow2_small((max_length - len) as nat);
                    lemma_pow2_adds((max_length - len) as nat, len as nat);
                    vstd::bits::lemma_usize_shl_is_mul(1, len as usize);
                    vstd::bits::lemma_usize_shl_is_mul(1, (max_length - len) as usize);
                }
                let step: usize = 1usize << len as usize;
                let reps: usize = 1usize << (max_length - len) as usize;
                let mut v: usize = 0;
                while v < reps
                    invariant
                        lens == lengths@,
                        i < code_count == lens.len() <= 288,
                        len == lens[i as int],
                        len != 0,
                        step == pow2(len as nat),
                        reps == pow2((max_length - len) as nat),
                        reps * step == size,
                        packed < step,
                        packed == bit_reverse(canonical_code(lens, i as int), len as nat),
                        v <= reps,
                        table@.len() == size,
                        forall|s: int| 0 <= s < size ==> #[trigger] table@[s] == if s % (step as int) == packed && s / (step as int) < v {
                            table_entry(lens, s as nat, (i + 1) as nat)
                        } else {
                            table_entry(lens, s as nat, i as nat)
                        },
                    decreases reps - v,
                {
                    proof {
                        lemma_mul_inequality((v + 1) as int, reps as int, step as int);
                        lemma_mul_is_distributive_add_other_way(step as int, v as int, 1);
                        lemma_fundamental_div_mod_converse((v * step + packed) as int, step as int, v as int, packed as int);
                    }
                    let state = v * step + packed;
                    let ghost before = table@;
                    table[state] = DecodeResult { symbol: i as u16, bits_used: len };
                    proof {
                        assert(code_matches(lens, i as int, state as nat));
                        assert forall|s: int| 0 <= s < size implies #[trigger] table@[s] == if s % (step as int) == packed && s / (step as int) < v + 1 {
                            table_entry(lens, s as nat, (i + 1) as nat)
                        } else {
                            table_entry(lens, s as nat, i as nat)
                        } by {
                            if s != state {
                                assert(table@[s] == before[s]);
                                lemma_fundamental_div_mod(s, step as int);
                                if s % (step as int) == packed && s / (step as int) == v {
                                    lemma_mul_is_commutative(step as int, v as int);
                                }
                            }
                        }
                    }
                    v = v + 1;
                }
                proof {
                    assert forall|s: int| 0 <= s < size implies #[trigger] table@[s] == table_entry(lens, s as nat, (i + 1) as nat) by {
                        lemma_fundamental_div_mod(s, step as int);
                        lemma_mod_pos_bound(s, step as int);
                        if s / (step as int) >= reps {
                            lemma_mul_inequality(reps as int, s / (step as int), step as int);
                            lemma_mul_is_commutative(step as int, s / (step as int));
                        }
                    }
                }
            }
            i = i + 1;
        }
        proof {
            assert(table@ =~= decode_table(lens));
        }
        Ok(Self::new(table, (size - 1) as u64))
    }

    /// Looks up the slot that the low bits of `state` select.
    pub fn decode(&self, state: u64) -> (r: DecodeResult)
        requires
            (state & self.index_mask()) < self.entries().len(),
        ensures
            r == self.entries()[(state & self.index_mask()) as int],
    {
        let n = self.table.len();
        let idx = state & self.mask;
        assert(idx < n);
        self.table[idx as usize]
    }
}


/// Every slot holds a length the code can have and a symbol among the
/// first `k`, or the empty entry.
pub proof fn lemma_table_entry_bounds(lengths: Seq<u8>, s: nat, k: nat)
    requires
        lengths_bounded(lengths),
        k <= lengths.len(),
    ensures
        table_entry(lengths, s, k).bits_used <= 15,
        table_entry(lengths, s, k) == empty_entry() || table_entry(lengths, s, k).symbol < k,
    decreases k,
{
    if k > 0 {
        lemma_table_entry_bounds(lengths, s, (k - 1) as nat);
    }
}

} // verus!
