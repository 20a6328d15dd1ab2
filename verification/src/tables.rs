//! The constant tables of DEFLATE (RFC 1951, section 3.2.5 and 3.2.6).
use vstd::prelude::*;
use vstd::arithmetic::power2::*;
use crate::huffman::{
    count_len, first_code, is_complete, lemma_count_len_take_step, lengths_bounded,
    max_len, table_accepts, codes_valid,
};

verus! {

/// The order in which the code lengths of the code length alphabet are sent.
pub const CL_CODE_LENGTH_ORDER: [usize; 19] = [
    16, 17, 18, 0, 8, 7, 9, 6, 10, 5, 11, 4, 12, 3, 13, 2, 14, 1, 15,
];

/// The smallest match length of each length symbol 257..=285.
pub const LENGTH_BASE: [usize; 29] = [
    3, 4, 5, 6, 7, 8, 9, 10, 11, 13, 15, 17, 19, 23, 27, 31, 35, 43, 51, 59, 67, 83, 99, 115, 131,
    163, 195, 227, 258,
];

/// The number of extra bits that follow each length symbol.
pub const LENGTH_EXTRA_BITS: [usize; 29] = [
    0, 0, 0, 0, 0, 0, 0, 0, 1, 1, 1, 1, 2, 2, 2, 2, 3, 3, 3, 3, 4, 4, 4, 4, 5, 5, 5, 5, 0,
];

/// The smallest distance of each distance symbol 0..=29.
pub const DISTANCE_BASE: [usize; 30] = [
    1, 2, 3, 4, 5, 7, 9, 13, 17, 25, 33, 49, 65, 97, 129, 193, 257, 385, 513, 769, 1025, 1537,
    2049, 3073, 4097, 6145, 8193, 12289, 16385, 24577,
];

/// The number of extra bits that follow each distance symbol.
pub const DISTANCE_EXTRA_BITS: [usize; 30] = [
    0, 0, 0, 0, 1, 1, 2, 2, 3, 3, 4, 4, 5, 5, 6, 6, 7, 7, 8, 8, 9, 9, 10, 10, 11, 11, 12, 12, 13,
    13,
];

/// The code lengths of the fixed literal/length code.
pub open spec fn fixed_litlen_lengths() -> Seq<u8> {
    Seq::new(
        288,
        |i: int|
            if i < 144 {
                8u8
            } else if i < 256 {
                9u8
            } else if i < 280 {
                7u8
            } else {
                8u8
            },
    )
}

/// The code lengths of the fixed distance code.
pub open spec fn fixed_distance_lengths() -> Seq<u8> {
    Seq::new(32, |i: int| 5u8)
}

/// The code lengths of the fixed literal/length code.
pub fn fixed_litlen_code_lengths() -> (r: Vec<u8>)
    ensures
        r@ == fixed_litlen_lengths(),
{
    let mut r: Vec<u8> = Vec::new();
    let mut i: usize = 0;
    while i < 288
        invariant
            i <= 288,
            r@ =~= fixed_litlen_lengths().take(i as int),
        decreases 288 - i,
    {
        let len: u8 = if i < 144 {
            8
        } else if i < 256 {
            9
        } else if i < 280 {
            7
        } else {
            8
        };
        r.push(len);
        i = i + 1;
    }
    r
}

/// The code lengths of the fixed distance code.
pub fn fixed_distance_code_lengths() -> (r: Vec<u8>)
    ensures
        r@ == fixed_distance_lengths(),
{
    let mut r: Vec<u8> = Vec::new();
    let mut i: usize = 0;
    while i < 32
        invariant
            i <= 32,
            r@ =~= fixed_distance_lengths().take(i as int),
        decreases 32 - i,
    {
        r.push(5);
        i = i + 1;
    }
    r
}

/// Over a stretch of equal lengths, counting advances by the stretch's size
/// or not at all, and the maximum takes in that length.
proof fn lemma_constant_run(s: Seq<u8>, a: int, b: int, c: u8, l: nat)
    requires
        0 <= a <= b <= s.len(),
        forall|i: int| a <= i < b ==> s[i] == c,
    ensures
        count_len(s.take(b), l) == count_len(s.take(a), l) + if c == l { (b - a) as nat } else { 0nat },
        a < b ==> max_len(s.take(b)) == if max_len(s.take(a)) < c { c as nat } else { max_len(s.take(a)) },
    decreases b - a,
{
    if a < b {
        lemma_constant_run(s, a, b - 1, c, l);
        lemma_count_len_take_step(s, b - 1, l);
        assert(s.take(b).drop_last() =~= s.take(b - 1));
    }
}

/// The fixed literal/length code is complete.
pub proof fn lemma_fixed_litlen_valid()
    ensures
        table_accepts(fixed_litlen_lengths(), false),
        lengths_bounded(fixed_litlen_lengths()),
{
    let s = fixed_litlen_lengths();
    assert(s.take(0) =~= Seq::<u8>::empty());
    assert(s.take(288) =~= s);
    assert forall|l: nat| #![trigger count_len(s, l)]
        count_len(s, l) == (if l == 8 { 152nat } else if l == 9 { 112nat } else if l == 7 { 24nat } else { 0nat })
    by {
        lemma_constant_run(s, 0, 144, 8, l);
        lemma_constant_run(s, 144, 256, 9, l);
        lemma_constant_run(s, 256, 280, 7, l);
        lemma_constant_run(s, 280, 288, 8, l);
    }
    lemma_constant_run(s, 0, 144, 8, 0);
    lemma_constant_run(s, 144, 256, 9, 0);
    lemma_constant_run(s, 256, 280, 7, 0);
    lemma_constant_run(s, 280, 288, 8, 0);
    assert(max_len(s) == 9);
    reveal_with_fuel(first_code, 10);
    assert(count_len(s, 1) == 0);
    assert(count_len(s, 2) == 0);
    assert(count_len(s, 3) == 0);
    assert(count_len(s, 4) == 0);
    assert(count_len(s, 5) == 0);
    assert(count_len(s, 6) == 0);
    assert(count_len(s, 7) == 24);
    assert(count_len(s, 8) == 152);
    assert(count_len(s, 9) == 112);
    assert(first_code(s, 9) == 400);
    lemma2_to64();
    assert(is_complete(s));
    assert(codes_valid(s, false));
}

/// The fixed distance code is complete.
pub proof fn lemma_fixed_distance_valid()
    ensures
        table_accepts(fixed_distance_lengths(), true),
        lengths_bounded(fixed_distance_lengths()),
{
    let s = fixed_distance_lengths();
    assert(s.take(0) =~= Seq::<u8>::empty());
    assert(s.take(32) =~= s);
    assert forall|l: nat| #![trigger count_len(s, l)] count_len(s, l) == (if l == 5 { 32nat } else { 0nat }) by {
        lemma_constant_run(s, 0, 32, 5, l);
    }
    lemma_constant_run(s, 0, 32, 5, 0);
    assert(max_len(s) == 5);
    reveal_with_fuel(first_code, 6);
    assert(count_len(s, 1) == 0);
    assert(count_len(s, 2) == 0);
    assert(count_len(s, 3) == 0);
    assert(count_len(s, 4) == 0);
    assert(first_code(s, 5) == 0);
    assert(count_len(s, 5) == 32);
    lemma2_to64();
    assert(is_complete(s));
}

/// The ranges of the length and distance symbols tile their values without
/// gap or overlap: lengths from 3 and distances from 1 up, each symbol
/// starting right after the last value of the previous one (its base plus
/// 2^extra - 1); the last length symbol stands for 258 alone.
pub proof fn lemma_symbol_ranges_tile()
    ensures
        LENGTH_BASE[0] == 3,
        DISTANCE_BASE[0] == 1,
        forall|i: int| 0 <= i < 27 ==> #[trigger] LENGTH_BASE[i + 1] == LENGTH_BASE[i] + pow2(
            LENGTH_EXTRA_BITS[i] as nat,
        ),
        LENGTH_BASE[28] == 258 && LENGTH_EXTRA_BITS[28] == 0,
        LENGTH_BASE[27] + pow2(LENGTH_EXTRA_BITS[27] as nat) - 1 == 258,
        forall|i: int| 0 <= i < 29 ==> #[trigger] DISTANCE_BASE[i + 1] == DISTANCE_BASE[i] + pow2(
            DISTANCE_EXTRA_BITS[i] as nat,
        ),
        DISTANCE_BASE[29] + pow2(DISTANCE_EXTRA_BITS[29] as nat) - 1 == 32768,
{
    lemma2_to64();
    assert forall|i: int| 0 <= i < 27 implies #[trigger] LENGTH_BASE[i + 1] == LENGTH_BASE[i] + pow2(
        LENGTH_EXTRA_BITS[i] as nat,
    ) by {
        assert(0 <= i < 27);
    }
    assert forall|i: int| 0 <= i < 29 implies #[trigger] DISTANCE_BASE[i + 1] == DISTANCE_BASE[i] + pow2(
        DISTANCE_EXTRA_BITS[i] as nat,
    ) by {
        assert(0 <= i < 29);
    }
}

} // verus!
