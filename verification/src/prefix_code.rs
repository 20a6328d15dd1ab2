//! A complete canonical code is a prefix code that covers every bit pattern:
//! whatever bits come next in the stream, exactly one symbol's code begins
//! them. This is what makes table decoding correct.
use vstd::prelude::*;
use vstd::arithmetic::power2::*;
use vstd::arithmetic::div_mod::*;
use vstd::arithmetic::mul::*;
use crate::bitrev::{
    bit_reverse, lemma_bit_reverse_bound, lemma_reversed_prefix,
};
use vstd::bits::lemma_u64_low_bits_mask_is_mod;
use crate::huffman::{
    bl_count, canonical_code, code_matches, count_len, decode_table, first_code,
    is_complete, is_degenerate_distance_code, lengths_bounded, lemma_complete_codes_fit,
    lemma_count_len_take_le, lemma_count_len_take_step, lemma_max_len, lemma_pow2_small, max_len,
    table_accepts, table_bits, table_entry, DecodeResult, HuffmanTable,
};

verus! {

/// Where the codes of length `l` start, scaled to the longest length: the
/// codes of one length occupy the interval from `code_base` to
/// `code_end`, and the intervals of successive lengths follow each other.
pub open spec fn code_base(lengths: Seq<u8>, l: nat) -> nat {
    first_code(lengths, l) * pow2((max_len(lengths) - l) as nat)
}

/// Where the codes of length `l` end, scaled to the longest length.
pub open spec fn code_end(lengths: Seq<u8>, l: nat) -> nat {
    code_base(lengths, l) + bl_count(lengths, l) * pow2((max_len(lengths) - l) as nat)
}

proof fn lemma_end_is_next_base(lengths: Seq<u8>, l: nat)
    requires
        1 <= l < max_len(lengths),
    ensures
        code_end(lengths, l) == code_base(lengths, l + 1),
{
    let m = max_len(lengths);
    let d = (m - l - 1) as nat;
    assert((m - l) as nat == d + 1);
    lemma_pow2_unfold(d + 1);
    let s = first_code(lengths, l) + bl_count(lengths, l);
    assert(first_code(lengths, l + 1) == 2 * s);
    lemma_mul_is_associative(2, s as int, pow2(d) as int);
    lemma_mul_is_commutative(2, s as int);
    lemma_mul_is_associative(s as int, 2, pow2(d) as int);
    lemma_mul_is_distributive_add_other_way(
        pow2(d + 1) as int,
        first_code(lengths, l) as int,
        bl_count(lengths, l) as int,
    );
}

proof fn lemma_end_le_base(lengths: Seq<u8>, l: nat, l2: nat)
    requires
        1 <= l < l2 <= max_len(lengths),
    ensures
        code_end(lengths, l) <= code_base(lengths, l2),
    decreases l2 - l,
{
    lemma_end_is_next_base(lengths, l);
    if l + 1 < l2 {
        lemma_end_le_base(lengths, l + 1, l2);
        lemma_mul_nonnegative(
            bl_count(lengths, l + 1) as int,
            pow2((max_len(lengths) - (l + 1)) as nat) as int,
        );
    }
}

/// Every scaled position below 2^max lies in the interval of some length.
proof fn lemma_locate(lengths: Seq<u8>, x: nat, l: nat) -> (found: nat)
    requires
        is_complete(lengths),
        1 <= l <= max_len(lengths),
        code_base(lengths, l) <= x < pow2(max_len(lengths)),
    ensures
        l <= found <= max_len(lengths),
        code_base(lengths, found) <= x < code_end(lengths, found),
    decreases max_len(lengths) - l,
{
    let m = max_len(lengths);
    if x < code_end(lengths, l) {
        l
    } else {
        if l == m {
            lemma2_to64();
            assert(pow2(0) == 1);
            assert((m - l) as nat == 0);
            assert(code_base(lengths, m) == first_code(lengths, m));
            lemma_mul_basics(bl_count(lengths, m) as int);
            lemma_mul_basics(first_code(lengths, m) as int);
            assert(bl_count(lengths, m) * pow2(0) == bl_count(lengths, m));
            assert(code_end(lengths, m) == first_code(lengths, m) + bl_count(lengths, m));
        }
        lemma_end_is_next_base(lengths, l);
        lemma_locate(lengths, x, l + 1)
    }
}

/// For each rank below the number of symbols of length `l`, there is the
/// symbol of that length with that rank.
proof fn lemma_rank_exists(lengths: Seq<u8>, l: nat, r: nat) -> (i: int)
    requires
        r < count_len(lengths, l),
    ensures
        0 <= i < lengths.len(),
        lengths[i] == l,
        count_len(lengths.take(i), l) == r,
    decreases lengths.len(),
{
    let init = lengths.drop_last();
    if r < count_len(init, l) {
        let i = lemma_rank_exists(init, l, r);
        assert(lengths.take(i) =~= init.take(i));
        i
    } else {
        assert(lengths.take(lengths.len() - 1) =~= init);
        lengths.len() - 1
    }
}

/// Symbols of one length have distinct ranks.
proof fn lemma_rank_strict(lengths: Seq<u8>, i: int, j: int)
    requires
        0 <= i < j < lengths.len(),
        lengths[i] == lengths[j],
    ensures
        count_len(lengths.take(i), lengths[i] as nat) < count_len(lengths.take(j), lengths[i] as nat),
{
    let l = lengths[i] as nat;
    lemma_count_len_take_step(lengths, i, l);
    let pre = lengths.take(j);
    assert(pre.take(i + 1) =~= lengths.take(i + 1));
    lemma_count_len_take_le(pre, i + 1, l);
}

/// The code of a symbol fits in its length.
pub proof fn lemma_canonical_code_fits(lengths: Seq<u8>, i: int)
    requires
        is_complete(lengths),
        0 <= i < lengths.len(),
        lengths[i] != 0,
    ensures
        canonical_code(lengths, i) < pow2(lengths[i] as nat),
        count_len(lengths.take(i), lengths[i] as nat) < bl_count(lengths, lengths[i] as nat),
{
    let l = lengths[i] as nat;
    lemma_max_len(lengths);
    lemma_count_len_take_step(lengths, i, l);
    lemma_count_len_take_le(lengths, i + 1, l);
    lemma_complete_codes_fit(lengths, l);
}

/// A matching code puts the reversed stream bits in that length's interval.
proof fn lemma_match_in_interval(lengths: Seq<u8>, i: int, s: nat)
    requires
        lengths_bounded(lengths),
        is_complete(lengths),
        0 <= i < lengths.len(),
        code_matches(lengths, i, s),
    ensures
        ({
            let x = bit_reverse(s, max_len(lengths));
            let l = lengths[i] as nat;
            &&& 1 <= l <= max_len(lengths)
            &&& x / pow2((max_len(lengths) - l) as nat) == canonical_code(lengths, i)
            &&& code_base(lengths, l) <= x < code_end(lengths, l)
        }),
{
    let m = max_len(lengths);
    let l = lengths[i] as nat;
    let x = bit_reverse(s, m);
    lemma_max_len(lengths);
    lemma_canonical_code_fits(lengths, i);
    let c = canonical_code(lengths, i);
    lemma_reversed_prefix(s, c, l, m);
    let p = pow2((m - l) as nat);
    lemma_pow2_pos((m - l) as nat);
    lemma_fundamental_div_mod(x as int, p as int);
    lemma_mod_pos_bound(x as int, p as int);
    let r = count_len(lengths.take(i), l);
    assert(c == first_code(lengths, l) + r);
    lemma_mul_is_commutative(p as int, c as int);
    lemma_mul_is_distributive_add_other_way(p as int, first_code(lengths, l) as int, r as int);
    lemma_mul_inequality((r + 1) as int, bl_count(lengths, l) as int, p as int);
    lemma_mul_is_distributive_add_other_way(p as int, r as int, 1);
}

/// In a complete code, for every pattern of the longest length's bits, exactly
/// one symbol's code matches its low bits.
pub proof fn lemma_complete_code_unique_match(lengths: Seq<u8>, s: nat)
    requires
        lengths_bounded(lengths),
        is_complete(lengths),
    ensures
        exists|i: int| 0 <= i < lengths.len() && code_matches(lengths, i, s),
        forall|i: int, j: int|
            0 <= i < lengths.len() && 0 <= j < lengths.len() && code_matches(lengths, i, s)
                && code_matches(lengths, j, s) ==> i == j,
{
    let m = max_len(lengths);
    lemma_max_len(lengths);
    lemma2_to64();
    assert(m >= 1) by {
        if m == 0 {
            assert(first_code(lengths, 0) == 0);
        }
    }
    let x = bit_reverse(s, m);
    lemma_bit_reverse_bound(s, m);
    assert(first_code(lengths, 0) == 0);
    assert(first_code(lengths, 1) == 0);
    assert(code_base(lengths, 1) == 0);
    // Existence.
    let l = lemma_locate(lengths, x, 1);
    let p = pow2((m - l) as nat);
    lemma_pow2_pos((m - l) as nat);
    let y = (x - code_base(lengths, l)) as nat;
    let r = y / p;
    assert(r < bl_count(lengths, l)) by {
        if r >= bl_count(lengths, l) {
            lemma_fundamental_div_mod(y as int, p as int);
            lemma_mod_pos_bound(y as int, p as int);
            lemma_mul_inequality(bl_count(lengths, l) as int, r as int, p as int);
            lemma_mul_is_commutative(p as int, r as int);
        }
    }
    let i = lemma_rank_exists(lengths, l, r);
    assert(code_matches(lengths, i, s)) by {
        let c = canonical_code(lengths, i);
        assert(c == first_code(lengths, l) + r);
        lemma_fundamental_div_mod(y as int, p as int);
        lemma_mod_pos_bound(y as int, p as int);
        lemma_mul_is_distributive_add_other_way(p as int, first_code(lengths, l) as int, r as int);
        lemma_mul_is_commutative(p as int, first_code(lengths, l) as int);
        lemma_mul_is_commutative(p as int, r as int);
        lemma_fundamental_div_mod_converse(x as int, p as int, c as int, (y % p) as int);
        lemma_canonical_code_fits(lengths, i);
        lemma_reversed_prefix(s, c, l, m);
    }
    // Uniqueness.
    assert forall|i1: int, j1: int|
        0 <= i1 < lengths.len() && 0 <= j1 < lengths.len() && code_matches(lengths, i1, s)
            && code_matches(lengths, j1, s) implies i1 == j1 by {
        lemma_match_in_interval(lengths, i1, s);
        lemma_match_in_interval(lengths, j1, s);
        let li = lengths[i1] as nat;
        let lj = lengths[j1] as nat;
        if li < lj {
            lemma_end_le_base(lengths, li, lj);
        } else if lj < li {
            lemma_end_le_base(lengths, lj, li);
        } else {
            if i1 < j1 {
                lemma_rank_strict(lengths, i1, j1);
            } else if j1 < i1 {
                lemma_rank_strict(lengths, j1, i1);
            }
        }
    }
}

/// The table slot of a pattern is the entry of the one symbol whose code
/// matches it, when that symbol is the only match among the first `k`.
proof fn lemma_table_entry_unique(lengths: Seq<u8>, s: nat, k: nat, i: int)
    requires
        0 <= i < k <= lengths.len(),
        code_matches(lengths, i, s),
        forall|j: int| 0 <= j < lengths.len() && code_matches(lengths, j, s) ==> j == i,
    ensures
        table_entry(lengths, s, k) == (DecodeResult { symbol: i as u16, bits_used: lengths[i] }),
    decreases k,
{
    if k - 1 != i {
        lemma_table_entry_unique(lengths, s, (k - 1) as nat, i);
    }
}

/// Decoding with the table of a complete code: the slot selected by the
/// next bits holds the one symbol whose code those bits begin with, and
/// that code is at least one bit long.
pub proof fn lemma_decode_complete_code(lengths: Seq<u8>, s: nat)
    requires
        lengths_bounded(lengths),
        is_complete(lengths),
        lengths.len() <= 288,
    ensures
        ({
            let e = table_entry(lengths, s, lengths.len());
            &&& 0 <= e.symbol < lengths.len()
            &&& e.bits_used >= 1
            &&& e.bits_used == lengths[e.symbol as int]
            &&& code_matches(lengths, e.symbol as int, s)
            &&& forall|j: int|
                0 <= j < lengths.len() && code_matches(lengths, j, s) ==> j == e.symbol
        }),
{
    lemma_complete_code_unique_match(lengths, s);
    let i = choose|i: int| 0 <= i < lengths.len() && code_matches(lengths, i, s);
    lemma_table_entry_unique(lengths, s, lengths.len(), i);
}

/// In a code with a single one-bit code, at most one symbol's code matches.
proof fn lemma_degenerate_unique_match(lengths: Seq<u8>, s: nat, i: int, j: int)
    requires
        is_degenerate_distance_code(lengths),
        0 <= i < j < lengths.len(),
    ensures
        !(code_matches(lengths, i, s) && code_matches(lengths, j, s)),
{
    if code_matches(lengths, i, s) && code_matches(lengths, j, s) {
        lemma_max_len(lengths);
        lemma_rank_strict(lengths, i, j);
        lemma_count_len_take_step(lengths, j, 1);
        lemma_count_len_take_le(lengths, j + 1, 1);
    }
}

/// Decoding gives back what was encoded: in the table that `try_from`
/// builds from `lengths`, any bits that begin with symbol `i`'s code decode
/// to `i`, and the bits used are the length of that code.
pub proof fn lemma_decode_symbol_code(
    t: HuffmanTable,
    lengths: Seq<u8>,
    is_distance: bool,
    i: int,
    state: u64,
)
    requires
        table_accepts(lengths, is_distance),
        lengths_bounded(lengths),
        t.entries() == decode_table(lengths),
        t.index_mask() == pow2(table_bits(lengths)) - 1,
        0 <= i < lengths.len(),
        code_matches(lengths, i, state as nat),
    ensures
        (state & t.index_mask()) < t.entries().len(),
        t.entries()[(state & t.index_mask()) as int] == (DecodeResult {
            symbol: i as u16,
            bits_used: lengths[i],
        }),
{
    let m = table_bits(lengths);
    let li = lengths[i] as nat;
    lemma_max_len(lengths);
    assert(1 <= li <= m <= 15);
    lemma_pow2_small(m);
    lemma_pow2_pos(li);
    lemma_pow2_pos((m - li) as nat);
    lemma_pow2_adds(li, (m - li) as nat);
    assert(li + (m - li) as nat == m);
    lemma_u64_low_bits_mask_is_mod(state, m);
    let s = state as nat % pow2(m);
    assert((state & t.index_mask()) as nat == s);
    lemma_mod_pos_bound(state as int, pow2(m) as int);
    lemma_mod_mod(state as int, pow2(li) as int, pow2((m - li) as nat) as int);
    assert(code_matches(lengths, i, s));
    assert forall|j: int| 0 <= j < lengths.len() && code_matches(lengths, j, s) implies j == i by {
        if is_complete(lengths) {
            lemma_complete_code_unique_match(lengths, s);
        } else {
            assert(is_distance && is_degenerate_distance_code(lengths));
            if j < i {
                lemma_degenerate_unique_match(lengths, s, j, i);
            } else if i < j {
                lemma_degenerate_unique_match(lengths, s, i, j);
            }
        }
    }
    lemma_table_entry_unique(lengths, s, lengths.len(), i);
}

} // verus!
