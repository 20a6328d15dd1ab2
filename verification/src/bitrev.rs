//! Bit reversal: the bridge between Huffman codes, which DEFLATE writes
//! most-significant bit first, and the bit stream, which is read
//! least-significant bit first.
use vstd::prelude::*;
use vstd::arithmetic::power2::*;
use vstd::arithmetic::div_mod::*;
use vstd::arithmetic::mul::*;

verus! {

/// The low `k` bits of `x` in reverse order: bit `j` of `x` (for `j < k`)
/// becomes bit `k - 1 - j` of the result.
pub open spec fn bit_reverse(x: nat, k: nat) -> nat
    decreases k,
{
    if k == 0 {
        0
    } else {
        (x % 2) * pow2((k - 1) as nat) + bit_reverse(x / 2, (k - 1) as nat)
    }
}

/// A reversed `k`-bit value fits in `k` bits.
pub proof fn lemma_bit_reverse_bound(x: nat, k: nat)
    ensures
        bit_reverse(x, k) < pow2(k),
    decreases k,
{
    if k == 0 {
        lemma2_to64();
    } else {
        lemma_bit_reverse_bound(x / 2, (k - 1) as nat);
        lemma_pow2_unfold(k);
        assert((x % 2) * pow2((k - 1) as nat) <= pow2((k - 1) as nat)) by {
            lemma_mul_inequality((x % 2) as int, 1, pow2((k - 1) as nat) as int);
        }
    }
}

/// Reversal can be computed by shifting bits in from the low end:
/// reversing `k + 1` bits doubles the `k`-bit reversal and appends bit `k`.
pub proof fn lemma_bit_reverse_step(x: nat, k: nat)
    ensures
        bit_reverse(x, k + 1) == 2 * bit_reverse(x, k) + (x / pow2(k)) % 2,
    decreases k,
{
    lemma_pow2_pos(k);
    if k == 0 {
        lemma2_to64();
        assert(bit_reverse(x / 2, 0) == 0);
        assert(x / 1 == x);
    } else {
        let km1 = (k - 1) as nat;
        lemma_bit_reverse_step(x / 2, km1);
        lemma_pow2_unfold(k);
        lemma_pow2_pos(km1);
        lemma_div_denominator(x as int, 2, pow2(km1) as int);
        assert((x / 2) / pow2(km1) == x / pow2(k));
        assert((x % 2) * pow2(k) == 2 * ((x % 2) * pow2(km1))) by {
            lemma_mul_is_associative((x % 2) as int, 2, pow2(km1) as int);
            lemma_mul_is_commutative((x % 2) as int, 2);
            lemma_mul_is_associative(2, (x % 2) as int, pow2(km1) as int);
        }
    }
}

/// The code as the stream carries it: the low `length` bits of `code`, in
/// reverse order.
pub fn get_packed_code(code: u16, length: u8) -> (r: u16)
    requires
        length <= 16,
    ensures
        r as nat == bit_reverse(code as nat, length as nat),
{
    let mut r: u16 = 0;
    let mut x: u16 = code;
    let mut k: u8 = 0;
    proof {
        lemma2_to64();
    }
    while k < length
        invariant
            k <= length <= 16,
            r as nat == bit_reverse(code as nat, k as nat),
            r < pow2(k as nat),
            x as nat == code as nat / pow2(k as nat),
        decreases length - k,
    {
        proof {
            lemma_bit_reverse_step(code as nat, k as nat);
            lemma_pow2_unfold((k + 1) as nat);
            lemma_pow2_pos(k as nat);
            lemma_div_denominator(code as int, pow2(k as nat) as int, 2);
            assert(pow2((k + 1) as nat) <= 0x10000) by {
                lemma2_to64();
                if k + 1 < 16 {
                    lemma_pow2_strictly_increases((k + 1) as nat, 16);
                }
            }
        }
        r = r * 2 + x % 2;
        x = x / 2;
        k = k + 1;
    }
    r
}


/// Reversing `a + b` bits puts the reversed low `a` bits on top of the
/// reversal of the next `b` bits.
pub proof fn lemma_bit_reverse_split(x: nat, a: nat, b: nat)
    ensures
        bit_reverse(x, a + b) == bit_reverse(x, a) * pow2(b) + bit_reverse(x / pow2(a), b),
    decreases a,
{
    if a == 0 {
        lemma2_to64();
        assert(x / 1 == x);
        assert(a + b == b);
        assert(bit_reverse(x, a) == 0);
        assert(bit_reverse(x, a + b) == bit_reverse(x / pow2(a), b));
    } else {
        let am1 = (a - 1) as nat;
        let bit = x % 2;
        let rest = bit_reverse(x / 2, am1);
        lemma_bit_reverse_split(x / 2, am1, b);
        assert((a + b - 1) as nat == am1 + b);
        assert(bit_reverse(x, a + b) == bit * pow2(am1 + b) + bit_reverse(x / 2, am1 + b));
        assert(bit_reverse(x, a) == bit * pow2(am1) + rest);
        lemma_pow2_adds(am1, b);
        lemma_pow2_unfold(a);
        lemma_pow2_pos(am1);
        lemma_div_denominator(x as int, 2, pow2(am1) as int);
        assert((x / 2) / pow2(am1) == x / pow2(a));
        lemma_mul_is_distributive_add_other_way(pow2(b) as int, (bit * pow2(am1)) as int, rest as int);
        lemma_mul_is_associative(bit as int, pow2(am1) as int, pow2(b) as int);
        assert(bit * pow2(am1 + b) == (bit * pow2(am1)) * pow2(b));
        assert(bit_reverse(x, a) * pow2(b) == (bit * pow2(am1)) * pow2(b) + rest * pow2(b));
        assert(bit_reverse(x / 2, am1 + b) == rest * pow2(b) + bit_reverse(x / pow2(a), b));
    }
}

/// Reversing `k` bits only looks at the low `k` bits.
pub proof fn lemma_bit_reverse_low_bits(x: nat, k: nat)
    ensures
        bit_reverse(x, k) == bit_reverse(x % pow2(k), k),
    decreases k,
{
    if k > 0 {
        let km1 = (k - 1) as nat;
        let r = x % pow2(k);
        lemma_pow2_unfold(k);
        lemma_pow2_pos(km1);
        lemma_mod_mod(x as int, 2, pow2(km1) as int);
        assert(r % 2 == x % 2);
        lemma_mod_breakdown(x as int, 2, pow2(km1) as int);
        let q = (x / 2) % pow2(km1);
        lemma_mod_pos_bound((x / 2) as int, pow2(km1) as int);
        assert(r / 2 == q) by {
            lemma_fundamental_div_mod_converse(r as int, 2, q as int, (x % 2) as int);
        }
        lemma_bit_reverse_low_bits(x / 2, km1);
        assert(bit_reverse(x, k) == (x % 2) * pow2(km1) + bit_reverse(x / 2, km1));
        assert(bit_reverse(r, k) == (r % 2) * pow2(km1) + bit_reverse(r / 2, km1));
        assert(bit_reverse(x / 2, km1) == bit_reverse(q, km1));
        assert(bit_reverse(r / 2, km1) == bit_reverse(q, km1));
        assert(bit_reverse(x, k) == bit_reverse(r, k));
    } else {
        lemma_pow2_pos(k);
    }
}

/// Reversal is its own inverse on `k`-bit values.
pub proof fn lemma_bit_reverse_involution(c: nat, k: nat)
    requires
        c < pow2(k),
    ensures
        bit_reverse(bit_reverse(c, k), k) == c,
    decreases k,
{
    if k == 0 {
        lemma2_to64();
    } else {
        let km1 = (k - 1) as nat;
        let y = bit_reverse(c, k);
        let t = bit_reverse(c / 2, km1);
        lemma_pow2_unfold(k);
        lemma_pow2_pos(km1);
        lemma_bit_reverse_bound(c / 2, km1);
        assert(c / 2 < pow2(km1)) by {
            lemma_div_is_ordered(c as int, (pow2(k) - 1) as int, 2);
        }
        lemma_bit_reverse_involution(c / 2, km1);
        assert(km1 + 1 == k);
        lemma_bit_reverse_split(y, km1, 1);
        assert(y == (c % 2) * pow2(km1) + t);
        lemma_fundamental_div_mod_converse(y as int, pow2(km1) as int, (c % 2) as int, t as int);
        lemma_mul_is_commutative((c % 2) as int, pow2(km1) as int);
        lemma_bit_reverse_low_bits(y, km1);
        lemma2_to64();
        let top = y / pow2(km1);
        assert(bit_reverse(top, 1) == (top % 2) * pow2(0) + bit_reverse(top / 2, 0));
        assert(bit_reverse(top, 1) == top % 2);
    }
}

/// The low `l` bits of `x` spell `c` backwards exactly when the reversal of
/// `x`'s low `m >= l` bits starts with `c`.
pub proof fn lemma_reversed_prefix(x: nat, c: nat, l: nat, m: nat)
    requires
        l <= m,
        c < pow2(l),
    ensures
        (x % pow2(l) == bit_reverse(c, l)) <==> (bit_reverse(x, m) / pow2((m - l) as nat) == c),
{
    let d = (m - l) as nat;
    assert(l + d == m);
    lemma_bit_reverse_split(x, l, d);
    lemma_pow2_pos(d);
    lemma_pow2_pos(l);
    lemma_bit_reverse_bound(x / pow2(l), d);
    lemma_fundamental_div_mod_converse(
        bit_reverse(x, m) as int,
        pow2(d) as int,
        bit_reverse(x, l) as int,
        bit_reverse(x / pow2(l), d) as int,
    );
    lemma_mul_is_commutative(bit_reverse(x, l) as int, pow2(d) as int);
    lemma_bit_reverse_low_bits(x, l);
    lemma_mod_pos_bound(x as int, pow2(l) as int);
    if x % pow2(l) == bit_reverse(c, l) {
        lemma_bit_reverse_involution(c, l);
    }
    if bit_reverse(x, l) == c {
        lemma_bit_reverse_involution(x % pow2(l), l);
    }
}

} // verus!
