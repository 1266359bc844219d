//! The bits of a natural number, and how they lie in its digits.

use crate::bignum::{bit_length, digits_value};
use vstd::arithmetic::div_mod::{
    lemma_div_denominator, lemma_div_multiples_vanish_fancy, lemma_hoist_over_denominator,
};
use vstd::arithmetic::power2::{
    lemma2_to64, lemma2_to64_rest, lemma_pow2_adds, lemma_pow2_pos, lemma_pow2_unfold, pow2,
};
use vstd::bits::lemma_u32_shr_is_div;
use vstd::prelude::*;

verus! {

/// Bit `i` of `n`, where bit 0 is the least significant.
pub open spec fn bit(n: nat, i: nat) -> bool {
    (n / pow2(i)) % 2 == 1
}

/// The bits of `n` from the least significant to the most significant one
/// that is set: `bit_length(n)` of them, none for zero.
pub open spec fn bits_lsb_first(n: nat) -> Seq<bool> {
    Seq::new(bit_length(n), |j: int| bit(n, j as nat))
}

/// The bits of `n` from the most significant one that is set down to the
/// least significant.
pub open spec fn bits_msb_first(n: nat) -> Seq<bool> {
    Seq::new(bit_length(n), |j: int| bit(n, (bit_length(n) - 1 - j) as nat))
}

/// The number whose bits, least significant first, are `s`.
pub open spec fn value_lsb_first(s: Seq<bool>) -> nat
    decreases s.len(),
{
    if s.len() == 0 {
        0
    } else {
        (if s[0] { 1nat } else { 0nat }) + 2 * value_lsb_first(s.drop_first())
    }
}

/// The number whose bits, most significant first, are `s`.
pub open spec fn value_msb_first(s: Seq<bool>) -> nat
    decreases s.len(),
{
    if s.len() == 0 {
        0
    } else {
        2 * value_msb_first(s.drop_last()) + (if s.last() { 1nat } else { 0nat })
    }
}

/// The bits that a loop over a cursor has yet to see: the one in hand, then
/// those that the cursor holds.
pub open spec fn pending(next: Option<bool>, remaining: Seq<bool>) -> Seq<bool> {
    match next {
        Some(b) => seq![b] + remaining,
        None => Seq::empty(),
    }
}

/// Bit `i + 1` of `n` is bit `i` of `n / 2`.
pub proof fn lemma_bit_of_half(n: nat, i: nat)
    ensures
        bit(n, i + 1) == bit(n / 2, i),
{
    lemma_pow2_pos(i);
    lemma_pow2_unfold(i + 1);
    lemma_div_denominator(n as int, 2, pow2(i) as int);
}

/// Read from the least significant bit upwards, the bits of a number give
/// the number back.
pub proof fn lemma_value_of_bits_lsb_first(n: nat)
    ensures
        value_lsb_first(bits_lsb_first(n)) == n,
    decreases n,
{
    if n != 0 {
        let s = bits_lsb_first(n);
        assert(s.drop_first() =~= bits_lsb_first(n / 2)) by {
            assert forall|j: int| 0 <= j < bit_length(n / 2) implies bit(n, (j + 1) as nat)
                == #[trigger] bit(n / 2, j as nat) by {
                lemma_bit_of_half(n, j as nat);
            }
        }
        lemma_value_of_bits_lsb_first(n / 2);
        lemma2_to64();
        assert(s[0] == bit(n, 0));
    }
}

/// Read from the most significant bit downwards, the bits of a number give
/// the number back.
pub proof fn lemma_value_of_bits_msb_first(n: nat)
    ensures
        value_msb_first(bits_msb_first(n)) == n,
    decreases n,
{
    if n != 0 {
        let s = bits_msb_first(n);
        let len = bit_length(n);
        assert(s.drop_last() =~= bits_msb_first(n / 2)) by {
            assert forall|j: int| 0 <= j < bit_length(n / 2) implies bit(
                n,
                (len - 1 - j) as nat,
            ) == #[trigger] bit(n / 2, (bit_length(n / 2) - 1 - j) as nat) by {
                lemma_bit_of_half(n, (len - 2 - j) as nat);
            }
        }
        lemma_value_of_bits_msb_first(n / 2);
        lemma2_to64();
        assert(s.last() == bit(n, 0));
    }
}

/// The bits from the top are the bits from the bottom in reverse.
pub proof fn lemma_bits_msb_is_reverse(n: nat)
    ensures
        bits_msb_first(n) == bits_lsb_first(n).reverse(),
{
    assert(bits_msb_first(n) =~= bits_lsb_first(n).reverse());
}

/// A number below `2^k` has at most `k` bits.
pub proof fn lemma_bit_length_bound(n: nat, k: nat)
    requires
        n < pow2(k),
    ensures
        bit_length(n) <= k,
    decreases k,
{
    if n != 0 {
        lemma2_to64();
        if k > 0 {
            lemma_pow2_unfold(k);
            lemma_bit_length_bound(n / 2, (k - 1) as nat);
        }
    }
}

/// A number is below the power of two that its bit length names.
pub proof fn lemma_below_pow2_of_bit_length(n: nat)
    ensures
        n < pow2(bit_length(n)),
    decreases n,
{
    lemma2_to64();
    if n != 0 {
        lemma_below_pow2_of_bit_length(n / 2);
        lemma_pow2_unfold(bit_length(n));
    }
}

/// A number of `len` digits is below `2^(32 * len)`.
pub proof fn lemma_digits_value_bound(d: Seq<u32>)
    ensures
        digits_value(d) < pow2(32 * d.len()),
    decreases d.len(),
{
    lemma2_to64();
    lemma2_to64_rest();
    if d.len() > 0 {
        let rest = d.drop_first();
        lemma_digits_value_bound(rest);
        lemma_pow2_adds(32, 32 * rest.len());
        assert(0x1_0000_0000 * digits_value(rest) <= 0x1_0000_0000 * (pow2(32 * rest.len()) - 1));
    }
}

/// The bits of a digit vector all lie within its digits.
pub proof fn lemma_bit_length_of_digits(d: Seq<u32>)
    ensures
        bit_length(digits_value(d)) <= 32 * d.len(),
{
    lemma_digits_value_bound(d);
    lemma_bit_length_bound(digits_value(d), 32 * d.len());
}

/// Bit `s` of a digit, read by shifting and masking.
pub proof fn lemma_bit_of_digit(x: u32, s: u32)
    requires
        s < 32,
    ensures
        bit(x as nat, s as nat) == (((x >> s) & 1) != 0),
{
    lemma_u32_shr_is_div(x, s);
    let y = x >> s;
    assert(((y & 1) != 0) == (y % 2 == 1)) by (bit_vector);
}

/// Bit `i` of a number is bit `i % 32` of its digit `i / 32`.
pub proof fn lemma_bit_of_digits(d: Seq<u32>, i: nat)
    requires
        i < 32 * d.len(),
    ensures
        bit(digits_value(d), i) == bit(d[(i / 32) as int] as nat, i % 32),
    decreases d.len(),
{
    lemma2_to64();
    lemma2_to64_rest();
    let rest = d.drop_first();
    let v = digits_value(d);
    let w = digits_value(rest);
    let d0 = d[0] as int;
    if i < 32 {
        let lo = pow2(i) as int;
        let hi = pow2((31 - i) as nat) as int;
        lemma_pow2_pos(i);
        lemma_pow2_adds(i, (32 - i) as nat);
        lemma_pow2_unfold((32 - i) as nat);
        assert(0x1_0000_0000 == lo * (2 * hi));
        let q = 2 * (hi * w);
        assert(0x1_0000_0000 * w == q * lo) by (nonlinear_arith)
            requires
                0x1_0000_0000 == lo * (2 * hi),
                q == 2 * (hi * w),
        ;
        lemma_hoist_over_denominator(d0, q, lo as nat);
        assert(v / (lo as nat) == d0 / lo + q);
    } else {
        let j = (i - 32) as nat;
        lemma_pow2_pos(j);
        lemma_pow2_adds(32, j);
        lemma_div_multiples_vanish_fancy(w as int, d0, 0x1_0000_0000);
        lemma_div_denominator(v as int, 0x1_0000_0000, pow2(j) as int);
        assert(v / pow2(i) == w / pow2(j));
        lemma_bit_of_digits(rest, j);
        assert(rest[(j / 32) as int] == d[(i / 32) as int]);
    }
}

} // verus!
