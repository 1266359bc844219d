//! The meaning of digit and byte strings as natural numbers, and the trusted
//! boundary to `num-bigint`, which performs the big-integer arithmetic.
//!
//! Every function marked `external_body` here converts its digit vectors to
//! `BigUint`, makes one call, and converts the result back. Its contract is
//! believed, not proved.

use num_bigint::BigUint;
use num_integer::Integer;
use num_traits::Num;
use vstd::arithmetic::power::pow;
use vstd::prelude::*;

verus! {

/// The radix of a digit.
pub open spec fn radix() -> nat {
    0x1_0000_0000
}

/// The natural number written by little-endian base 2^32 digits.
pub open spec fn digits_value(d: Seq<u32>) -> nat
    decreases d.len(),
{
    if d.len() == 0 {
        0
    } else {
        d[0] as nat + radix() * digits_value(d.drop_first())
    }
}

/// Digits without a superfluous most significant zero; zero is the empty sequence.
pub open spec fn canonical(d: Seq<u32>) -> bool {
    d.len() == 0 || d.last() != 0
}

/// The natural number written by big-endian bytes.
pub open spec fn be_value(b: Seq<u8>) -> nat
    decreases b.len(),
{
    if b.len() == 0 {
        0
    } else {
        256 * be_value(b.drop_last()) + b.last() as nat
    }
}

/// The number of bits needed to write `n`; zero needs none.
pub open spec fn bit_length(n: nat) -> nat
    decreases n,
{
    if n == 0 {
        0
    } else {
        1 + bit_length(n / 2)
    }
}

/// The integer with the given sign and magnitude.
pub open spec fn signed(negative: bool, magnitude: nat) -> int {
    if negative {
        -(magnitude as int)
    } else {
        magnitude as int
    }
}

/// Whether `c` is one of the ten ASCII decimal digits.
pub open spec fn is_decimal_digit(c: char) -> bool {
    '0' <= c && c <= '9'
}

/// Whether `s` is a non-empty string of ASCII decimal digits.
pub open spec fn is_decimal(s: Seq<char>) -> bool {
    s.len() > 0 && forall|i: int| 0 <= i < s.len() ==> is_decimal_digit(#[trigger] s[i])
}

/// The natural number written by a string of decimal digits.
pub open spec fn decimal_value(s: Seq<char>) -> nat
    decreases s.len(),
{
    if s.len() == 0 {
        0
    } else {
        (10 * decimal_value(s.drop_last()) + (s.last() as u32 - '0' as u32)) as nat
    }
}

/// The character of a decimal digit.
pub open spec fn digit_char(d: nat) -> char {
    if d == 0 {
        '0'
    } else if d == 1 {
        '1'
    } else if d == 2 {
        '2'
    } else if d == 3 {
        '3'
    } else if d == 4 {
        '4'
    } else if d == 5 {
        '5'
    } else if d == 6 {
        '6'
    } else if d == 7 {
        '7'
    } else if d == 8 {
        '8'
    } else {
        '9'
    }
}

/// The decimal digits that write `n`, without a leading zero except for
/// zero itself.
pub open spec fn decimal_text(n: nat) -> Seq<char>
    decreases n,
{
    if n < 10 {
        seq![digit_char(n)]
    } else {
        decimal_text(n / 10).push(digit_char(n % 10))
    }
}

/// A string of decimal digits with a first digit other than zero writes a
/// number that is not zero.
pub proof fn lemma_decimal_value_positive(s: Seq<char>)
    requires
        is_decimal(s),
        s[0] != '0',
    ensures
        decimal_value(s) >= 1,
    decreases s.len(),
{
    if s.len() > 1 {
        lemma_decimal_value_positive(s.drop_last());
    }
}

/// A string of decimal digits without a superfluous leading zero is the
/// decimal text of the number that it writes.
pub proof fn lemma_decimal_text_unique(s: Seq<char>)
    requires
        is_decimal(s),
        s.len() == 1 || s[0] != '0',
    ensures
        s == decimal_text(decimal_value(s)),
    decreases s.len(),
{
    let last = s.last();
    let d = (last as u32 - '0' as u32) as nat;
    assert(is_decimal_digit(last));
    assert(digit_char(d) == last);
    let front = s.drop_last();
    if s.len() == 1 {
        assert(front.len() == 0);
        assert(decimal_value(front) == 0);
        assert(decimal_value(s) == d);
        assert(s =~= seq![last]);
    } else {
        assert(is_decimal(front));
        lemma_decimal_value_positive(front);
        lemma_decimal_text_unique(front);
        let v = decimal_value(s);
        assert(v == 10 * decimal_value(front) + d);
        assert(v / 10 == decimal_value(front));
        assert(v % 10 == d);
        assert(s =~= front.push(last));
    }
}

/// `BigUint` addition (`Add::add`): the result is the sum, in canonical digits.
#[verifier::external_body]
pub(crate) fn sum(a: &Vec<u32>, b: &Vec<u32>) -> (r: Vec<u32>)
    ensures
        canonical(r@),
        digits_value(r@) == digits_value(a@) + digits_value(b@),
{
    (BigUint::from_slice(a) + BigUint::from_slice(b)).to_u32_digits()
}

/// `BigUint` subtraction (`Sub::sub`), which panics when the result would be
/// negative: on the remaining inputs the result is the difference.
#[verifier::external_body]
pub(crate) fn difference(a: &Vec<u32>, b: &Vec<u32>) -> (r: Vec<u32>)
    requires
        digits_value(a@) >= digits_value(b@),
    ensures
        canonical(r@),
        digits_value(r@) == digits_value(a@) - digits_value(b@),
{
    (BigUint::from_slice(a) - BigUint::from_slice(b)).to_u32_digits()
}

/// `BigUint` multiplication (`Mul::mul`): the result is the product.
#[verifier::external_body]
pub(crate) fn product(a: &Vec<u32>, b: &Vec<u32>) -> (r: Vec<u32>)
    ensures
        canonical(r@),
        digits_value(r@) == digits_value(a@) * digits_value(b@),
{
    (BigUint::from_slice(a) * BigUint::from_slice(b)).to_u32_digits()
}

/// `Integer::div_floor` on `BigUint`, which panics on a zero divisor:
/// otherwise the result is the quotient rounded down.
#[verifier::external_body]
pub(crate) fn quotient(a: &Vec<u32>, m: &Vec<u32>) -> (r: Vec<u32>)
    requires
        digits_value(m@) > 0,
    ensures
        canonical(r@),
        digits_value(r@) == digits_value(a@) / digits_value(m@),
{
    BigUint::from_slice(a).div_floor(&BigUint::from_slice(m)).to_u32_digits()
}

/// `Integer::mod_floor` on `BigUint`, which panics on a zero modulus:
/// otherwise the result is the remainder of the division.
#[verifier::external_body]
pub(crate) fn remainder(a: &Vec<u32>, m: &Vec<u32>) -> (r: Vec<u32>)
    requires
        digits_value(m@) > 0,
    ensures
        canonical(r@),
        digits_value(r@) == digits_value(a@) % digits_value(m@),
{
    BigUint::from_slice(a).mod_floor(&BigUint::from_slice(m)).to_u32_digits()
}

/// `BigUint::modpow`, which panics on a zero modulus: otherwise the result is
/// `base ^ exponent` reduced modulo `m`.
#[verifier::external_body]
pub(crate) fn power_mod(base: &Vec<u32>, exponent: &Vec<u32>, m: &Vec<u32>) -> (r: Vec<u32>)
    requires
        digits_value(m@) > 0,
    ensures
        canonical(r@),
        digits_value(r@) == pow(digits_value(base@) as int, digits_value(exponent@)) % (
        digits_value(m@) as int),
{
    BigUint::from_slice(base).modpow(&BigUint::from_slice(exponent), &BigUint::from_slice(
        m,
    )).to_u32_digits()
}

/// `BigUint::modinv`, which panics on a zero modulus: otherwise it returns
/// the `x` in `[0, m)` with `a * x` congruent to 1 modulo `m`, or `None` when
/// no such `x` exists.
#[verifier::external_body]
pub(crate) fn inverse_mod(a: &Vec<u32>, m: &Vec<u32>) -> (r: Option<Vec<u32>>)
    requires
        digits_value(m@) > 0,
    ensures
        match r {
            Some(x) => canonical(x@) && digits_value(x@) < digits_value(m@) && (digits_value(a@)
                * digits_value(x@)) % digits_value(m@) == 1nat % digits_value(m@),
            None => forall|x: nat|
                x < digits_value(m@) ==> #[trigger] ((digits_value(a@) * x) % digits_value(m@))
                    != 1nat % digits_value(m@),
        },
{
    match BigUint::from_slice(a).modinv(&BigUint::from_slice(m)) {
        Some(x) => Some(x.to_u32_digits()),
        None => None,
    }
}

/// `BigUint`'s `PartialOrd::lt`: whether the first number is the smaller.
#[verifier::external_body]
pub(crate) fn less(a: &Vec<u32>, b: &Vec<u32>) -> (r: bool)
    ensures
        r == (digits_value(a@) < digits_value(b@)),
{
    BigUint::from_slice(a) < BigUint::from_slice(b)
}

/// `BigUint::bits`: the fewest bits that express the number.
#[verifier::external_body]
pub(crate) fn bits(a: &Vec<u32>) -> (r: u64)
    ensures
        r == bit_length(digits_value(a@)),
{
    BigUint::from_slice(a).bits()
}

/// `BigUint::from_bytes_be`: the number written by big-endian bytes.
#[verifier::external_body]
pub(crate) fn from_be_bytes(bytes: &[u8]) -> (r: Vec<u32>)
    ensures
        canonical(r@),
        digits_value(r@) == be_value(bytes@),
{
    BigUint::from_bytes_be(bytes).to_u32_digits()
}

/// `BigUint::to_bytes_be`: the shortest big-endian byte string that writes
/// the number, which for zero is the single byte 0.
#[verifier::external_body]
pub(crate) fn to_be_bytes(a: &Vec<u32>) -> (r: Vec<u8>)
    ensures
        be_value(r@) == digits_value(a@),
        r@.len() >= 1,
        r@.len() == 1 || r@[0] != 0,
{
    BigUint::from_slice(a).to_bytes_be()
}

/// `Num::from_str_radix` on `BigUint` with radix 10: a non-empty string of
/// decimal digits is accepted and gives the number it writes. Nothing is
/// claimed of other strings.
#[verifier::external_body]
pub(crate) fn from_decimal(s: &str) -> (r: Option<Vec<u32>>)
    ensures
        is_decimal(s@) ==> r.is_some() && canonical(r.unwrap()@) && digits_value(r.unwrap()@)
            == decimal_value(s@),
{
    match BigUint::from_str_radix(s, 10) {
        Ok(n) => Some(n.to_u32_digits()),
        Err(_) => None,
    }
}

/// `BigUint::to_str_radix` with radix 10: the decimal digits that write the
/// number, without a leading zero except for zero itself.
#[verifier::external_body]
pub(crate) fn to_decimal(a: &Vec<u32>) -> (r: String)
    ensures
        is_decimal(r@),
        decimal_value(r@) == digits_value(a@),
        r@.len() == 1 || r@[0] != '0',
{
    BigUint::from_slice(a).to_str_radix(10)
}

} // verus!
