//! Arbitrary-precision natural numbers and integers.
//!
//! A [`Uint`] stands for a mathematical natural number, its view. The digits
//! it holds need not be canonical, so two values are compared by their views.

use crate::bignum;
use crate::bignum::{
    be_value, bit_length, decimal_text, decimal_value, digits_value, is_decimal, is_decimal_digit,
    signed,
};
use vstd::string::StrSliceExecFns;
use vstd::arithmetic::div_mod::{
    lemma_fundamental_div_mod, lemma_fundamental_div_mod_converse, lemma_mod_bound,
};
use vstd::arithmetic::power::pow;
use vstd::prelude::*;

verus! {

/// A natural number of any size.
#[derive(Debug)]
pub struct Uint {
    digits: Vec<u32>,
}

impl View for Uint {
    type V = nat;

    closed spec fn view(&self) -> nat {
        digits_value(self.digits@)
    }
}

impl Clone for Uint {
    fn clone(&self) -> (r: Self)
        ensures
            r@ == self@,
    {
        Uint { digits: self.digits.clone() }
    }
}

impl PartialEq for Uint {
    fn eq(&self, other: &Self) -> (r: bool) {
        !bignum::less(&self.digits, &other.digits) && !bignum::less(&other.digits, &self.digits)
    }
}

impl vstd::std_specs::cmp::PartialEqSpecImpl for Uint {
    open spec fn obeys_eq_spec() -> bool {
        true
    }

    open spec fn eq_spec(&self, other: &Self) -> bool {
        self@ == other@
    }
}

impl Uint {
    /// The number written by little-endian base 2^32 digits.
    pub fn from_digits(digits: Vec<u32>) -> (r: Uint)
        ensures
            r@ == digits_value(digits@),
    {
        Uint { digits }
    }

    /// Little-endian base 2^32 digits that write the number.
    pub fn to_u32_digits(&self) -> (r: Vec<u32>)
        ensures
            digits_value(r@) == self@,
    {
        self.digits.clone()
    }

    /// The number zero.
    pub fn zero() -> (r: Uint)
        ensures
            r@ == 0,
    {
        Uint { digits: Vec::new() }
    }

    /// The number of a machine word.
    pub fn from_u32(x: u32) -> (r: Uint)
        ensures
            r@ == x,
    {
        let mut digits: Vec<u32> = Vec::new();
        digits.push(x);
        proof {
            assert(digits@.drop_first() =~= Seq::<u32>::empty());
            assert(digits_value(digits@.drop_first()) == 0);
        }
        Uint { digits }
    }

    /// The number one.
    pub fn one() -> (r: Uint)
        ensures
            r@ == 1,
    {
        Uint::from_u32(1)
    }

    /// Whether the number is zero.
    pub fn is_zero(&self) -> (r: bool)
        ensures
            r == (self@ == 0),
    {
        let z = Uint::zero();
        !bignum::less(&z.digits, &self.digits)
    }

    /// Whether `self` is smaller than `other`.
    pub fn lt(&self, other: &Uint) -> (r: bool)
        ensures
            r == (self@ < other@),
    {
        bignum::less(&self.digits, &other.digits)
    }

    /// The sum of two numbers.
    pub fn add(&self, other: &Uint) -> (r: Uint)
        ensures
            r@ == self@ + other@,
    {
        Uint { digits: bignum::sum(&self.digits, &other.digits) }
    }

    /// The difference of two numbers, or `None` where it would be negative.
    pub fn checked_sub(&self, other: &Uint) -> (r: Option<Uint>)
        ensures
            self@ >= other@ ==> r.is_some() && r.unwrap()@ == self@ - other@,
            self@ < other@ ==> r.is_none(),
    {
        if bignum::less(&self.digits, &other.digits) {
            None
        } else {
            Some(Uint { digits: bignum::difference(&self.digits, &other.digits) })
        }
    }

    /// The product of two numbers.
    pub fn mul(&self, other: &Uint) -> (r: Uint)
        ensures
            r@ == self@ * other@,
    {
        Uint { digits: bignum::product(&self.digits, &other.digits) }
    }

    /// The remainder of `self` on division by a non-zero `m`.
    pub fn rem(&self, m: &Uint) -> (r: Uint)
        requires
            m@ > 0,
        ensures
            r@ == self@ % m@,
            r@ < m@,
    {
        let r = Uint { digits: bignum::remainder(&self.digits, &m.digits) };
        proof {
            lemma_mod_bound(self@ as int, m@ as int);
        }
        r
    }

    /// The quotient of `self` by a non-zero `m`, rounded down.
    pub fn div(&self, m: &Uint) -> (r: Uint)
        requires
            m@ > 0,
        ensures
            r@ == self@ / m@,
    {
        Uint { digits: bignum::quotient(&self.digits, &m.digits) }
    }

    /// `self` raised to `exponent`, reduced modulo a non-zero `m`.
    pub fn pow_mod(&self, exponent: &Uint, m: &Uint) -> (r: Uint)
        requires
            m@ > 0,
        ensures
            r@ == pow(self@ as int, exponent@) % (m@ as int),
            r@ < m@,
    {
        let r = Uint { digits: bignum::power_mod(&self.digits, &exponent.digits, &m.digits) };
        proof {
            lemma_mod_bound(pow(self@ as int, exponent@), m@ as int);
        }
        r
    }

    /// The inverse of `self` modulo a non-zero `m`: the `x` below `m` with
    /// `self * x` congruent to 1, or `None` where there is none.
    pub fn inv_mod(&self, m: &Uint) -> (r: Option<Uint>)
        requires
            m@ > 0,
        ensures
            match r {
                Some(x) => x@ < m@ && (self@ * x@) % m@ == 1nat % m@,
                None => forall|x: nat| x < m@ ==> #[trigger] ((self@ * x) % m@) != 1nat % m@,
            },
    {
        match bignum::inverse_mod(&self.digits, &m.digits) {
            Some(x) => Some(Uint { digits: x }),
            None => None,
        }
    }

    /// The number of bits needed to write the number.
    pub fn bits(&self) -> (r: u64)
        ensures
            r == bit_length(self@),
    {
        bignum::bits(&self.digits)
    }

    /// The number written by big-endian bytes.
    pub fn from_bytes_be(bytes: &[u8]) -> (r: Uint)
        ensures
            r@ == be_value(bytes@),
    {
        Uint { digits: bignum::from_be_bytes(bytes) }
    }

    /// The shortest big-endian bytes that write the number; one zero byte for zero.
    pub fn to_bytes_be(&self) -> (r: Vec<u8>)
        ensures
            be_value(r@) == self@,
            r@.len() >= 1,
            r@.len() == 1 || r@[0] != 0,
    {
        bignum::to_be_bytes(&self.digits)
    }

    /// The number written by a non-empty string of decimal digits; `None`
    /// for any other string.
    pub fn parse_decimal(s: &str) -> (r: Option<Uint>)
        ensures
            r.is_some() == is_decimal(s@),
            r.is_some() ==> r.unwrap()@ == decimal_value(s@),
    {
        if !all_decimal_digits(s) {
            return None;
        }
        match bignum::from_decimal(s) {
            Some(digits) => Some(Uint { digits }),
            None => None,
        }
    }

    /// The decimal digits that write the number.
    pub fn to_decimal(&self) -> (r: String)
        ensures
            r@ == decimal_text(self@),
    {
        let r = bignum::to_decimal(&self.digits);
        proof {
            bignum::lemma_decimal_text_unique(r@);
        }
        r
    }
}

/// Whether `s` is a non-empty string of decimal digits.
pub fn all_decimal_digits(s: &str) -> (r: bool)
    ensures
        r == is_decimal(s@),
{
    let n = s.unicode_len();
    if n == 0 {
        return false;
    }
    let mut i: usize = 0;
    while i < n
        invariant
            n == s@.len(),
            i <= n,
            forall|j: int| 0 <= j < i ==> is_decimal_digit(#[trigger] s@[j]),
        decreases n - i,
    {
        let c = s.get_char(i);
        if !('0' <= c && c <= '9') {
            return false;
        }
        i += 1;
    }
    true
}

/// Whether `s` writes an integer: decimal digits, with or without a minus
/// sign in front.
pub open spec fn is_signed_decimal(s: Seq<char>) -> bool {
    is_decimal(s) || (s.len() > 0 && s[0] == '-' && is_decimal(s.skip(1)))
}

/// The integer written by a string that `is_signed_decimal` accepts.
pub open spec fn signed_decimal_value(s: Seq<char>) -> int {
    if is_decimal(s) {
        decimal_value(s) as int
    } else {
        -(decimal_value(s.skip(1)) as int)
    }
}

/// An integer of any size, as a sign and a magnitude.
#[derive(Debug)]
pub struct Int {
    negative: bool,
    magnitude: Uint,
}

impl View for Int {
    type V = int;

    closed spec fn view(&self) -> int {
        signed(self.negative, self.magnitude@)
    }
}

impl Clone for Int {
    fn clone(&self) -> (r: Self)
        ensures
            r@ == self@,
    {
        Int { negative: self.negative, magnitude: self.magnitude.clone() }
    }
}

impl Int {
    /// The integer with the given sign and magnitude.
    pub fn new(negative: bool, magnitude: Uint) -> (r: Int)
        ensures
            r@ == signed(negative, magnitude@),
    {
        Int { negative, magnitude }
    }

    /// The non-negative integer equal to `n`.
    pub fn from_uint(n: Uint) -> (r: Int)
        ensures
            r@ == n@,
    {
        Int { negative: false, magnitude: n }
    }

    /// The integer written by decimal digits with an optional minus sign in
    /// front; `None` for any other string.
    pub fn parse_decimal(s: &str) -> (r: Option<Int>)
        ensures
            r.is_some() == is_signed_decimal(s@),
            r.is_some() ==> r.unwrap()@ == signed_decimal_value(s@),
    {
        let n = s.unicode_len();
        if n > 0 && s.get_char(0) == '-' {
            let rest = s.substring_char(1, n);
            assert(rest@ == s@.skip(1));
            assert(!is_decimal(s@));
            match Uint::parse_decimal(rest) {
                Some(magnitude) => Some(Int { negative: true, magnitude }),
                None => None,
            }
        } else {
            match Uint::parse_decimal(s) {
                Some(magnitude) => Some(Int { negative: false, magnitude }),
                None => None,
            }
        }
    }

    /// The difference `a - b` of two natural numbers.
    pub fn difference(a: &Uint, b: &Uint) -> (r: Int)
        ensures
            r@ == a@ - b@,
    {
        match a.checked_sub(b) {
            Some(d) => Int { negative: false, magnitude: d },
            None => Int { negative: true, magnitude: b.checked_sub(a).unwrap() },
        }
    }

    /// The negation of a natural number.
    pub fn negation(a: &Uint) -> (r: Int)
        ensures
            r@ == -(a@ as int),
    {
        Int { negative: true, magnitude: a.clone() }
    }

    /// Whether the integer is below zero.
    pub fn is_negative(&self) -> (r: bool)
        ensures
            r == (self@ < 0),
    {
        self.negative && !self.magnitude.is_zero()
    }

    /// The absolute value.
    pub fn magnitude(&self) -> (r: Uint)
        ensures
            r@ == if self@ < 0 { -self@ } else { self@ },
    {
        self.magnitude.clone()
    }

    /// The floored remainder of `self` on division by a positive `m`: the
    /// one value in `[0, m)` that differs from `self` by a multiple of `m`.
    pub fn mod_floor(&self, m: &Uint) -> (r: Uint)
        requires
            m@ > 0,
        ensures
            r@ == self@ % (m@ as int),
            r@ < m@,
    {
        let r = self.magnitude.rem(m);
        if !self.negative || r.is_zero() {
            proof {
                if self.negative {
                    // the magnitude is a multiple of m, and so is its negation
                    let a = self.magnitude@ as int;
                    lemma_fundamental_div_mod(a, m@ as int);
                    assert(-a == (-(a / (m@ as int))) * m@ + 0) by (nonlinear_arith)
                        requires
                            a == (m@ as int) * (a / (m@ as int)),
                    ;
                    lemma_fundamental_div_mod_converse(-a, m@ as int, -(a / (m@ as int)), 0);
                }
            }
            r
        } else {
            let d = m.checked_sub(&r).unwrap();
            proof {
                // -(q m + r) = (-q - 1) m + (m - r), and 0 < m - r < m
                let a = self.magnitude@ as int;
                let q = a / (m@ as int);
                lemma_fundamental_div_mod(a, m@ as int);
                assert(-a == (-q - 1) * m@ + (m@ - r@)) by (nonlinear_arith)
                    requires
                        a == (m@ as int) * q + r@,
                ;
                lemma_fundamental_div_mod_converse(-a, m@ as int, -q - 1, m@ - r@);
            }
            d
        }
    }
}

} // verus!
