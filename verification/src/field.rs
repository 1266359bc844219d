//! Arithmetic modulo a prime `p`.
//!
//! An element of the field is a [`Uint`] below the modulus. Every operation
//! accepts any natural number and reduces: its result is stated over the
//! integers, modulo `p`.

use crate::bignum::bit_length;
use crate::uint::{is_signed_decimal, signed_decimal_value, Int, Uint};
use vstd::arithmetic::div_mod::{
    lemma_add_mod_noop, lemma_fundamental_div_mod, lemma_mod_add_multiples_vanish, lemma_mod_bound,
    lemma_mod_multiples_vanish, lemma_mod_twice, lemma_mul_mod_noop_general, lemma_small_mod,
    lemma_sub_mod_noop,
};
use vstd::arithmetic::power::pow;
use vstd::prelude::*;

verus! {

/// `a + b` in the field of modulus `p`.
pub open spec fn fadd(p: nat, a: nat, b: nat) -> nat {
    (a + b) % p
}

/// `a - b` in the field of modulus `p`.
pub open spec fn fsub(p: nat, a: nat, b: nat) -> nat {
    ((a - b) % (p as int)) as nat
}

/// `a * b` in the field of modulus `p`.
pub open spec fn fmul(p: nat, a: nat, b: nat) -> nat {
    (a * b) % p
}

/// `-a` in the field of modulus `p`.
pub open spec fn fneg(p: nat, a: nat) -> nat {
    ((-(a as int)) % (p as int)) as nat
}

/// `a` raised to `e` in the field of modulus `p`.
pub open spec fn fpow(p: nat, a: nat, e: nat) -> nat {
    (pow(a as int, e) % (p as int)) as nat
}

/// Whether `x` is the element whose product with `a` is 1.
pub open spec fn is_inverse(p: nat, a: nat, x: nat) -> bool {
    x < p && (a * x) % p == 1
}

/// Whether `a` has a multiplicative inverse modulo `p`.
pub open spec fn invertible(p: nat, a: nat) -> bool {
    exists|x: nat| is_inverse(p, a, x)
}

/// The multiplicative inverse of an invertible `a`.
pub open spec fn finv(p: nat, a: nat) -> nat {
    choose|x: nat| is_inverse(p, a, x)
}

/// The canonical sign of `a`: its parity as a number below `p`.
pub open spec fn sgn0(p: nat, a: nat) -> nat {
    (a % p) % 2
}

/// The number of bytes needed to write any number of `bit_length(n)` bits.
pub open spec fn byte_length(n: nat) -> nat {
    (bit_length(n) + 7) / 8
}

/// Products of congruent factors are congruent.
pub proof fn lemma_mul_congruent(p: int, a: int, a2: int, b: int, b2: int)
    requires
        p > 0,
        a % p == a2 % p,
        b % p == b2 % p,
    ensures
        (a * b) % p == (a2 * b2) % p,
{
    lemma_mul_mod_noop_general(a, b, p);
    lemma_mul_mod_noop_general(a2, b2, p);
}

/// Sums of congruent terms are congruent.
pub proof fn lemma_add_congruent(p: int, a: int, a2: int, b: int, b2: int)
    requires
        p > 0,
        a % p == a2 % p,
        b % p == b2 % p,
    ensures
        (a + b) % p == (a2 + b2) % p,
{
    lemma_add_mod_noop(a, b, p);
    lemma_add_mod_noop(a2, b2, p);
}

/// Differences of congruent terms are congruent.
pub proof fn lemma_sub_congruent(p: int, a: int, a2: int, b: int, b2: int)
    requires
        p > 0,
        a % p == a2 % p,
        b % p == b2 % p,
    ensures
        (a - b) % p == (a2 - b2) % p,
{
    lemma_sub_mod_noop(a, b, p);
    lemma_sub_mod_noop(a2, b2, p);
}

/// A difference vanishes modulo `p` exactly when its terms are congruent.
pub proof fn lemma_sub_is_zero(p: int, a: int, b: int)
    requires
        p > 0,
    ensures
        ((a - b) % p == 0) == (a % p == b % p),
{
    lemma_sub_mod_noop(a, b, p);
    lemma_mod_bound(a, p);
    lemma_mod_bound(b, p);
    let d = a % p - b % p;
    if d > 0 {
        lemma_small_mod(d as nat, p as nat);
    } else if d < 0 {
        lemma_mod_add_multiples_vanish(d, p);
        lemma_small_mod((p + d) as nat, p as nat);
    } else {
        lemma_small_mod(0, p as nat);
    }
}

/// A field product is congruent to the product of anything congruent to
/// its factors.
pub proof fn lemma_fmul_tracks(p: nat, a: nat, b: nat, ea: int, eb: int)
    requires
        p > 0,
        a % p == ea % (p as int),
        b % p == eb % (p as int),
    ensures
        fmul(p, a, b) % p == (ea * eb) % (p as int),
        fmul(p, a, b) < p,
{
    lemma_mul_congruent(p as int, a as int, ea, b as int, eb);
    lemma_mod_twice((a * b) as int, p as int);
    lemma_mod_bound((a * b) as int, p as int);
}

/// A field sum is congruent to the sum of anything congruent to its terms.
pub proof fn lemma_fadd_tracks(p: nat, a: nat, b: nat, ea: int, eb: int)
    requires
        p > 0,
        a % p == ea % (p as int),
        b % p == eb % (p as int),
    ensures
        fadd(p, a, b) % p == (ea + eb) % (p as int),
        fadd(p, a, b) < p,
{
    lemma_add_congruent(p as int, a as int, ea, b as int, eb);
    lemma_mod_twice((a + b) as int, p as int);
    lemma_mod_bound((a + b) as int, p as int);
}

/// A field difference is congruent to the difference of anything congruent
/// to its terms.
pub proof fn lemma_fsub_tracks(p: nat, a: nat, b: nat, ea: int, eb: int)
    requires
        p > 0,
        a % p == ea % (p as int),
        b % p == eb % (p as int),
    ensures
        fsub(p, a, b) % p == (ea - eb) % (p as int),
        fsub(p, a, b) < p,
{
    lemma_sub_congruent(p as int, a as int, ea, b as int, eb);
    lemma_mod_twice(a - b, p as int);
    lemma_mod_bound(a - b, p as int);
}

/// An element has at most one inverse.
pub proof fn lemma_inverse_unique(p: nat, a: nat, x: nat, y: nat)
    requires
        p >= 2,
        is_inverse(p, a, x),
        is_inverse(p, a, y),
    ensures
        x == y,
{
    let m = p as int;
    let (ai, xi, yi) = (a as int, x as int, y as int);
    lemma_small_mod(1, p);
    lemma_small_mod(x, p);
    lemma_small_mod(y, p);
    // x = x * (a * y) = (x * a) * y = y, modulo p
    lemma_mul_congruent(m, xi, xi, ai * yi, 1);
    assert(xi * ai == ai * xi) by (nonlinear_arith);
    lemma_mul_congruent(m, xi * ai, 1, yi, yi);
    assert(xi * (ai * yi) == (xi * ai) * yi) by (nonlinear_arith);
}

/// Whether the field element `v` is the class of the integer `e`.
pub open spec fn tracks(p: nat, v: nat, e: int) -> bool {
    v as int == e % (p as int)
}

/// A field element is its own class.
pub proof fn lemma_track_element(p: nat, v: nat)
    requires
        v < p,
    ensures
        tracks(p, v, v as int),
{
    lemma_small_mod(v, p);
}

/// The product of two classes is the class of the product.
pub proof fn lemma_track_mul(p: nat, a: nat, b: nat, ea: int, eb: int)
    requires
        p > 0,
        tracks(p, a, ea),
        tracks(p, b, eb),
    ensures
        tracks(p, fmul(p, a, b), ea * eb),
{
    lemma_mod_twice(ea, p as int);
    lemma_mod_twice(eb, p as int);
    lemma_fmul_tracks(p, a, b, ea, eb);
    lemma_small_mod(fmul(p, a, b), p);
}

/// The sum of two classes is the class of the sum.
pub proof fn lemma_track_add(p: nat, a: nat, b: nat, ea: int, eb: int)
    requires
        p > 0,
        tracks(p, a, ea),
        tracks(p, b, eb),
    ensures
        tracks(p, fadd(p, a, b), ea + eb),
{
    lemma_mod_twice(ea, p as int);
    lemma_mod_twice(eb, p as int);
    lemma_fadd_tracks(p, a, b, ea, eb);
    lemma_small_mod(fadd(p, a, b), p);
}

/// The difference of two classes is the class of the difference.
pub proof fn lemma_track_sub(p: nat, a: nat, b: nat, ea: int, eb: int)
    requires
        p > 0,
        tracks(p, a, ea),
        tracks(p, b, eb),
    ensures
        tracks(p, fsub(p, a, b), ea - eb),
{
    lemma_mod_twice(ea, p as int);
    lemma_mod_twice(eb, p as int);
    lemma_fsub_tracks(p, a, b, ea, eb);
    lemma_small_mod(fsub(p, a, b), p);
}

/// The element 1 is its own inverse.
pub proof fn lemma_one_invertible(p: nat)
    requires
        p >= 2,
    ensures
        invertible(p, 1),
{
    lemma_small_mod(1, p);
    assert(is_inverse(p, 1, 1));
}

/// Whether `p` is a prime number.
pub open spec fn is_prime(p: nat) -> bool {
    p >= 2 && forall|d: nat| 1 < d < p ==> #[trigger] (p % d) != 0
}

/// Modulo a prime, every element but zero has an inverse.
pub proof fn lemma_prime_invertible(p: nat, a: nat)
    requires
        is_prime(p),
        0 < a < p,
    ensures
        invertible(p, a),
    decreases a,
{
    let m = p as int;
    if a == 1 {
        lemma_small_mod(1, p);
        assert(is_inverse(p, a, 1));
    } else {
        let q = (p / a) as int;
        let r = p % a;
        lemma_fundamental_div_mod(m, a as int);
        lemma_mod_bound(m, a as int);
        assert(r != 0);
        lemma_prime_invertible(p, r);
        let u = finv(p, r) as int;
        let k = -(q * u);
        let x = k % m;
        lemma_mod_bound(k, m);
        assert((a * x) % m == 1) by {
            lemma_mul_mod_noop_general(a as int, k, m);
            assert(a * k == m * (-u) + r * u) by (nonlinear_arith)
                requires
                    m == a * q + r,
                    k == -(q * u),
            ;
            lemma_mod_multiples_vanish(-u, r * u, m);
        }
        assert(is_inverse(p, a, x as nat));
    }
}

/// Modulo a prime, a square has no square roots but an element and its
/// negation.
pub proof fn lemma_square_roots(p: nat, r: nat, y: nat)
    requires
        is_prime(p),
        r < p,
        y < p,
        fmul(p, r, r) == fmul(p, y, y),
    ensures
        r == y || r == fneg(p, y),
{
    let m = p as int;
    let (ri, yi) = (r as int, y as int);
    let d = (ri - yi) % m;
    lemma_mod_bound(ri - yi, m);
    lemma_small_mod(r, p);
    lemma_small_mod(y, p);
    if d == 0 {
        lemma_sub_is_zero(m, ri, yi);
    } else {
        lemma_prime_invertible(p, d as nat);
        let u = finv(p, d as nat) as int;
        let t = ri + yi;
        // t * d is congruent to r^2 - y^2, which vanishes
        assert((t * d) % m == 0) by {
            lemma_mod_twice(ri - yi, m);
            lemma_mul_congruent(m, t, t, d, ri - yi);
            assert(t * (ri - yi) == ri * ri - yi * yi) by (nonlinear_arith)
                requires
                    t == ri + yi,
            ;
            lemma_sub_is_zero(m, ri * ri, yi * yi);
        }
        // so t = t * (d * u) = (t * d) * u vanishes too
        assert(t % m == 0) by {
            lemma_small_mod(1, p);
            lemma_small_mod(0, p);
            lemma_mul_congruent(m, t, t, d * u, 1);
            lemma_mul_congruent(m, t * d, 0, u, u);
            assert(t * (d * u) == (t * d) * u) by (nonlinear_arith);
        }
        lemma_sub_is_zero(m, ri, -yi);
        lemma_mod_bound(-yi, m);
    }
}

/// Scaling the three variables of a monomial of degree 3 scales it by the cube.
pub proof fn lemma_scaled_monomial(k: int, c: int, u: int, v: int, w: int)
    ensures
        c * (k * u) * (k * v) * (k * w) == (k * k * k) * (c * u * v * w),
{
    let kk = k * k;
    assert(c * (k * u) * (k * v) == kk * (c * u * v)) by (nonlinear_arith)
        requires
            kk == k * k,
    ;
    let t = c * u * v;
    assert((kk * t) * (k * w) == (kk * k) * (t * w)) by (nonlinear_arith);
}

/// Modulo an odd number, an element other than zero and its negation have
/// different signs, and negating twice gives the element back.
pub proof fn lemma_sign_of_negation(p: nat, y: nat)
    requires
        p % 2 == 1,
        y < p,
    ensures
        y != 0 ==> sgn0(p, fneg(p, y)) != sgn0(p, y),
        y == 0 ==> fneg(p, y) == 0,
        fneg(p, fneg(p, y)) == y,
        fneg(p, y) < p,
{
    let m = p as int;
    lemma_small_mod(y, p);
    if y == 0 {
        lemma_small_mod(0, p);
    } else {
        lemma_mod_add_multiples_vanish(-(y as int), m);
        lemma_small_mod((p - y) as nat, p);
        assert(fneg(p, y) == p - y);
        lemma_mod_add_multiples_vanish(-((p - y) as int), m);
        assert(fneg(p, (p - y) as nat) == y);
    }
}

/// A prime field, given by its modulus.
#[derive(Debug)]
pub struct Fp {
    p: Uint,
}

impl Clone for Fp {
    fn clone(&self) -> (r: Self)
        ensures
            r.modulus() == self.modulus(),
    {
        proof {
            use_type_invariant(self);
        }
        Fp { p: self.p.clone() }
    }
}

impl Fp {
    /// The modulus of the field.
    pub closed spec fn modulus(&self) -> nat {
        self.p@
    }

    /// Every field has a modulus of at least 2.
    #[verifier::type_invariant]
    pub open spec fn wf(self) -> bool {
        self.modulus() >= 2
    }

    /// The field of modulus `p`, which must be at least 2. Whether `p` is
    /// prime is not tested.
    pub fn new(p: Uint) -> (r: Option<Fp>)
        ensures
            r.is_some() == (p@ >= 2),
            r.is_some() ==> r.unwrap().modulus() == p@,
    {
        if p.lt(&Uint::from_u32(2)) {
            None
        } else {
            Some(Fp { p })
        }
    }

    /// The modulus of the field.
    pub fn get_modulus(&self) -> (r: Uint)
        ensures
            r@ == self.modulus(),
            r@ >= 2,
    {
        proof {
            use_type_invariant(self);
        }
        self.p.clone()
    }

    /// The number of bytes that write any element of the field.
    pub fn size_bytes(&self) -> (r: u64)
        ensures
            r == byte_length(self.modulus()),
    {
        let bits = self.p.bits();
        bits / 8 + if bits % 8 == 0 {
            0
        } else {
            1
        }
    }

    /// Whether `a` is an element of the field: a number below the modulus.
    pub fn contains(&self, a: &Uint) -> (r: bool)
        ensures
            r == (a@ < self.modulus()),
    {
        a.lt(&self.p)
    }

    /// The element 0.
    pub fn zero(&self) -> (r: Uint)
        ensures
            r@ == 0,
    {
        Uint::zero()
    }

    /// The element 1.
    pub fn one(&self) -> (r: Uint)
        ensures
            r@ == 1,
    {
        Uint::one()
    }

    /// The element that the integer `k` reduces to.
    pub fn elt(&self, k: &Int) -> (r: Uint)
        ensures
            r@ == k@ % (self.modulus() as int),
            r@ < self.modulus(),
    {
        proof {
            use_type_invariant(self);
        }
        k.mod_floor(&self.p)
    }

    /// The element written by decimal digits with an optional minus sign in
    /// front, reduced; `None` for any other string.
    pub fn from_decimal(&self, s: &str) -> (r: Option<Uint>)
        ensures
            r.is_some() == is_signed_decimal(s@),
            r.is_some() ==> r.unwrap()@ == signed_decimal_value(s@) % (self.modulus() as int),
            r.is_some() ==> r.unwrap()@ < self.modulus(),
    {
        match Int::parse_decimal(s) {
            Some(k) => Some(self.elt(&k)),
            None => None,
        }
    }

    /// The element that the natural number `a` reduces to.
    pub fn reduce(&self, a: &Uint) -> (r: Uint)
        ensures
            r@ == a@ % self.modulus(),
            r@ < self.modulus(),
    {
        proof {
            use_type_invariant(self);
        }
        a.rem(&self.p)
    }

    /// The sum of two elements.
    pub fn add(&self, a: &Uint, b: &Uint) -> (r: Uint)
        ensures
            r@ == fadd(self.modulus(), a@, b@),
            r@ < self.modulus(),
    {
        proof {
            use_type_invariant(self);
        }
        a.add(b).rem(&self.p)
    }

    /// The difference of two elements.
    pub fn sub(&self, a: &Uint, b: &Uint) -> (r: Uint)
        ensures
            r@ == fsub(self.modulus(), a@, b@),
            r@ < self.modulus(),
    {
        proof {
            use_type_invariant(self);
        }
        Int::difference(a, b).mod_floor(&self.p)
    }

    /// The product of two elements.
    pub fn mul(&self, a: &Uint, b: &Uint) -> (r: Uint)
        ensures
            r@ == fmul(self.modulus(), a@, b@),
            r@ < self.modulus(),
    {
        proof {
            use_type_invariant(self);
        }
        a.mul(b).rem(&self.p)
    }

    /// The negation of an element.
    pub fn neg(&self, a: &Uint) -> (r: Uint)
        ensures
            r@ == fneg(self.modulus(), a@),
            r@ < self.modulus(),
    {
        proof {
            use_type_invariant(self);
        }
        Int::negation(a).mod_floor(&self.p)
    }

    /// An element raised to a power.
    pub fn pow(&self, a: &Uint, e: &Uint) -> (r: Uint)
        ensures
            r@ == fpow(self.modulus(), a@, e@),
            r@ < self.modulus(),
    {
        proof {
            use_type_invariant(self);
        }
        a.pow_mod(e, &self.p)
    }

    /// The multiplicative inverse of an element, or `None` where it has none.
    pub fn inverse(&self, a: &Uint) -> (r: Option<Uint>)
        ensures
            r.is_some() == invertible(self.modulus(), a@),
            r.is_some() ==> r.unwrap()@ == finv(self.modulus(), a@),
    {
        proof {
            use_type_invariant(self);
            lemma_small_mod(1, self.modulus());
        }
        let r = a.inv_mod(&self.p);
        proof {
            let p = self.modulus();
            if r.is_some() {
                let x = r.unwrap()@;
                assert(is_inverse(p, a@, x));
                lemma_inverse_unique(p, a@, x, finv(p, a@));
            } else {
                assert forall|x: nat| !is_inverse(p, a@, x) by {
                    if x < p {
                        assert((a@ * x) % p != 1nat % p);
                    }
                }
            }
        }
        r
    }

    /// The quotient `a / b`, or `None` where `b` has no inverse.
    pub fn div(&self, a: &Uint, b: &Uint) -> (r: Option<Uint>)
        ensures
            r.is_some() == invertible(self.modulus(), b@),
            r.is_some() ==> r.unwrap()@ == fmul(self.modulus(), a@, finv(self.modulus(), b@)),
            r.is_some() ==> r.unwrap()@ < self.modulus(),
    {
        match self.inverse(b) {
            Some(i) => Some(self.mul(a, &i)),
            None => None,
        }
    }

    /// The canonical sign of an element, 0 or 1: its parity once reduced.
    pub fn sgn0(&self, a: &Uint) -> (r: u8)
        ensures
            r == sgn0(self.modulus(), a@),
            r <= 1,
    {
        proof {
            use_type_invariant(self);
        }
        let parity = a.rem(&self.p).rem(&Uint::from_u32(2));
        if parity.is_zero() {
            0
        } else {
            1
        }
    }
}

} // verus!
