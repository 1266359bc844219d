//! What every curve model offers, whatever its equation.

use crate::error::Error;
use crate::field::Fp;
use crate::montgomery;
use crate::scalar::Scalar;
use crate::uint::{Int, Uint};
use crate::weierstrass;
use vstd::prelude::*;

verus! {

/// An elliptic curve over a prime field with a generator of a group of
/// known order.
pub trait EllipticCurve {
    /// The points of the curve.
    type Point;

    /// The modulus of the field of the curve.
    spec fn field_modulus(&self) -> nat;

    /// The order of the group that the generator spans.
    spec fn group_order(&self) -> nat;

    /// The cofactor.
    spec fn group_cofactor(&self) -> nat;

    /// Whether the coordinates of `p` satisfy the equation of this curve.
    spec fn holds(&self, p: &Self::Point) -> bool;

    /// Whether `p` is the neutral element.
    spec fn is_neutral(&self, p: &Self::Point) -> bool;

    /// The scalar of `k` in the group of the curve: `k` reduced modulo the order.
    fn new_scalar(&self, k: Int) -> (s: Scalar)
        ensures
            s.order() == self.group_order(),
            s.value() == k@ % (self.group_order() as int),
    ;

    /// The neutral element, which satisfies the equation.
    fn identity(&self) -> (p: Self::Point)
        ensures
            self.holds(&p),
            self.is_neutral(&p),
    ;

    /// Whether the coordinates of `p` satisfy the equation of this curve.
    fn is_on_curve(&self, p: &Self::Point) -> (r: bool)
        ensures
            r == self.holds(p),
    ;

    /// The order of the group that the generator spans.
    fn get_order(&self) -> (r: Uint)
        ensures
            r@ == self.group_order(),
    ;

    /// The cofactor.
    fn get_cofactor(&self) -> (h: Int)
        ensures
            h@ == self.group_cofactor(),
    ;

    /// The field of the curve.
    fn get_field(&self) -> (f: Fp)
        ensures
            f.modulus() == self.field_modulus(),
    ;

    /// The generator, which satisfies the equation and is not neutral.
    fn get_generator(&self) -> (p: Self::Point)
        ensures
            self.holds(&p),
            !self.is_neutral(&p),
    ;
}

/// Reading a value from its canonical bytes.
pub trait Decode {
    /// What is read.
    type Deser;

    /// What a buffer must say for `decode` to succeed.
    spec fn decodes(&self, buf: Seq<u8>) -> bool;

    /// The value that a buffer encodes, or why it encodes none.
    fn decode(&self, buf: &[u8]) -> (r: Result<Self::Deser, Error>)
        ensures
            r is Ok == self.decodes(buf@),
    ;
}

/// Writing a value as its canonical bytes.
pub trait Encode {
    /// The bytes of the value.
    spec fn encoding(&self, compress: bool) -> Seq<u8>;

    /// The bytes that encode the value.
    fn encode(&self, compress: bool) -> (r: Vec<u8>)
        ensures
            r@ == self.encoding(compress),
    ;
}

impl EllipticCurve for montgomery::Curve {
    type Point = montgomery::Point;

    open spec fn field_modulus(&self) -> nat {
        self@.p
    }

    open spec fn group_order(&self) -> nat {
        self@.r
    }

    open spec fn group_cofactor(&self) -> nat {
        self@.h
    }

    open spec fn holds(&self, p: &Self::Point) -> bool {
        montgomery::curve::on_curve(self@, p.coords().0, p.coords().1, p.coords().2)
    }

    open spec fn is_neutral(&self, p: &Self::Point) -> bool {
        p.coords().2 == 0
    }

    fn new_scalar(&self, k: Int) -> (s: Scalar) {
        montgomery::Curve::new_scalar(self, k)
    }

    fn identity(&self) -> (p: Self::Point) {
        montgomery::Curve::identity(self)
    }

    fn is_on_curve(&self, p: &Self::Point) -> (r: bool) {
        montgomery::Curve::is_on_curve(self, p)
    }

    fn get_order(&self) -> (r: Uint) {
        montgomery::Curve::get_order(self)
    }

    fn get_cofactor(&self) -> (h: Int) {
        montgomery::Curve::get_cofactor(self)
    }

    fn get_field(&self) -> (f: Fp) {
        montgomery::Curve::get_field(self)
    }

    fn get_generator(&self) -> (p: Self::Point) {
        montgomery::Curve::get_generator(self)
    }
}

impl Decode for montgomery::Curve {
    type Deser = montgomery::Point;

    open spec fn decodes(&self, buf: Seq<u8>) -> bool {
        montgomery::curve::spec_decode(self@, buf) is Ok
    }

    fn decode(&self, buf: &[u8]) -> (r: Result<Self::Deser, Error>) {
        montgomery::Curve::decode(self, buf)
    }
}

impl Encode for montgomery::Point {
    open spec fn encoding(&self, compress: bool) -> Seq<u8> {
        montgomery::point::spec_encode(self.curve().p, self.coords(), compress)
    }

    fn encode(&self, compress: bool) -> (r: Vec<u8>) {
        montgomery::Point::encode(self, compress)
    }
}

impl EllipticCurve for weierstrass::Curve {
    type Point = weierstrass::Point;

    open spec fn field_modulus(&self) -> nat {
        self@.p
    }

    open spec fn group_order(&self) -> nat {
        self@.r
    }

    open spec fn group_cofactor(&self) -> nat {
        self@.h
    }

    open spec fn holds(&self, p: &Self::Point) -> bool {
        weierstrass::curve::on_curve(self@, p.coords().0, p.coords().1, p.coords().2)
    }

    open spec fn is_neutral(&self, p: &Self::Point) -> bool {
        p.coords().2 == 0
    }

    fn new_scalar(&self, k: Int) -> (s: Scalar) {
        weierstrass::Curve::new_scalar(self, k)
    }

    fn identity(&self) -> (p: Self::Point) {
        weierstrass::Curve::identity(self)
    }

    fn is_on_curve(&self, p: &Self::Point) -> (r: bool) {
        weierstrass::Curve::is_on_curve(self, p)
    }

    fn get_order(&self) -> (r: Uint) {
        weierstrass::Curve::get_order(self)
    }

    fn get_cofactor(&self) -> (h: Int) {
        weierstrass::Curve::get_cofactor(self)
    }

    fn get_field(&self) -> (f: Fp) {
        weierstrass::Curve::get_field(self)
    }

    fn get_generator(&self) -> (p: Self::Point) {
        weierstrass::Curve::get_generator(self)
    }
}

impl Decode for weierstrass::Curve {
    type Deser = weierstrass::Point;

    open spec fn decodes(&self, buf: Seq<u8>) -> bool {
        weierstrass::curve::spec_decode(self@, buf) is Ok
    }

    fn decode(&self, buf: &[u8]) -> (r: Result<Self::Deser, Error>) {
        weierstrass::Curve::decode(self, buf)
    }
}

impl Encode for weierstrass::Point {
    open spec fn encoding(&self, compress: bool) -> Seq<u8> {
        weierstrass::point::spec_encode(self.curve().p, self.coords(), compress)
    }

    fn encode(&self, compress: bool) -> (r: Vec<u8>) {
        weierstrass::Point::encode(self, compress)
    }
}

} // verus!
