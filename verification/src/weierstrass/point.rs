//! Points of a short Weierstrass curve, in projective coordinates.

use crate::encoding::{
    lemma_written_length, spec_write, write_frame, Frame, FrameModel, TAG_INFINITY,
};
use crate::field::{byte_length, finv, fmul, invertible, sgn0};
use crate::weierstrass::curve::{on_curve, same_curve, valid, Curve, CurveModel};
use crate::uint::Uint;
use vstd::prelude::*;

verus! {

/// Projective coordinates `(x : y : z)`; the affine point is `(x/z, y/z)`.
#[derive(Debug)]
pub struct ProyCoordinates {
    pub x: Uint,
    pub y: Uint,
    pub z: Uint,
}

/// A point of a short Weierstrass curve. Every point satisfies the equation of the
/// curve that it belongs to.
#[derive(Debug)]
pub struct Point {
    pub(super) e: Curve,
    pub(super) c: ProyCoordinates,
}

/// The affine coordinates `(x/z, y/z)` of a point with an invertible `z`.
pub open spec fn affine(p: nat, c: (nat, nat, nat)) -> (nat, nat) {
    (fmul(p, c.0, finv(p, c.2)), fmul(p, c.1, finv(p, c.2)))
}

/// The frame that writes a point: infinity where `z` is zero, otherwise the
/// affine coordinates, in full or as `x` with the sign of `y`.
pub open spec fn frame_of(p: nat, c: (nat, nat, nat), compress: bool) -> FrameModel {
    if c.2 == 0 {
        FrameModel::Infinity
    } else if compress {
        FrameModel::Compressed { x: affine(p, c).0, odd: sgn0(p, affine(p, c).1) == 1 }
    } else {
        FrameModel::Uncompressed { x: affine(p, c).0, y: affine(p, c).1 }
    }
}

/// The bytes that encode a point over the field of modulus `p`.
pub open spec fn spec_encode(p: nat, c: (nat, nat, nat), compress: bool) -> Seq<u8> {
    spec_write(p, frame_of(p, c, compress))
}

/// Whether two triples of projective coordinates stand for one point:
/// equal after cross-multiplication by the other's `z`.
pub open spec fn same_point(p: nat, c: (nat, nat, nat), d: (nat, nat, nat)) -> bool {
    fmul(p, c.0, d.2) == fmul(p, d.0, c.2) && fmul(p, c.1, d.2) == fmul(p, d.1, c.2)
}

impl PartialEq for Point {
    fn eq(&self, other: &Self) -> (r: bool) {
        if self.e != other.e {
            return false;
        }
        let f = &self.e.f;
        let (a, b) = (&self.c, &other.c);
        f.mul(&a.x, &b.z) == f.mul(&b.x, &a.z) && f.mul(&a.y, &b.z) == f.mul(&b.y, &a.z)
    }
}

impl vstd::std_specs::cmp::PartialEqSpecImpl for Point {
    open spec fn obeys_eq_spec() -> bool {
        true
    }

    open spec fn eq_spec(&self, other: &Self) -> bool {
        same_curve(self.curve(), other.curve()) && same_point(
            self.curve().p,
            self.coords(),
            other.coords(),
        )
    }
}

impl Clone for Point {
    fn clone(&self) -> (r: Self)
        ensures
            r.curve() == self.curve(),
            r.coords() == self.coords(),
    {
        proof {
            use_type_invariant(self);
        }
        let c = ProyCoordinates { x: self.c.x.clone(), y: self.c.y.clone(), z: self.c.z.clone() };
        Point { e: self.e.clone(), c }
    }
}

impl Point {
    /// The curve that the point belongs to.
    pub fn get_curve(&self) -> (e: Curve)
        ensures
            e@ == self.curve(),
    {
        self.e.clone()
    }

    /// The projective coordinates of the point.
    pub fn get_coordinates(&self) -> (c: ProyCoordinates)
        ensures
            (c.x@, c.y@, c.z@) == self.coords(),
    {
        ProyCoordinates { x: self.c.x.clone(), y: self.c.y.clone(), z: self.c.z.clone() }
    }

    /// Whether the point is the neutral element: its `z` is zero.
    pub fn is_identity(&self) -> (r: bool)
        ensures
            r == (self.coords().2 == 0),
    {
        self.c.z.is_zero()
    }

    /// The bytes that encode the point: the single byte `0x00` for the
    /// neutral element; otherwise the tag `0x04` with the affine `x` and
    /// `y`, or, compressed, the tag `0x02` or `0x03` by the sign of `y` with
    /// the affine `x`.
    pub fn encode(&self, compress: bool) -> (r: Vec<u8>)
        ensures
            r@ == spec_encode(self.curve().p, self.coords(), compress),
            self.coords().2 == 0 ==> r@ == seq![TAG_INFINITY],
            r@.len() == if self.coords().2 == 0 {
                1
            } else if compress {
                byte_length(self.curve().p) + 1
            } else {
                2 * byte_length(self.curve().p) + 1
            },
    {
        proof {
            use_type_invariant(self);
            lemma_written_length(self.curve().p, frame_of(self.curve().p, self.coords(), compress));
        }
        let f = &self.e.f;
        if self.c.z.is_zero() {
            return write_frame(f, &Frame::Infinity);
        }
        let z_inv = f.inverse(&self.c.z).unwrap();
        let x = f.mul(&self.c.x, &z_inv);
        let y = f.mul(&self.c.y, &z_inv);
        let frame = if compress {
            Frame::Compressed { x, odd: f.sgn0(&y) == 1 }
        } else {
            Frame::Uncompressed { x, y }
        };
        write_frame(f, &frame)
    }

    /// The curve that the point belongs to.
    pub open(super) spec fn curve(&self) -> CurveModel {
        self.e@
    }

    /// The projective coordinates of the point.
    pub open(super) spec fn coords(&self) -> (nat, nat, nat) {
        (self.c.x@, self.c.y@, self.c.z@)
    }

    /// The coordinates of a point are field elements, not all zero, that
    /// satisfy the equation of its curve, and its `z` is zero or has an
    /// inverse.
    #[verifier::type_invariant]
    pub open spec fn wf(self) -> bool {
        &&& valid(self.curve())
        &&& self.coords().0 < self.curve().p
        &&& self.coords().1 < self.curve().p
        &&& self.coords().2 < self.curve().p
        &&& on_curve(self.curve(), self.coords().0, self.coords().1, self.coords().2)
        &&& (self.coords().2 == 0 || invertible(self.curve().p, self.coords().2))
        &&& self.coords() != (0nat, 0nat, 0nat)
    }
}

} // verus!
