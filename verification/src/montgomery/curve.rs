//! The Montgomery curve `b y^2 = x^3 + a x^2 + x` over a prime field, and
//! the points that lie on it.

use crate::bignum::{be_value, decimal_text, decimal_value, is_decimal};
use crate::encoding::{
    is_tag, lemma_size_positive, parse_frame, spec_parse, valid_length, x_bytes, Frame, FrameModel,
    TAG_INFINITY, TAG_UNCOMPRESSED,
};
use crate::error::Error;
use crate::field::{
    byte_length, fadd, finv, fmul, fneg, invertible, lemma_add_congruent, lemma_fadd_tracks,
    lemma_fmul_tracks, lemma_fsub_tracks, lemma_mul_congruent, lemma_one_invertible,
    lemma_sub_is_zero, sgn0, Fp,
};
use crate::montgomery::point::{Point, ProyCoordinates};
use crate::scalar::Scalar;
use crate::sqrt::fsqrt;
use crate::uint::{is_signed_decimal, signed_decimal_value, Int, Uint};
use vstd::arithmetic::div_mod::lemma_small_mod;
use vstd::prelude::*;
use vstd::string::StringExecFns;

verus! {

/// The numbers that define a Montgomery curve with its group.
pub struct CurveModel {
    /// The modulus of the field.
    pub p: nat,
    /// The coefficient `a` of the equation.
    pub a: nat,
    /// The coefficient `b` of the equation.
    pub b: nat,
    /// A further coefficient that the equation does not use.
    pub s: nat,
    /// The order of the group that the generator spans.
    pub r: nat,
    /// The cofactor.
    pub h: nat,
    /// The affine `x` of the generator.
    pub gx: nat,
    /// The affine `y` of the generator.
    pub gy: nat,
}

/// The left side of the projective equation, `b y^2 z`.
pub open spec fn lhs(b: int, y: int, z: int) -> int {
    b * y * y * z
}

/// The right side of the projective equation, `x^3 + a x^2 z + x z^2`.
pub open spec fn rhs(a: int, x: int, z: int) -> int {
    x * x * x + a * x * x * z + x * z * z
}

/// Whether `(x : y : z)` satisfies `b y^2 z = x^3 + a x^2 z + x z^2` modulo `p`.
pub open spec fn equation_holds(p: nat, a: nat, b: nat, x: nat, y: nat, z: nat) -> bool {
    lhs(b as int, y as int, z as int) % (p as int) == rhs(a as int, x as int, z as int) % (
    p as int)
}

/// Whether `(x : y : z)` satisfies the equation of the curve in its field.
pub open spec fn on_curve(c: CurveModel, x: nat, y: nat, z: nat) -> bool {
    equation_holds(c.p, c.a, c.b, x, y, z)
}

/// Whether the numbers define a curve: the coefficients and the generator
/// are field elements, `b` is not zero, the order is positive, and the
/// generator lies on the curve.
pub open spec fn valid(c: CurveModel) -> bool {
    &&& c.p >= 2
    &&& c.a < c.p
    &&& 0 < c.b < c.p
    &&& c.s < c.p
    &&& c.gx < c.p
    &&& c.gy < c.p
    &&& c.r > 0
    &&& on_curve(c, c.gx, c.gy, 1)
}

/// Two curves are the same curve where field and coefficients agree.
pub open spec fn same_curve(c: CurveModel, d: CurveModel) -> bool {
    c.p == d.p && c.a == d.a && c.b == d.b && c.s == d.s
}

/// The coordinates that a constructor accepts: field elements, not all of
/// them zero, that satisfy the equation, with a `z` that is zero or has an
/// inverse, as every `z` has where the modulus is prime.
pub open spec fn spec_new_point(c: CurveModel, x: nat, y: nat, z: nat) -> Result<
    (nat, nat, nat),
    Error,
> {
    if x >= c.p || y >= c.p || z >= c.p {
        Err(Error::InvalidCoordinate)
    } else if x == 0 && y == 0 && z == 0 {
        Err(Error::InvalidPoint)
    } else if !on_curve(c, x, y, z) {
        Err(Error::InvalidPoint)
    } else if z != 0 && !invertible(c.p, z) {
        Err(Error::InvalidPoint)
    } else {
        Ok((x, y, z))
    }
}

/// Whether `r` is the point of curve `c` with the expected coordinates, or
/// the expected error.
pub open spec fn is_point_result(
    r: Result<Point, Error>,
    c: CurveModel,
    expected: Result<(nat, nat, nat), Error>,
) -> bool {
    match r {
        Ok(pt) => expected == Ok::<(nat, nat, nat), Error>(pt.coords()) && pt.curve() == c,
        Err(e) => expected == Err::<(nat, nat, nat), Error>(e),
    }
}

/// `y^2` for the affine `x`, solved from the equation: `(x^3 + a x^2 + x) / b`.
pub open spec fn y_squared(c: CurveModel, x: nat) -> nat {
    fmul(c.p, (rhs(c.a as int, x as int, 1) % (c.p as int)) as nat, finv(c.p, c.b))
}

/// The `y` with the wanted sign over the affine `x`, where `b` has an
/// inverse and a square root of `y^2` is found.
pub open spec fn recover_y(c: CurveModel, x: nat, odd: bool) -> Option<nat> {
    if !invertible(c.p, c.b) {
        None
    } else {
        match fsqrt(c.p, y_squared(c, x)) {
            None => None,
            Some(y) => Some(
                if (sgn0(c.p, y) == 1) == odd {
                    y
                } else {
                    fneg(c.p, y)
                },
            ),
        }
    }
}

/// The coordinates of the point that a buffer encodes, or why it encodes
/// none: what the frame format refuses first, then what the curve refuses.
pub open spec fn spec_decode(c: CurveModel, buf: Seq<u8>) -> Result<(nat, nat, nat), Error> {
    match spec_parse(c.p, buf) {
        Err(e) => Err(e),
        Ok(FrameModel::Infinity) => Ok((0, 1, 0)),
        Ok(FrameModel::Uncompressed { x, y }) => spec_new_point(c, x, y, 1),
        Ok(FrameModel::Compressed { x, odd }) => match recover_y(c, x, odd) {
            None => Err(Error::InvalidPoint),
            Some(y) => spec_new_point(c, x, y, 1),
        },
    }
}

/// Both sides of the equation keep their class modulo `p` when each
/// coordinate is replaced by a congruent one.
pub proof fn lemma_equation_congruent(
    p: int,
    a: int,
    b: int,
    x: int,
    y: int,
    z: int,
    x2: int,
    y2: int,
    z2: int,
)
    requires
        p > 0,
        x % p == x2 % p,
        y % p == y2 % p,
        z % p == z2 % p,
    ensures
        lhs(b, y, z) % p == lhs(b, y2, z2) % p,
        rhs(a, x, z) % p == rhs(a, x2, z2) % p,
{
    lemma_mul_congruent(p, b, b, y, y2);
    lemma_mul_congruent(p, b * y, b * y2, y, y2);
    lemma_mul_congruent(p, b * y * y, b * y2 * y2, z, z2);
    lemma_mul_congruent(p, x, x2, x, x2);
    lemma_mul_congruent(p, x * x, x2 * x2, x, x2);
    lemma_mul_congruent(p, a, a, x, x2);
    lemma_mul_congruent(p, a * x, a * x2, x, x2);
    lemma_mul_congruent(p, a * x * x, a * x2 * x2, z, z2);
    lemma_mul_congruent(p, x, x2, z, z2);
    lemma_mul_congruent(p, x * z, x2 * z2, z, z2);
    lemma_add_congruent(p, x * x * x, x2 * x2 * x2, a * x * x * z, a * x2 * x2 * z2);
    lemma_add_congruent(
        p,
        x * x * x + a * x * x * z,
        x2 * x2 * x2 + a * x2 * x2 * z2,
        x * z * z,
        x2 * z2 * z2,
    );
}

/// The text that describes a curve: its equation and its coefficients `a`
/// and `b` in decimal digits.
pub open spec fn spec_description(c: CurveModel) -> Seq<char> {
    "Montgomery Curve by^2=x^3+ax^2+x\na: "@ + decimal_text(c.a) + "\nb: "@ + decimal_text(c.b)
}

/// The names and numerals of a curve: the modulus `p`, the coefficients
/// `a`, `b` and `s`, the order `r`, the cofactor `h` and the generator.
/// Each numeral is a string of decimal digits; a coefficient or a coordinate
/// may have a minus sign in front.
#[derive(Debug, Clone, Copy, PartialEq, Eq)]
pub struct Params {
    pub name: &'static str,
    pub p: &'static str,
    pub a: &'static str,
    pub b: &'static str,
    pub s: &'static str,
    pub r: &'static str,
    pub h: &'static str,
    pub gx: &'static str,
    pub gy: &'static str,
}

/// The element of the field of modulus `p` that a numeral writes.
pub open spec fn numeral_element(p: nat, s: Seq<char>) -> nat {
    (signed_decimal_value(s) % (p as int)) as nat
}

/// The numbers that a table of numerals writes.
pub open spec fn params_model(params: Params) -> CurveModel {
    let p = decimal_value(params.p@);
    CurveModel {
        p,
        a: numeral_element(p, params.a@),
        b: numeral_element(p, params.b@),
        s: numeral_element(p, params.s@),
        r: decimal_value(params.r@),
        h: decimal_value(params.h@),
        gx: numeral_element(p, params.gx@),
        gy: numeral_element(p, params.gy@),
    }
}

/// Whether a table writes a curve: every numeral is well formed, the
/// modulus is at least 2, `b` is not zero in the field, the order is
/// positive and the generator lies on the curve.
pub open spec fn params_valid(params: Params) -> bool {
    &&& is_decimal(params.p@)
    &&& decimal_value(params.p@) >= 2
    &&& is_signed_decimal(params.a@)
    &&& is_signed_decimal(params.b@)
    &&& params_model(params).b != 0
    &&& is_signed_decimal(params.s@)
    &&& is_decimal(params.r@)
    &&& decimal_value(params.r@) > 0
    &&& is_decimal(params.h@)
    &&& is_signed_decimal(params.gx@)
    &&& is_signed_decimal(params.gy@)
    &&& on_curve(
        params_model(params),
        params_model(params).gx,
        params_model(params).gy,
        1,
    )
}

/// An elliptic curve in Montgomery form, `b y^2 = x^3 + a x^2 + x`, with a
/// generator of a subgroup of order `r` and cofactor `h`.
#[derive(Debug)]
pub struct Curve {
    pub(super) f: Fp,
    pub(super) a: Uint,
    pub(super) b: Uint,
    pub(super) s: Uint,
    pub(super) r: Uint,
    pub(super) gx: Uint,
    pub(super) gy: Uint,
    pub(super) h: Uint,
}

impl View for Curve {
    type V = CurveModel;

    open(super) spec fn view(&self) -> CurveModel {
        CurveModel {
            p: self.f.modulus(),
            a: self.a@,
            b: self.b@,
            s: self.s@,
            r: self.r@,
            h: self.h@,
            gx: self.gx@,
            gy: self.gy@,
        }
    }
}

impl Clone for Curve {
    fn clone(&self) -> (c: Self)
        ensures
            c@ == self@,
    {
        proof {
            use_type_invariant(self);
        }
        Curve {
            f: self.f.clone(),
            a: self.a.clone(),
            b: self.b.clone(),
            s: self.s.clone(),
            r: self.r.clone(),
            gx: self.gx.clone(),
            gy: self.gy.clone(),
            h: self.h.clone(),
        }
    }
}

impl PartialEq for Curve {
    fn eq(&self, other: &Self) -> (r: bool) {
        self.f.get_modulus() == other.f.get_modulus() && self.a == other.a && self.b == other.b
            && self.s == other.s
    }
}

impl vstd::std_specs::cmp::PartialEqSpecImpl for Curve {
    open spec fn obeys_eq_spec() -> bool {
        true
    }

    open spec fn eq_spec(&self, other: &Self) -> bool {
        same_curve(self@, other@)
    }
}

impl Curve {
    /// Every curve is valid.
    #[verifier::type_invariant]
    pub open spec fn wf(self) -> bool {
        valid(self@)
    }

    /// Whether `(x : y : z)` satisfies the equation: the one test behind
    /// `is_on_curve` and every constructor of points.
    pub(super) fn satisfies(f: &Fp, a: &Uint, b: &Uint, x: &Uint, y: &Uint, z: &Uint) -> (r: bool)
        ensures
            r == equation_holds(f.modulus(), a@, b@, x@, y@, z@),
    {
        let yy = f.mul(y, y);
        let byy = f.mul(b, &yy);
        let l = f.mul(&byy, z);
        let xx = f.mul(x, x);
        let ax = f.mul(a, x);
        let axz = f.mul(&ax, z);
        let zz = f.mul(z, z);
        let t = f.add(&f.add(&xx, &axz), &zz);
        let r = f.mul(x, &t);
        let e = f.sub(&l, &r);
        proof {
            let p = f.modulus();
            let m = p as int;
            let (ai, bi) = (a@ as int, b@ as int);
            let (xi, yi, zi) = (x@ as int, y@ as int, z@ as int);
            use_type_invariant(f);
            lemma_fmul_tracks(p, y@, y@, yi, yi);
            lemma_fmul_tracks(p, b@, yy@, bi, yi * yi);
            lemma_fmul_tracks(p, byy@, z@, bi * (yi * yi), zi);
            lemma_fmul_tracks(p, x@, x@, xi, xi);
            lemma_fmul_tracks(p, a@, x@, ai, xi);
            lemma_fmul_tracks(p, ax@, z@, ai * xi, zi);
            lemma_fmul_tracks(p, z@, z@, zi, zi);
            lemma_fadd_tracks(p, xx@, axz@, xi * xi, (ai * xi) * zi);
            lemma_fadd_tracks(p, fadd(p, xx@, axz@), zz@, xi * xi + (ai * xi) * zi, zi * zi);
            lemma_fmul_tracks(p, x@, t@, xi, xi * xi + (ai * xi) * zi + zi * zi);
            let big_l = (bi * (yi * yi)) * zi;
            let big_r = xi * (xi * xi + (ai * xi) * zi + zi * zi);
            lemma_fsub_tracks(p, l@, r@, big_l, big_r);
            lemma_small_mod(e@, p);
            lemma_sub_is_zero(m, big_l, big_r);
            assert(big_l == bi * yi * yi * zi) by (nonlinear_arith)
                requires
                    big_l == (bi * (yi * yi)) * zi,
            ;
            assert(big_r == xi * xi * xi + ai * xi * xi * zi + xi * zi * zi) by (nonlinear_arith)
                requires
                    big_r == xi * (xi * xi + (ai * xi) * zi + zi * zi),
            ;
        }
        e.is_zero()
    }

    /// The curve that a table of numerals writes, or `None` where the table
    /// writes none.
    pub fn try_from(params: &Params) -> (r: Option<Curve>)
        ensures
            r.is_some() == params_valid(*params),
            r.is_some() ==> r.unwrap()@ == params_model(*params),
    {
        let p = match Uint::parse_decimal(params.p) {
            Some(p) => p,
            None => return None,
        };
        let f = match Fp::new(p) {
            Some(f) => f,
            None => return None,
        };
        let a = match f.from_decimal(params.a) {
            Some(a) => a,
            None => return None,
        };
        let b = match f.from_decimal(params.b) {
            Some(b) => b,
            None => return None,
        };
        if b.is_zero() {
            return None;
        }
        let s = match f.from_decimal(params.s) {
            Some(s) => s,
            None => return None,
        };
        let r = match Uint::parse_decimal(params.r) {
            Some(r) => r,
            None => return None,
        };
        if r.is_zero() {
            return None;
        }
        let h = match Uint::parse_decimal(params.h) {
            Some(h) => h,
            None => return None,
        };
        let gx = match f.from_decimal(params.gx) {
            Some(gx) => gx,
            None => return None,
        };
        let gy = match f.from_decimal(params.gy) {
            Some(gy) => gy,
            None => return None,
        };
        if !Curve::satisfies(&f, &a, &b, &gx, &gy, &f.one()) {
            return None;
        }
        Some(Curve { f, a, b, s, r, gx, gy, h })
    }

    /// The curve that a valid table of numerals writes.
    pub fn from(params: &Params) -> (c: Curve)
        requires
            params_valid(*params),
        ensures
            c@ == params_model(*params),
    {
        Curve::try_from(params).unwrap()
    }

    /// The point with the given projective coordinates: `InvalidCoordinate`
    /// where one of them is not a field element, `InvalidPoint` where all
    /// are zero, where they do not satisfy the equation, or where `z` is
    /// neither zero nor invertible.
    pub fn new_proy_point(&self, c: ProyCoordinates) -> (r: Result<Point, Error>)
        ensures
            is_point_result(r, self@, spec_new_point(self@, c.x@, c.y@, c.z@)),
    {
        proof {
            use_type_invariant(self);
        }
        if !self.f.contains(&c.x) || !self.f.contains(&c.y) || !self.f.contains(&c.z) {
            return Err(Error::InvalidCoordinate);
        }
        if c.x.is_zero() && c.y.is_zero() && c.z.is_zero() {
            return Err(Error::InvalidPoint);
        }
        if !Curve::satisfies(&self.f, &self.a, &self.b, &c.x, &c.y, &c.z) {
            return Err(Error::InvalidPoint);
        }
        if !c.z.is_zero() && self.f.inverse(&c.z).is_none() {
            return Err(Error::InvalidPoint);
        }
        let e = self.clone();
        Ok(Point { e, c })
    }

    /// The point with the given affine coordinates: `InvalidCoordinate`
    /// where one of them is not a field element, `InvalidPoint` where they
    /// do not satisfy the equation.
    pub fn new_point(&self, x: Uint, y: Uint) -> (r: Result<Point, Error>)
        ensures
            is_point_result(r, self@, spec_new_point(self@, x@, y@, 1)),
    {
        proof {
            use_type_invariant(self);
        }
        let z = self.f.one();
        self.new_proy_point(ProyCoordinates { x, y, z })
    }

    /// The scalar of `k` in the group of the curve: `k` reduced modulo the order.
    pub fn new_scalar(&self, k: Int) -> (s: Scalar)
        ensures
            s.order() == self@.r,
            s.value() == k@ % (self@.r as int),
    {
        proof {
            use_type_invariant(self);
        }
        Scalar::new(k, &self.r)
    }

    /// The neutral element, `(0 : 1 : 0)`.
    pub fn identity(&self) -> (pt: Point)
        ensures
            pt.curve() == self@,
            pt.coords() == (0nat, 1nat, 0nat),
            on_curve(self@, 0, 1, 0),
    {
        proof {
            use_type_invariant(self);
            lemma_identity_on_curve(self@);
        }
        let f = &self.f;
        let c = ProyCoordinates { x: f.zero(), y: f.one(), z: f.zero() };
        Point { e: self.clone(), c }
    }

    /// Whether the coordinates of `p` satisfy the equation of this curve.
    pub fn is_on_curve(&self, p: &Point) -> (r: bool)
        ensures
            r == on_curve(self@, p.coords().0, p.coords().1, p.coords().2),
            same_curve(self@, p.curve()) ==> r,
    {
        proof {
            use_type_invariant(self);
            use_type_invariant(p);
        }
        let p = &p.c;
        Curve::satisfies(&self.f, &self.a, &self.b, &p.x, &p.y, &p.z)
    }

    /// The order of the group that the generator spans.
    pub fn get_order(&self) -> (r: Uint)
        ensures
            r@ == self@.r,
            r@ > 0,
    {
        proof {
            use_type_invariant(self);
        }
        self.r.clone()
    }

    /// The cofactor.
    pub fn get_cofactor(&self) -> (h: Int)
        ensures
            h@ == self@.h,
    {
        Int::from_uint(self.h.clone())
    }

    /// The field of the curve.
    pub fn get_field(&self) -> (f: Fp)
        ensures
            f.modulus() == self@.p,
    {
        self.f.clone()
    }

    /// The generator, `(gx : gy : 1)`.
    pub fn get_generator(&self) -> (pt: Point)
        ensures
            pt.curve() == self@,
            pt.coords() == (self@.gx, self@.gy, 1nat),
            on_curve(self@, self@.gx, self@.gy, 1),
    {
        proof {
            use_type_invariant(self);
            lemma_one_invertible(self@.p);
        }
        let c = ProyCoordinates { x: self.gx.clone(), y: self.gy.clone(), z: self.f.one() };
        Point { e: self.clone(), c }
    }

    /// A description of the curve for a reader: the equation and the
    /// coefficients.
    pub fn to_string(&self) -> (r: String)
        ensures
            r@ == spec_description(self@),
    {
        let mut r = String::from_str("Montgomery Curve by^2=x^3+ax^2+x\na: ");
        r.append(self.a.to_decimal().as_str());
        r.append("\nb: ");
        r.append(self.b.to_decimal().as_str());
        r
    }

    /// The point that a buffer encodes. The checks come in this order, and
    /// the first that fails is reported: the length of the buffer
    /// (`InvalidLength`), the range of `x` (`InvalidCoordinate`), the tag
    /// (`InvalidTag`) with the length that belongs to it (`InvalidLength`),
    /// the range of `y` (`InvalidCoordinate`), and that the coordinates lie
    /// on the curve (`InvalidPoint`).
    pub fn decode(&self, buf: &[u8]) -> (r: Result<Point, Error>)
        ensures
            is_point_result(r, self@, spec_decode(self@, buf@)),
            !valid_length(byte_length(self@.p), buf@.len()) ==> r is Err && r->Err_0
                == Error::InvalidLength,
            valid_length(byte_length(self@.p), buf@.len()) && be_value(
                x_bytes(byte_length(self@.p), buf@),
            ) >= self@.p ==> r is Err && r->Err_0 == Error::InvalidCoordinate,
            valid_length(byte_length(self@.p), buf@.len()) && be_value(
                x_bytes(byte_length(self@.p), buf@),
            ) < self@.p && !is_tag(buf@[0]) ==> r is Err && r->Err_0 == Error::InvalidTag,
            buf@.len() == 2 * byte_length(self@.p) + 1 && buf@[0] == TAG_UNCOMPRESSED && be_value(
                buf@.subrange(byte_length(self@.p) as int + 1, buf@.len() as int),
            ) >= self@.p ==> r is Err && r->Err_0 == Error::InvalidCoordinate,
            buf@ == seq![TAG_INFINITY] ==> r is Ok && r->Ok_0.coords() == (0nat, 1nat, 0nat),
            r is Ok ==> on_curve(self@, r->Ok_0.coords().0, r->Ok_0.coords().1, r->Ok_0.coords().2),
    {
        proof {
            use_type_invariant(self);
            lemma_size_positive(self@.p);
            if buf@ == seq![TAG_INFINITY] {
                assert(x_bytes(byte_length(self@.p), buf@) =~= Seq::<u8>::empty());
            }
        }
        let frame = match parse_frame(&self.f, buf) {
            Ok(frame) => frame,
            Err(e) => return Err(e),
        };
        match frame {
            Frame::Infinity => Ok(self.identity()),
            Frame::Uncompressed { x, y } => self.new_point(x, y),
            Frame::Compressed { x, odd } => {
                let f = &self.f;
                let one = f.one();
                let x_a = f.add(&x, &self.a);
                let xx_ax = f.mul(&x_a, &x);
                let xx_ax_1 = f.add(&xx_ax, &one);
                let byy = f.mul(&xx_ax_1, &x);
                let b_inv = match f.inverse(&self.b) {
                    Some(i) => i,
                    None => return Err(Error::InvalidPoint),
                };
                let yy = f.mul(&byy, &b_inv);
                proof {
                    let p = self@.p;
                    let (xi, ai) = (x@ as int, self@.a as int);
                    lemma_fadd_tracks(p, x@, self@.a, xi, ai);
                    lemma_fmul_tracks(p, x_a@, x@, xi + ai, xi);
                    lemma_fadd_tracks(p, xx_ax@, 1, (xi + ai) * xi, 1);
                    lemma_fmul_tracks(p, xx_ax_1@, x@, (xi + ai) * xi + 1, xi);
                    lemma_small_mod(byy@, p);
                    assert(((xi + ai) * xi + 1) * xi == rhs(ai, xi, 1)) by (nonlinear_arith);
                    assert(yy@ == y_squared(self@, x@));
                }
                let y_sqrt = match f.sqrt(&yy) {
                    Some(y) => y,
                    None => return Err(Error::InvalidPoint),
                };
                let s = f.sgn0(&y_sqrt);
                let y = if (s == 1) != odd {
                    f.neg(&y_sqrt)
                } else {
                    y_sqrt
                };
                self.new_point(x, y)
            },
        }
    }
}

/// Curve identifier of a well-known curve.
#[derive(Debug, Clone, Copy, PartialEq, Eq)]
pub struct CurveID(pub &'static Params);

impl CurveID {
    /// The curve that the identifier names, where its table is valid.
    pub fn get(&self) -> (c: Curve)
        requires
            params_valid(*self.0),
        ensures
            c@ == params_model(*self.0),
    {
        Curve::from(self.0)
    }

    /// The curve that the identifier names, or `None` where its table
    /// writes no curve.
    pub fn try_get(&self) -> (r: Option<Curve>)
        ensures
            r.is_some() == params_valid(*self.0),
            r.is_some() ==> r.unwrap()@ == params_model(*self.0),
    {
        Curve::try_from(self.0)
    }
}

/// `(0 : 1 : 0)` satisfies the equation of every curve.
pub proof fn lemma_identity_on_curve(c: CurveModel)
    requires
        c.p > 0,
    ensures
        on_curve(c, 0, 1, 0),
{
    assert(lhs(c.b as int, 1, 0) == 0) by (nonlinear_arith);
    assert(rhs(c.a as int, 0, 0) == 0) by (nonlinear_arith);
}

} // verus!
