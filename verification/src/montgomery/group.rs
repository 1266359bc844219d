//! The group law on the points of a Montgomery curve.
//!
//! Sums and doubles are computed by the projective chord-and-tangent
//! formulas. Their results are accepted as points by the same test as any
//! other coordinates, so that every point that leaves this module satisfies
//! the equation of its curve.

use crate::bits::{bits_msb_first, pending};
use crate::error::Error;
use crate::field::{
    fneg, lemma_mul_congruent, lemma_sub_is_zero, lemma_track_add, lemma_track_element,
    lemma_track_mul, lemma_track_sub,
};
use crate::montgomery::curve::{
    is_point_result, lemma_identity_on_curve, lhs, on_curve, same_curve, spec_new_point, Curve,
    CurveModel,
};
use crate::montgomery::point::{same_point, Point, ProyCoordinates};
use crate::scalar::Scalar;
use crate::uint::Uint;
use vstd::arithmetic::div_mod::{lemma_mod_bound, lemma_mod_twice, lemma_small_mod};
use vstd::prelude::*;

verus! {

/// The coordinates of the sum of two distinct points, neither of them
/// neutral, over the integers: with `u = y2 z1 - y1 z2`, `v = x2 z1 - x1 z2`
/// and `w = z1 z2`, the chord through them has slope `u / v`.
pub open spec fn add_formula(a: int, b: int, pt: (int, int, int), qt: (int, int, int)) -> (
    int,
    int,
    int,
) {
    let (x1, y1, z1) = pt;
    let (x2, y2, z2) = qt;
    let u = y2 * z1 - y1 * z2;
    let v = x2 * z1 - x1 * z2;
    let w = z1 * z2;
    let vv = v * v;
    let n = b * (u * u) * w - a * vv * w - vv * (x1 * z2 + x2 * z1);
    (v * n, u * (vv * (x1 * z2) - n) - (vv * v) * (y1 * z2), (vv * v) * w)
}

/// The coordinates of the double of a point over the integers: with
/// `w = 3 x^2 + 2 a x z + z^2` and `s = 2 b y z`, the tangent has slope `w / s`.
pub open spec fn double_formula(a: int, b: int, pt: (int, int, int)) -> (int, int, int) {
    let (x, y, z) = pt;
    let w = 3 * (x * x) + 2 * (a * (x * z)) + z * z;
    let s = 2 * ((b * y) * z);
    let ss = s * s;
    let h = b * (w * w) * z - (a * z + 2 * x) * ss;
    (h * s, w * (x * ss - h) - y * (ss * s), (ss * s) * z)
}

/// Coordinates as integers.
pub open spec fn ints(c: (nat, nat, nat)) -> (int, int, int) {
    (c.0 as int, c.1 as int, c.2 as int)
}

/// Integers reduced to field elements.
pub open spec fn reduced(p: nat, t: (int, int, int)) -> (nat, nat, nat) {
    ((t.0 % (p as int)) as nat, (t.1 % (p as int)) as nat, (t.2 % (p as int)) as nat)
}

/// What is made of computed coordinates: the neutral element `(0 : 1 : 0)`
/// where `z` is zero; otherwise what a constructor makes of them, a point
/// or `InvalidPoint`.
pub open spec fn accepted(c: CurveModel, t: (nat, nat, nat)) -> Result<(nat, nat, nat), Error> {
    if t.2 == 0 {
        Ok((0, 1, 0))
    } else {
        spec_new_point(c, t.0, t.1, t.2)
    }
}

/// The negation of a point: `(x : -y : z)`.
pub open spec fn spec_neg(c: CurveModel, pt: (nat, nat, nat)) -> (nat, nat, nat) {
    (pt.0, fneg(c.p, pt.1), pt.2)
}

/// The double of a point: the neutral element doubles to itself.
pub open spec fn spec_double(c: CurveModel, pt: (nat, nat, nat)) -> Result<
    (nat, nat, nat),
    Error,
> {
    if pt.2 == 0 {
        Ok(pt)
    } else {
        accepted(c, reduced(c.p, double_formula(c.a as int, c.b as int, ints(pt))))
    }
}

/// The sum of two points: the neutral element leaves the other operand
/// unchanged, equal points are doubled, others are joined by their chord.
pub open spec fn spec_add(c: CurveModel, pt: (nat, nat, nat), qt: (nat, nat, nat)) -> Result<
    (nat, nat, nat),
    Error,
> {
    if pt.2 == 0 {
        Ok(qt)
    } else if qt.2 == 0 {
        Ok(pt)
    } else if same_point(c.p, pt, qt) {
        spec_double(c, pt)
    } else {
        accepted(c, reduced(c.p, add_formula(c.a as int, c.b as int, ints(pt), ints(qt))))
    }
}

/// The multiple of a point by the number whose bits, most significant
/// first, are `bits`: for each bit the sum so far is doubled, and the point
/// is added where the bit is set.
pub open spec fn spec_mul(c: CurveModel, bits: Seq<bool>, pt: (nat, nat, nat)) -> Result<
    (nat, nat, nat),
    Error,
>
    decreases bits.len(),
{
    if bits.len() == 0 {
        Ok((0, 1, 0))
    } else {
        match spec_mul(c, bits.drop_last(), pt) {
            Err(e) => Err(e),
            Ok(acc) => match spec_double(c, acc) {
                Err(e) => Err(e),
                Ok(d) => if bits.last() {
                    spec_add(c, d, pt)
                } else {
                    Ok(d)
                },
            },
        }
    }
}

/// Once a multiple has failed, further bits do not mend it.
pub proof fn lemma_mul_failure_stays(
    c: CurveModel,
    done: Seq<bool>,
    rest: Seq<bool>,
    pt: (nat, nat, nat),
)
    requires
        spec_mul(c, done, pt) is Err,
    ensures
        spec_mul(c, done + rest, pt) == spec_mul(c, done, pt),
    decreases rest.len(),
{
    if rest.len() == 0 {
        assert(done + rest =~= done);
    } else {
        lemma_mul_failure_stays(c, done, rest.drop_last(), pt);
        assert((done + rest).drop_last() =~= done + rest.drop_last());
    }
}

/// The negation of a point of the curve is a point of the curve.
pub proof fn lemma_neg_on_curve(c: CurveModel, x: nat, y: nat, z: nat)
    requires
        c.p > 0,
        on_curve(c, x, y, z),
    ensures
        on_curve(c, x, fneg(c.p, y), z),
        fneg(c.p, y) < c.p,
        y < c.p && y != 0 ==> fneg(c.p, y) != 0,
{
    if y < c.p {
        lemma_sub_is_zero(c.p as int, 0, y as int);
        lemma_small_mod(y, c.p);
        lemma_small_mod(0, c.p);
    }
    let p = c.p as int;
    let (b, yi, zi) = (c.b as int, y as int, z as int);
    let ny = fneg(c.p, y) as int;
    lemma_mod_bound(-yi, p);
    lemma_mod_twice(-yi, p);
    lemma_mul_congruent(p, b, b, ny, -yi);
    lemma_mul_congruent(p, b * ny, b * (-yi), ny, -yi);
    lemma_mul_congruent(p, b * ny * ny, b * (-yi) * (-yi), zi, zi);
    assert(lhs(b, -yi, zi) == lhs(b, yi, zi)) by (nonlinear_arith);
}

impl Curve {
    /// Takes computed coordinates as a point of the curve.
    fn accept(&self, x: Uint, y: Uint, z: Uint) -> (r: Result<Point, Error>)
        requires
            x@ < self@.p,
            y@ < self@.p,
            z@ < self@.p,
        ensures
            is_point_result(r, self@, accepted(self@, (x@, y@, z@))),
    {
        if z.is_zero() {
            Ok(self.identity())
        } else {
            self.new_proy_point(ProyCoordinates { x, y, z })
        }
    }
}

impl Point {
    /// The negation of the point, `(x : -y : z)`.
    pub fn neg(&self) -> (r: Point)
        ensures
            r.curve() == self.curve(),
            r.coords() == spec_neg(self.curve(), self.coords()),
            on_curve(r.curve(), r.coords().0, r.coords().1, r.coords().2),
    {
        proof {
            use_type_invariant(self);
            lemma_neg_on_curve(self.curve(), self.coords().0, self.coords().1, self.coords().2);
        }
        let c = ProyCoordinates {
            x: self.c.x.clone(),
            y: self.e.f.neg(&self.c.y),
            z: self.c.z.clone(),
        };
        Point { e: self.e.clone(), c }
    }

    /// The double of the point; `InvalidPoint` where the computed
    /// coordinates are not those of a point.
    pub fn double(&self) -> (r: Result<Point, Error>)
        ensures
            is_point_result(r, self.curve(), spec_double(self.curve(), self.coords())),
            r is Ok ==> on_curve(
                self.curve(),
                r->Ok_0.coords().0,
                r->Ok_0.coords().1,
                r->Ok_0.coords().2,
            ),
    {
        proof {
            use_type_invariant(self);
            lemma_identity_on_curve(self.curve());
        }
        if self.c.z.is_zero() {
            return Ok(self.clone());
        }
        let f = &self.e.f;
        let (a, b) = (&self.e.a, &self.e.b);
        let (x, y, z) = (&self.c.x, &self.c.y, &self.c.z);
        let two = f.reduce(&Uint::from_u32(2));
        let three = f.reduce(&Uint::from_u32(3));
        let xx = f.mul(x, x);
        let xz = f.mul(x, z);
        let zz = f.mul(z, z);
        let xx3 = f.mul(&three, &xx);
        let axz = f.mul(a, &xz);
        let axz2 = f.mul(&two, &axz);
        let w0 = f.add(&xx3, &axz2);
        let w = f.add(&w0, &zz);
        let by = f.mul(b, y);
        let byz = f.mul(&by, z);
        let s = f.mul(&two, &byz);
        let ss = f.mul(&s, &s);
        let sss = f.mul(&ss, &s);
        let ww = f.mul(&w, &w);
        let bww = f.mul(b, &ww);
        let bwwz = f.mul(&bww, z);
        let az = f.mul(a, z);
        let x2 = f.mul(&two, x);
        let t = f.add(&az, &x2);
        let tss = f.mul(&t, &ss);
        let h = f.sub(&bwwz, &tss);
        let x3 = f.mul(&h, &s);
        let xss = f.mul(x, &ss);
        let d = f.sub(&xss, &h);
        let wd = f.mul(&w, &d);
        let ysss = f.mul(y, &sss);
        let y3 = f.sub(&wd, &ysss);
        let z3 = f.mul(&sss, z);
        proof {
            let p = self.curve().p;
            let (ai, bi) = (self.curve().a as int, self.curve().b as int);
            let (xi, yi, zi) = ints(self.coords());
            lemma_track_element(p, a@);
            lemma_track_element(p, b@);
            lemma_track_element(p, x@);
            lemma_track_element(p, y@);
            lemma_track_element(p, z@);
            lemma_track_mul(p, x@, x@, xi, xi);
            lemma_track_mul(p, x@, z@, xi, zi);
            lemma_track_mul(p, z@, z@, zi, zi);
            lemma_track_mul(p, three@, xx@, 3, xi * xi);
            lemma_track_mul(p, a@, xz@, ai, xi * zi);
            lemma_track_mul(p, two@, axz@, 2, ai * (xi * zi));
            lemma_track_add(p, xx3@, axz2@, 3 * (xi * xi), 2 * (ai * (xi * zi)));
            lemma_track_add(p, w0@, zz@, 3 * (xi * xi) + 2 * (ai * (xi * zi)), zi * zi);
            let wi = 3 * (xi * xi) + 2 * (ai * (xi * zi)) + zi * zi;
            lemma_track_mul(p, b@, y@, bi, yi);
            lemma_track_mul(p, by@, z@, bi * yi, zi);
            lemma_track_mul(p, two@, byz@, 2, (bi * yi) * zi);
            let si = 2 * ((bi * yi) * zi);
            lemma_track_mul(p, s@, s@, si, si);
            let ssi = si * si;
            lemma_track_mul(p, ss@, s@, ssi, si);
            lemma_track_mul(p, w@, w@, wi, wi);
            lemma_track_mul(p, b@, ww@, bi, wi * wi);
            lemma_track_mul(p, bww@, z@, bi * (wi * wi), zi);
            lemma_track_mul(p, a@, z@, ai, zi);
            lemma_track_mul(p, two@, x@, 2, xi);
            lemma_track_add(p, az@, x2@, ai * zi, 2 * xi);
            lemma_track_mul(p, t@, ss@, ai * zi + 2 * xi, ssi);
            lemma_track_sub(p, bwwz@, tss@, bi * (wi * wi) * zi, (ai * zi + 2 * xi) * ssi);
            let hi = bi * (wi * wi) * zi - (ai * zi + 2 * xi) * ssi;
            lemma_track_mul(p, h@, s@, hi, si);
            lemma_track_mul(p, x@, ss@, xi, ssi);
            lemma_track_sub(p, xss@, h@, xi * ssi, hi);
            lemma_track_mul(p, w@, d@, wi, xi * ssi - hi);
            lemma_track_mul(p, y@, sss@, yi, ssi * si);
            lemma_track_sub(p, wd@, ysss@, wi * (xi * ssi - hi), yi * (ssi * si));
            lemma_track_mul(p, sss@, z@, ssi * si, zi);
            assert((x3@, y3@, z3@) == reduced(p, double_formula(ai, bi, (xi, yi, zi))));
        }
        self.e.accept(x3, y3, z3)
    }

    /// The sum of two points of one curve; `GroupMismatch` where they
    /// belong to different curves, `InvalidPoint` where the computed
    /// coordinates are not those of a point.
    pub fn add(&self, other: &Point) -> (r: Result<Point, Error>)
        ensures
            !same_curve(self.curve(), other.curve()) ==> r is Err && r->Err_0
                == Error::GroupMismatch,
            same_curve(self.curve(), other.curve()) ==> is_point_result(
                r,
                self.curve(),
                spec_add(self.curve(), self.coords(), other.coords()),
            ),
            same_curve(self.curve(), other.curve()) && self.coords().2 == 0 ==> r is Ok
                && r->Ok_0.coords() == other.coords(),
            same_curve(self.curve(), other.curve()) && self.coords().2 != 0 && other.coords().2
                == 0 ==> r is Ok && r->Ok_0.coords() == self.coords(),
            r is Ok ==> on_curve(
                self.curve(),
                r->Ok_0.coords().0,
                r->Ok_0.coords().1,
                r->Ok_0.coords().2,
            ),
    {
        proof {
            use_type_invariant(self);
            use_type_invariant(other);
            lemma_identity_on_curve(self.curve());
        }
        if self.e != other.e {
            return Err(Error::GroupMismatch);
        }
        if self.c.z.is_zero() {
            let c = ProyCoordinates {
                x: other.c.x.clone(),
                y: other.c.y.clone(),
                z: other.c.z.clone(),
            };
            return Ok(Point { e: self.e.clone(), c });
        }
        if other.c.z.is_zero() {
            return Ok(self.clone());
        }
        if self == other {
            return self.double();
        }
        let f = &self.e.f;
        let (a, b) = (&self.e.a, &self.e.b);
        let (x1, y1, z1) = (&self.c.x, &self.c.y, &self.c.z);
        let (x2, y2, z2) = (&other.c.x, &other.c.y, &other.c.z);
        let y2z1 = f.mul(y2, z1);
        let y1z2 = f.mul(y1, z2);
        let u = f.sub(&y2z1, &y1z2);
        let x2z1 = f.mul(x2, z1);
        let x1z2 = f.mul(x1, z2);
        let v = f.sub(&x2z1, &x1z2);
        let w = f.mul(z1, z2);
        let uu = f.mul(&u, &u);
        let vv = f.mul(&v, &v);
        let vvv = f.mul(&vv, &v);
        let buu = f.mul(b, &uu);
        let buuw = f.mul(&buu, &w);
        let avv = f.mul(a, &vv);
        let avvw = f.mul(&avv, &w);
        let sx = f.add(&x1z2, &x2z1);
        let vvsx = f.mul(&vv, &sx);
        let n0 = f.sub(&buuw, &avvw);
        let n = f.sub(&n0, &vvsx);
        let r = f.mul(&vv, &x1z2);
        let x3 = f.mul(&v, &n);
        let rn = f.sub(&r, &n);
        let urn = f.mul(&u, &rn);
        let vy = f.mul(&vvv, &y1z2);
        let y3 = f.sub(&urn, &vy);
        let z3 = f.mul(&vvv, &w);
        proof {
            let p = self.curve().p;
            let (ai, bi) = (self.curve().a as int, self.curve().b as int);
            let (x1i, y1i, z1i) = ints(self.coords());
            let (x2i, y2i, z2i) = ints(other.coords());
            lemma_track_element(p, a@);
            lemma_track_element(p, b@);
            lemma_track_element(p, x1@);
            lemma_track_element(p, y1@);
            lemma_track_element(p, z1@);
            lemma_track_element(p, x2@);
            lemma_track_element(p, y2@);
            lemma_track_element(p, z2@);
            lemma_track_mul(p, y2@, z1@, y2i, z1i);
            lemma_track_mul(p, y1@, z2@, y1i, z2i);
            lemma_track_sub(p, y2z1@, y1z2@, y2i * z1i, y1i * z2i);
            let ui = y2i * z1i - y1i * z2i;
            lemma_track_mul(p, x2@, z1@, x2i, z1i);
            lemma_track_mul(p, x1@, z2@, x1i, z2i);
            lemma_track_sub(p, x2z1@, x1z2@, x2i * z1i, x1i * z2i);
            let vi = x2i * z1i - x1i * z2i;
            lemma_track_mul(p, z1@, z2@, z1i, z2i);
            let wi = z1i * z2i;
            lemma_track_mul(p, u@, u@, ui, ui);
            lemma_track_mul(p, v@, v@, vi, vi);
            let vvi = vi * vi;
            lemma_track_mul(p, vv@, v@, vvi, vi);
            lemma_track_mul(p, b@, uu@, bi, ui * ui);
            lemma_track_mul(p, buu@, w@, bi * (ui * ui), wi);
            lemma_track_mul(p, a@, vv@, ai, vvi);
            lemma_track_mul(p, avv@, w@, ai * vvi, wi);
            lemma_track_add(p, x1z2@, x2z1@, x1i * z2i, x2i * z1i);
            lemma_track_mul(p, vv@, sx@, vvi, x1i * z2i + x2i * z1i);
            lemma_track_sub(p, buuw@, avvw@, bi * (ui * ui) * wi, ai * vvi * wi);
            lemma_track_sub(
                p,
                n0@,
                vvsx@,
                bi * (ui * ui) * wi - ai * vvi * wi,
                vvi * (x1i * z2i + x2i * z1i),
            );
            let ni = bi * (ui * ui) * wi - ai * vvi * wi - vvi * (x1i * z2i + x2i * z1i);
            lemma_track_mul(p, vv@, x1z2@, vvi, x1i * z2i);
            lemma_track_mul(p, v@, n@, vi, ni);
            lemma_track_sub(p, r@, n@, vvi * (x1i * z2i), ni);
            lemma_track_mul(p, u@, rn@, ui, vvi * (x1i * z2i) - ni);
            lemma_track_mul(p, vvv@, y1z2@, vvi * vi, y1i * z2i);
            lemma_track_sub(
                p,
                urn@,
                vy@,
                ui * (vvi * (x1i * z2i) - ni),
                (vvi * vi) * (y1i * z2i),
            );
            lemma_track_mul(p, vvv@, w@, vvi * vi, wi);
            assert((x3@, y3@, z3@) == reduced(
                p,
                add_formula(ai, bi, (x1i, y1i, z1i), (x2i, y2i, z2i)),
            ));
        }
        self.e.accept(x3, y3, z3)
    }

    /// The multiple of the point by a scalar of the group of its curve, by
    /// doubling and adding from the most significant bit; `GroupMismatch`
    /// where the order of the scalar is not that of the curve.
    pub fn mul(&self, k: &Scalar) -> (r: Result<Point, Error>)
        ensures
            k.order() != self.curve().r ==> r is Err && r->Err_0 == Error::GroupMismatch,
            k.order() == self.curve().r ==> is_point_result(
                r,
                self.curve(),
                spec_mul(self.curve(), bits_msb_first(k.value()), self.coords()),
            ),
            r is Ok ==> on_curve(
                self.curve(),
                r->Ok_0.coords().0,
                r->Ok_0.coords().1,
                r->Ok_0.coords().2,
            ),
    {
        proof {
            use_type_invariant(self);
        }
        if k.get_order() != self.e.r {
            return Err(Error::GroupMismatch);
        }
        let ghost c = self.curve();
        let ghost pt = self.coords();
        let ghost bits = bits_msb_first(k.value());
        let ghost mut done: Seq<bool> = Seq::empty();
        let mut it = k.iter_lr();
        let mut acc = self.e.identity();
        let mut next = it.next();
        assert(done + pending(next, it.remaining()) =~= bits);
        while next.is_some()
            invariant
                c == self.curve(),
                pt == self.coords(),
                k.order() == c.r,
                bits == bits_msb_first(k.value()),
                acc.curve() == c,
                spec_mul(c, done, pt) == Ok::<(nat, nat, nat), Error>(acc.coords()),
                done + pending(next, it.remaining()) == bits,
                next.is_none() ==> it.remaining().len() == 0,
            decreases pending(next, it.remaining()).len(),
        {
            let bit = next.unwrap();
            let ghost after = done.push(bit);
            let ghost rest = it.remaining();
            proof {
                assert(after.drop_last() =~= done);
                assert(after + rest =~= bits);
            }
            let doubled = match acc.double() {
                Ok(d) => d,
                Err(e) => {
                    proof {
                        assert(spec_mul(c, after, pt) == Err::<(nat, nat, nat), Error>(e));
                        lemma_mul_failure_stays(c, after, rest, pt);
                    }
                    return Err(e);
                },
            };
            acc = if bit {
                match doubled.add(self) {
                    Ok(s) => s,
                    Err(e) => {
                        proof {
                            assert(spec_mul(c, after, pt) == Err::<(nat, nat, nat), Error>(e));
                            lemma_mul_failure_stays(c, after, rest, pt);
                        }
                        return Err(e);
                    },
                }
            } else {
                doubled
            };
            assert(spec_mul(c, after, pt) == Ok::<(nat, nat, nat), Error>(acc.coords()));
            next = it.next();
            proof {
                done = after;
                assert(rest =~= pending(next, it.remaining()));
            }
        }
        proof {
            assert(done + pending(next, it.remaining()) =~= done);
            use_type_invariant(&acc);
        }
        Ok(acc)
    }
}

/// The product `k P` of a scalar and a point, which is the product `P k`.
pub fn scalar_mul(k: &Scalar, pt: &Point) -> (r: Result<Point, Error>)
    ensures
        k.order() != pt.curve().r ==> r is Err && r->Err_0 == Error::GroupMismatch,
        k.order() == pt.curve().r ==> is_point_result(
            r,
            pt.curve(),
            spec_mul(pt.curve(), bits_msb_first(k.value()), pt.coords()),
        ),
        r is Ok ==> on_curve(
            pt.curve(),
            r->Ok_0.coords().0,
            r->Ok_0.coords().1,
            r->Ok_0.coords().2,
        ),
{
    pt.mul(k)
}

} // verus!
