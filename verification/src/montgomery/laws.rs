//! What holds of encoding and decoding points of a Montgomery curve.

use crate::encoding::{
    lemma_parse_of_write, lemma_size_positive, lemma_written_length, FrameModel, TAG_INFINITY,
};
use crate::error::Error;
use crate::field::{
    byte_length, finv, fmul, fneg, invertible, is_inverse, is_prime, lemma_mul_congruent,
    lemma_one_invertible, lemma_prime_invertible, lemma_scaled_monomial, lemma_sign_of_negation,
    lemma_square_roots, sgn0,
};
use crate::montgomery::curve::{
    lemma_equation_congruent, lhs, on_curve, recover_y, rhs, spec_decode, spec_new_point, valid,
    y_squared, CurveModel,
};
use crate::montgomery::point::{affine, frame_of, same_point, spec_encode};
use crate::sqrt::{fsqrt, lemma_sqrt_finds_root};
use vstd::arithmetic::div_mod::{lemma_mod_bound, lemma_mod_twice, lemma_small_mod};
use vstd::prelude::*;

verus! {

/// The equation is homogeneous: where `(x : y : z)` satisfies it, so does
/// `(k x : k y : k z)`.
pub proof fn lemma_scaled_on_curve(p: int, a: int, b: int, x: int, y: int, z: int, k: int)
    requires
        p > 0,
        lhs(b, y, z) % p == rhs(a, x, z) % p,
    ensures
        lhs(b, k * y, k * z) % p == rhs(a, k * x, k * z) % p,
{
    let cube = k * k * k;
    lemma_scaled_monomial(k, b, y, y, z);
    lemma_scaled_monomial(k, 1, x, x, x);
    lemma_scaled_monomial(k, a, x, x, z);
    lemma_scaled_monomial(k, 1, x, z, z);
    assert(rhs(a, k * x, k * z) == cube * rhs(a, x, z)) by {
        let (t1, t2, t3) = (x * x * x, a * x * x * z, x * z * z);
        assert(cube * (t1 + t2 + t3) == cube * t1 + cube * t2 + cube * t3) by (nonlinear_arith);
        assert(1 * (k * x) == k * x && 1 * x == x);
    }
    lemma_mul_congruent(p, cube, cube, lhs(b, y, z), rhs(a, x, z));
}

/// The affine form of a point with an invertible `z` is a point of the
/// curve, and the same point.
pub proof fn lemma_affine_on_curve(c: CurveModel, x: nat, y: nat, z: nat)
    requires
        valid(c),
        x < c.p,
        y < c.p,
        z < c.p,
        invertible(c.p, z),
        on_curve(c, x, y, z),
    ensures
        affine(c.p, (x, y, z)).0 < c.p,
        affine(c.p, (x, y, z)).1 < c.p,
        on_curve(c, affine(c.p, (x, y, z)).0, affine(c.p, (x, y, z)).1, 1),
        same_point(c.p, (x, y, z), (affine(c.p, (x, y, z)).0, affine(c.p, (x, y, z)).1, 1)),
{
    let p = c.p as int;
    let i = finv(c.p, z) as int;
    let (xi, yi, zi) = (x as int, y as int, z as int);
    let ax = affine(c.p, (x, y, z)).0 as int;
    let ay = affine(c.p, (x, y, z)).1 as int;
    assert(is_inverse(c.p, z, finv(c.p, z)));
    lemma_mod_bound(xi * i, p);
    lemma_mod_bound(yi * i, p);
    lemma_mod_twice(xi * i, p);
    lemma_mod_twice(yi * i, p);
    lemma_small_mod(1, c.p);
    lemma_small_mod(x, c.p);
    lemma_small_mod(y, c.p);
    lemma_scaled_on_curve(p, c.a as int, c.b as int, xi, yi, zi, i);
    assert(i * xi == xi * i && i * yi == yi * i && i * zi == zi * i) by (nonlinear_arith);
    lemma_equation_congruent(p, c.a as int, c.b as int, i * xi, i * yi, i * zi, ax, ay, 1);
    // x * 1 = (x * i) * z and y * 1 = (y * i) * z, modulo p
    assert(fmul(c.p, x, 1) == fmul(c.p, ax as nat, z)) by {
        lemma_mul_congruent(p, ax, xi * i, zi, zi);
        lemma_mul_congruent(p, xi, xi, i * zi, 1);
        assert((xi * i) * zi == xi * (i * zi)) by (nonlinear_arith);
    }
    assert(fmul(c.p, y, 1) == fmul(c.p, ay as nat, z)) by {
        lemma_mul_congruent(p, ay, yi * i, zi, zi);
        lemma_mul_congruent(p, yi, yi, i * zi, 1);
        assert((yi * i) * zi == yi * (i * zi)) by (nonlinear_arith);
    }
}

/// The neutral element is written as the single byte `0x00`, compressed or
/// not, and that byte is read as the neutral element `(0 : 1 : 0)`.
pub proof fn lemma_identity_round_trip(c: CurveModel, x: nat, y: nat, compress: bool)
    requires
        valid(c),
    ensures
        spec_encode(c.p, (x, y, 0), compress) == seq![TAG_INFINITY],
        spec_decode(c, seq![TAG_INFINITY]) == Ok::<(nat, nat, nat), Error>((0, 1, 0)),
{
    lemma_size_positive(c.p);
    lemma_parse_of_write(c.p, FrameModel::Infinity);
}

/// The length of an encoded point: 1 for the neutral element, otherwise one
/// more than the size of a field element when compressed, and one more than
/// twice that size when not.
pub proof fn lemma_encoded_length(p: nat, c: (nat, nat, nat), compress: bool)
    ensures
        spec_encode(p, c, compress).len() == if c.2 == 0 {
            1
        } else if compress {
            byte_length(p) + 1
        } else {
            2 * byte_length(p) + 1
        },
{
    lemma_written_length(p, frame_of(p, c, compress));
}

/// Decoding the uncompressed encoding of a point of the curve, other than
/// the neutral element, gives the same point in affine form.
pub proof fn lemma_round_trip_uncompressed(c: CurveModel, x: nat, y: nat, z: nat)
    requires
        valid(c),
        x < c.p,
        y < c.p,
        0 < z < c.p,
        invertible(c.p, z),
        on_curve(c, x, y, z),
    ensures
        spec_decode(c, spec_encode(c.p, (x, y, z), false)) == Ok::<(nat, nat, nat), Error>(
            (affine(c.p, (x, y, z)).0, affine(c.p, (x, y, z)).1, 1),
        ),
        same_point(c.p, (x, y, z), (affine(c.p, (x, y, z)).0, affine(c.p, (x, y, z)).1, 1)),
{
    lemma_affine_on_curve(c, x, y, z);
    lemma_one_invertible(c.p);
    lemma_parse_of_write(c.p, frame_of(c.p, (x, y, z), false));
}

/// Over a prime field, all coordinates that satisfy the equation, unless
/// all are zero, are those of a point.
pub proof fn lemma_prime_field_points(c: CurveModel, x: nat, y: nat, z: nat)
    requires
        is_prime(c.p),
        x < c.p,
        y < c.p,
        z < c.p,
        (x, y, z) != (0nat, 0nat, 0nat),
        on_curve(c, x, y, z),
    ensures
        spec_new_point(c, x, y, z) == Ok::<(nat, nat, nat), Error>((x, y, z)),
{
    if z != 0 {
        lemma_prime_invertible(c.p, z);
    }
}

/// Solved for `y^2`, the equation gives the square of the `y` of every
/// affine point, where `b` has an inverse.
pub proof fn lemma_y_squared(c: CurveModel, x: nat, y: nat)
    requires
        valid(c),
        invertible(c.p, c.b),
        x < c.p,
        y < c.p,
        on_curve(c, x, y, 1),
    ensures
        y_squared(c, x) == fmul(c.p, y, y),
{
    let p = c.p as int;
    let (xi, yi, bi) = (x as int, y as int, c.b as int);
    let i = finv(c.p, c.b) as int;
    let r = rhs(c.a as int, xi, 1);
    assert(is_inverse(c.p, c.b, finv(c.p, c.b)));
    lemma_small_mod(1, c.p);
    lemma_mod_twice(r, p);
    // (r % p) * i = (b y^2) * i = (b * i) * y^2 = y^2, modulo p
    lemma_mul_congruent(p, r % p, lhs(bi, yi, 1), i, i);
    assert(lhs(bi, yi, 1) * i == (bi * i) * (yi * yi)) by (nonlinear_arith);
    lemma_mul_congruent(p, bi * i, 1, yi * yi, yi * yi);
}

/// Decoding the compressed encoding of a point of a curve over a prime
/// field, other than the neutral element, gives the same point in affine
/// form.
pub proof fn lemma_round_trip_compressed(c: CurveModel, x: nat, y: nat, z: nat)
    requires
        valid(c),
        is_prime(c.p),
        x < c.p,
        y < c.p,
        0 < z < c.p,
        on_curve(c, x, y, z),
    ensures
        spec_decode(c, spec_encode(c.p, (x, y, z), true)) == Ok::<(nat, nat, nat), Error>(
            (affine(c.p, (x, y, z)).0, affine(c.p, (x, y, z)).1, 1),
        ),
        same_point(c.p, (x, y, z), (affine(c.p, (x, y, z)).0, affine(c.p, (x, y, z)).1, 1)),
{
    let p = c.p;
    lemma_prime_invertible(p, z);
    lemma_one_invertible(p);
    lemma_prime_invertible(p, c.b);
    lemma_affine_on_curve(c, x, y, z);
    let ax = affine(p, (x, y, z)).0;
    let ay = affine(p, (x, y, z)).1;
    let odd = sgn0(p, ay) == 1;
    lemma_parse_of_write(p, frame_of(p, (x, y, z), true));
    lemma_y_squared(c, ax, ay);
    lemma_small_mod(fmul(p, ay, ay), p);
    lemma_sqrt_finds_root(p, y_squared(c, ax), ay);
    let root = fsqrt(p, y_squared(c, ax))->Some_0;
    lemma_mod_bound((root * root) as int, p as int);
    lemma_mod_bound((ay * ay) as int, p as int);
    lemma_small_mod(fmul(p, ay, ay), p);
    lemma_square_roots(p, root, ay);
    if p == 2 {
        // modulo 2 every element is its own negation
        assert(fneg(p, 0) == 0 && fneg(p, 1) == 1);
    } else {
        assert(p % 2 == 1);
        lemma_sign_of_negation(p, ay);
    }
    assert(recover_y(c, ax, odd) == Some(ay));
}

} // verus!
