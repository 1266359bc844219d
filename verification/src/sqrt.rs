//! Square roots in a prime field.
//!
//! Modulo a prime that is 3 modulo 4 a root of `a` is a power of `a`. Modulo
//! any other odd prime it is found by the method of Tonelli and Shanks, which
//! needs an element that is no square. Whatever is found is squared and
//! compared with `a` before it is given out, so that nothing but a root is
//! returned whatever the modulus; that a root of every square is found is
//! proved for prime moduli.

use crate::bignum::bit_length;
use crate::fermat::{lemma_fermat, lemma_power_of_square, units};
use crate::field::lemma_sub_is_zero;
use crate::polynomial::{eval, lemma_eval_power_minus_one, lemma_root_bound, power_minus_one};
use crate::field::{
    fmul, fneg, fpow, is_prime, lemma_mul_congruent, lemma_sign_of_negation, lemma_square_roots, Fp,
};
use crate::uint::Uint;
use vstd::arithmetic::div_mod::{lemma_mod_bound, lemma_mod_twice, lemma_small_mod};
use vstd::arithmetic::power::{
    lemma0_pow, lemma_pow1, lemma_pow_adds, lemma_pow_mod_noop, lemma_pow_multiplies, pow,
};
use vstd::arithmetic::power2::{lemma2_to64, lemma_pow2_unfold, pow2};
use vstd::prelude::*;

verus! {

/// The odd number that is left of `n` once every factor 2 is taken out.
pub open spec fn odd_part(n: nat) -> nat
    decreases n,
{
    if n == 0 || n % 2 == 1 {
        n
    } else {
        odd_part(n / 2)
    }
}

/// How many factors 2 the number `n` has.
pub open spec fn two_adicity(n: nat) -> nat
    decreases n,
{
    if n == 0 || n % 2 == 1 {
        0
    } else {
        1 + two_adicity(n / 2)
    }
}

/// Whether `z` passes Euler's test for an element that is no square.
pub open spec fn is_non_residue(p: nat, z: nat) -> bool {
    fpow(p, z, ((p - 1) / 2) as nat) == p - 1
}

/// The least element from `from` upwards that passes Euler's test for an
/// element that is no square.
pub open spec fn least_non_residue(p: nat, from: nat) -> Option<nat>
    decreases p - from,
{
    if from >= p {
        None
    } else if is_non_residue(p, from) {
        Some(from)
    } else {
        least_non_residue(p, from + 1)
    }
}

/// `c` squared `k` times: `c` to the power `2^k`.
pub open spec fn squared_times(p: nat, c: nat, k: nat) -> nat
    decreases k,
{
    if k == 0 {
        c
    } else {
        squared_times(p, fmul(p, c, c), (k - 1) as nat)
    }
}

/// Counting from `i`, how often `t` is squared until it is 1, or `m` where
/// that takes `m` squarings or more.
pub open spec fn squarings_to_one(p: nat, t: nat, i: nat, m: nat) -> nat
    decreases m - i,
{
    if i >= m || t == 1 {
        i
    } else {
        squarings_to_one(p, fmul(p, t, t), i + 1, m)
    }
}

/// The method of Tonelli and Shanks from the state `(x, t, c, m)`, in which
/// `x^2 = a t` and `c` has order `2^m`: where `t` is 1, `x` is the root;
/// otherwise `t` takes `i` squarings to become 1, and with
/// `b = c^(2^(m - i - 1))` the state becomes `(x b, t b^2, b^2, i)`.
pub open spec fn tonelli_shanks(p: nat, x: nat, t: nat, c: nat, m: nat) -> nat
    decreases m,
{
    let i = squarings_to_one(p, t, 0, m);
    if i == 0 || i >= m {
        x
    } else {
        let b = squared_times(p, c, (m - i - 1) as nat);
        let bb = fmul(p, b, b);
        tonelli_shanks(p, fmul(p, x, b), fmul(p, t, bb), bb, i)
    }
}

/// Whether `a` is the square of an element of the field.
pub open spec fn is_square(p: nat, a: nat) -> bool {
    exists|y: nat| y < p && a % p == fmul(p, y, y)
}

/// The square root that `sqrt` tries. Modulo 2 it is `a` itself. Modulo a
/// number that is 3 modulo 4 it is `a^((p + 1) / 4)`. Otherwise, with
/// `p - 1 = q 2^s` for an odd `q` and the least `z` that is no square, it is
/// what the method of Tonelli and Shanks gives from
/// `(a^((q + 1) / 2), a^q, z^q, s)`.
pub open spec fn sqrt_candidate(p: nat, a: nat) -> nat {
    if p == 2 {
        a % 2
    } else if p % 4 == 3 {
        fpow(p, a, (p + 1) / 4)
    } else {
        match least_non_residue(p, 2) {
            None => 0,
            Some(z) => {
                let q = odd_part((p - 1) as nat);
                let s = two_adicity((p - 1) as nat);
                tonelli_shanks(p, fpow(p, a, (q + 1) / 2), fpow(p, a, q), fpow(p, z, q), s)
            },
        }
    }
}

/// The square root of `a` that `sqrt` finds: what it tries, where that
/// squares to `a`.
pub open spec fn fsqrt(p: nat, a: nat) -> Option<nat> {
    let c = sqrt_candidate(p, a);
    if c < p && fmul(p, c, c) == a % p {
        Some(c)
    } else {
        None
    }
}

/// A number has no more factors 2 than it has bits.
pub proof fn lemma_two_adicity_bound(n: nat)
    ensures
        two_adicity(n) <= bit_length(n),
    decreases n,
{
    if n != 0 && n % 2 == 0 {
        lemma_two_adicity_bound(n / 2);
    }
}

/// A number is its odd part times a power of two.
pub proof fn lemma_odd_part(n: nat)
    requires
        n > 0,
    ensures
        n == odd_part(n) * pow2(two_adicity(n)),
        odd_part(n) % 2 == 1,
    decreases n,
{
    lemma2_to64();
    if n % 2 == 0 {
        lemma_odd_part(n / 2);
        lemma_pow2_unfold(two_adicity(n));
        let q = odd_part(n / 2);
        let h = pow2(two_adicity(n / 2));
        assert(odd_part(n) == q);
        assert(two_adicity(n) == 1 + two_adicity(n / 2));
        assert(pow2(two_adicity(n)) == 2 * h);
        assert(n == 2 * (n / 2));
        assert(q * (2 * h) == 2 * (q * h)) by (nonlinear_arith);
    } else {
        assert(odd_part(n) == n && two_adicity(n) == 0);
        assert(n * 1 == n) by (nonlinear_arith);
    }
}

/// What the search for an element that is no square finds passes Euler's test.
pub proof fn lemma_least_non_residue(p: nat, from: nat)
    requires
        least_non_residue(p, from) is Some,
    ensures
        is_non_residue(p, least_non_residue(p, from)->Some_0),
        from <= least_non_residue(p, from)->Some_0 < p,
    decreases p - from,
{
    if from < p && !is_non_residue(p, from) {
        lemma_least_non_residue(p, from + 1);
    }
}

/// The search for an element that is no square finds one wherever there is one.
pub proof fn lemma_search_finds(p: nat, from: nat, z: nat)
    requires
        from <= z < p,
        is_non_residue(p, z),
    ensures
        least_non_residue(p, from) is Some,
    decreases z - from,
{
    if from < z && !is_non_residue(p, from) {
        lemma_search_finds(p, from + 1, z);
    }
}

/// Modulo an odd prime some element passes Euler's test for an element that
/// is no square: were `x^((p - 1) / 2)` equal to 1 for every `x` from 1 to
/// `p - 1`, the polynomial `X^((p - 1) / 2) - 1` would have more roots than
/// its degree.
pub proof fn lemma_non_residue_exists(p: nat)
    requires
        is_prime(p),
        p > 2,
    ensures
        least_non_residue(p, 2) is Some,
{
    let n = p as int;
    let e = ((p - 1) / 2) as nat;
    assert(p % 2 == 1);
    assert(2 * e == p - 1);
    lemma_small_mod(1, p);
    lemma_small_mod(0, p);
    if forall|x: int| 1 <= x < p ==> #[trigger] pow(x, e) % n == 1 {
        let c = power_minus_one(e);
        let roots = units((p - 1) as nat);
        assert(roots.no_duplicates());
        assert forall|i: int| 0 <= i < roots.len() implies 0 <= #[trigger] roots[i] < p && eval(
            c,
            roots[i],
        ) % n == 0 by {
            let x = roots[i];
            lemma_eval_power_minus_one(e, x);
            assert(pow(x, e) % n == 1);
            lemma_sub_is_zero(n, pow(x, e), 1);
        }
        lemma_eval_power_minus_one(e, 0);
        lemma_root_bound(p, c, roots);
        assert(false);
    } else {
        let x = choose|x: int| 1 <= x < p && #[trigger] pow(x, e) % n != 1;
        let w = fpow(p, x as nat, e);
        lemma_mod_bound(pow(x, e), n);
        lemma_small_mod(x as nat, p);
        // w^2 = x^(p - 1) = 1, and w is not 1, so w is -1
        assert(fmul(p, w, w) == 1) by {
            lemma_mod_twice(pow(x, e), n);
            lemma_mul_congruent(n, w as int, pow(x, e), w as int, pow(x, e));
            lemma_pow_adds(x, e, e);
            lemma_fermat(p, x);
        }
        assert(fmul(p, 1, 1) == 1);
        lemma_square_roots(p, w, 1);
        lemma_sign_of_negation(p, 1);
        assert(fneg(p, 1) == p - 1) by {
            vstd::arithmetic::div_mod::lemma_mod_add_multiples_vanish(-1, n);
            lemma_small_mod((p - 1) as nat, p);
        }
        assert(is_non_residue(p, x as nat));
        if x == 1 {
            vstd::arithmetic::power::lemma1_pow(e);
        }
        lemma_search_finds(p, 2, x as nat);
    }
}

/// One more squaring squares the result.
pub proof fn lemma_squared_step(p: nat, c: nat, k: nat)
    ensures
        squared_times(p, c, k + 1) == fmul(p, squared_times(p, c, k), squared_times(p, c, k)),
    decreases k,
{
    if k > 0 {
        lemma_squared_step(p, fmul(p, c, c), (k - 1) as nat);
    } else {
        assert(squared_times(p, c, 1) == squared_times(p, fmul(p, c, c), 0));
    }
}

/// Squaring `j` times and then `k` times is squaring `j + k` times.
pub proof fn lemma_squared_add(p: nat, c: nat, j: nat, k: nat)
    ensures
        squared_times(p, squared_times(p, c, j), k) == squared_times(p, c, j + k),
    decreases j,
{
    if j > 0 {
        lemma_squared_add(p, fmul(p, c, c), (j - 1) as nat, k);
    }
}

/// Squaring a product squares its factors.
pub proof fn lemma_squared_mul(p: nat, u: nat, v: nat, k: nat)
    requires
        p > 0,
    ensures
        squared_times(p, fmul(p, u, v), k) == fmul(
            p,
            squared_times(p, u, k),
            squared_times(p, v, k),
        ),
    decreases k,
{
    let m = p as int;
    if k > 0 {
        let uv = fmul(p, u, v);
        let (uu, vv) = (fmul(p, u, u), fmul(p, v, v));
        assert(fmul(p, uv, uv) == fmul(p, uu, vv)) by {
            lemma_mod_twice((u * v) as int, m);
            lemma_mod_twice((u * u) as int, m);
            lemma_mod_twice((v * v) as int, m);
            lemma_mul_congruent(m, uv as int, (u * v) as int, uv as int, (u * v) as int);
            lemma_mul_congruent(m, uu as int, (u * u) as int, vv as int, (v * v) as int);
            assert((u * v) * (u * v) == (u * u) * (v * v)) by (nonlinear_arith);
        }
        lemma_squared_mul(p, uu, vv, (k - 1) as nat);
    }
}

/// Squaring `k` times raises to the power `2^k`.
pub proof fn lemma_squared_is_power(p: nat, u: int, k: nat)
    requires
        p > 0,
    ensures
        squared_times(p, (u % (p as int)) as nat, k) == pow(u, pow2(k)) % (p as int),
    decreases k,
{
    let m = p as int;
    lemma2_to64();
    lemma_mod_bound(u, m);
    if k == 0 {
        lemma_pow1(u);
    } else {
        let j = (k - 1) as nat;
        let r = (u % m) as nat;
        lemma_squared_is_power(p, u, j);
        lemma_squared_step(p, r, j);
        let h = pow(u, pow2(j));
        lemma_mod_twice(h, m);
        lemma_mul_congruent(m, h % m, h, h % m, h);
        lemma_pow_adds(u, pow2(j), pow2(j));
        lemma_pow2_unfold(k);
    }
}

/// `squarings_to_one` counts up to the first squaring that gives 1.
pub proof fn lemma_squarings(p: nat, u: nat, j: nat, m: nat)
    requires
        j <= m,
    ensures
        j <= squarings_to_one(p, u, j, m) <= m,
        squarings_to_one(p, u, j, m) < m ==> squared_times(
            p,
            u,
            (squarings_to_one(p, u, j, m) - j) as nat,
        ) == 1,
        forall|k: nat|
            j <= k < squarings_to_one(p, u, j, m) ==> #[trigger] squared_times(
                p,
                u,
                (k - j) as nat,
            ) != 1,
    decreases m - j,
{
    if !(j >= m || u == 1) {
        let uu = fmul(p, u, u);
        lemma_squarings(p, uu, j + 1, m);
        let i = squarings_to_one(p, u, j, m);
        assert forall|k: nat| j <= k < i implies #[trigger] squared_times(p, u, (k - j) as nat)
            != 1 by {
            if k > j {
                assert(squared_times(p, uu, (k - (j + 1)) as nat) != 1);
            }
        }
    }
}

/// Zero never becomes 1 by squaring.
pub proof fn lemma_squarings_of_zero(p: nat, j: nat, m: nat)
    requires
        p >= 2,
        j <= m,
    ensures
        squarings_to_one(p, 0, j, m) == m,
    decreases m - j,
{
    if j < m {
        lemma_small_mod(0, p);
        lemma_squarings_of_zero(p, j + 1, m);
    }
}

/// The method of Tonelli and Shanks ends with a square root of `a`, from
/// every state `(x, t, c, m)` in which `x^2 = a t`, `t` becomes 1 after
/// `m - 1` squarings and `c` becomes -1 after `m - 1` squarings.
pub proof fn lemma_tonelli_shanks(p: nat, a: nat, x: nat, t: nat, c: nat, m: nat)
    requires
        is_prime(p),
        p > 2,
        x < p,
        t < p,
        c < p,
        m >= 1,
        fmul(p, x, x) == fmul(p, a, t),
        squared_times(p, t, (m - 1) as nat) == 1,
        squared_times(p, c, (m - 1) as nat) == p - 1,
    ensures
        tonelli_shanks(p, x, t, c, m) < p,
        fmul(p, tonelli_shanks(p, x, t, c, m), tonelli_shanks(p, x, t, c, m)) == a % p,
    decreases m,
{
    let n = p as int;
    let i = squarings_to_one(p, t, 0, m);
    lemma_squarings(p, t, 0, m);
    lemma_small_mod(1, p);
    if i >= m {
        assert(squared_times(p, t, ((m - 1) as nat - 0) as nat) != 1);
    } else if i == 0 {
        assert(t == 1);
        assert(a * 1 == a) by (nonlinear_arith);
    } else {
        // t squared i - 1 times is a root of 1 other than 1, so it is -1
        let before = squared_times(p, t, (i - 1) as nat);
        assert(squared_times(p, t, ((i - 1) as nat - 0) as nat) != 1);
        lemma_squared_step(p, t, (i - 1) as nat);
        lemma_squared_step(p, t, (i - 2) as nat);
        lemma_mod_bound((t * t) as int, n);
        assert(before < p) by {
            if i >= 2 {
                let w = squared_times(p, t, (i - 2) as nat);
                lemma_mod_bound((w * w) as int, n);
            }
        }
        assert(fmul(p, 1, 1) == 1);
        lemma_square_roots(p, before, 1);
        lemma_sign_of_negation(p, 1);
        assert(p % 2 == 1);
        assert(fneg(p, 1) == p - 1) by {
            vstd::arithmetic::div_mod::lemma_mod_add_multiples_vanish(-1, n);
            lemma_small_mod((p - 1) as nat, p);
        }
        assert(before == p - 1);
        let b = squared_times(p, c, (m - i - 1) as nat);
        let bb = fmul(p, b, b);
        let (x2, t2) = (fmul(p, x, b), fmul(p, t, bb));
        lemma_squared_step(p, c, (m - i - 1) as nat);
        assert(bb == squared_times(p, c, (m - i) as nat));
        lemma_mod_bound((b * b) as int, n);
        lemma_mod_bound((x * b) as int, n);
        lemma_mod_bound((t * bb) as int, n);
        // the new x squares to a times the new t
        assert(fmul(p, x2, x2) == fmul(p, a, t2)) by {
            lemma_mod_twice((x * b) as int, n);
            lemma_mod_twice((x * x) as int, n);
            lemma_mod_twice((b * b) as int, n);
            lemma_mod_twice((a * t) as int, n);
            lemma_mod_twice((t * bb) as int, n);
            lemma_mul_congruent(n, x2 as int, (x * b) as int, x2 as int, (x * b) as int);
            assert((x * b) * (x * b) == (x * x) * (b * b)) by (nonlinear_arith);
            lemma_mul_congruent(n, (x * x) as int, (a * t) as int, (b * b) as int, bb as int);
            assert((a * t) * bb == a * (t * bb)) by (nonlinear_arith);
            lemma_mul_congruent(n, a as int, a as int, (t * bb) as int, t2 as int);
        }
        // the new t becomes 1, and the new c becomes -1, after i - 1 squarings
        lemma_squared_mul(p, t, bb, (i - 1) as nat);
        lemma_squared_add(p, c, (m - i) as nat, (i - 1) as nat);
        assert(squared_times(p, bb, (i - 1) as nat) == p - 1);
        assert(fmul(p, (p - 1) as nat, (p - 1) as nat) == 1) by {
            assert((p - 1) * (p - 1) == n * (n - 2) + 1) by (nonlinear_arith)
                requires
                    n == p,
            ;
            vstd::arithmetic::div_mod::lemma_mod_multiples_vanish(n - 2, 1, n);
        }
        lemma_tonelli_shanks(p, a, x2, t2, bb, i);
    }
}

/// Modulo a prime that is 3 modulo 4, the power `(p + 1) / 4` of a square is
/// one of its square roots.
pub proof fn lemma_power_is_root(p: nat, a: nat, y: nat)
    requires
        is_prime(p),
        p % 4 == 3,
        y < p,
        a % p == fmul(p, y, y),
    ensures
        fpow(p, a, (p + 1) / 4) < p,
        fmul(p, fpow(p, a, (p + 1) / 4), fpow(p, a, (p + 1) / 4)) == a % p,
{
    let n = p as int;
    let ai = a as int;
    let k = (p + 1) / 4;
    let e = ((p - 1) / 2) as nat;
    let c = fpow(p, a, k);
    let yy = (y as int) * (y as int);
    lemma_mod_bound(pow(ai, k), n);
    lemma_mod_twice(pow(ai, k), n);
    lemma_small_mod(y, p);
    lemma_small_mod(0, p);
    lemma_small_mod(1, p);
    assert(ai % n == yy % n);
    if y == 0 {
        assert(yy == 0) by (nonlinear_arith)
            requires
                yy == (y as int) * (y as int),
                y == 0,
        ;
        lemma_pow_mod_noop(ai, k, n);
        lemma0_pow(k);
        assert(c == 0);
        assert(fmul(p, c, c) == 0);
    } else {
        // c^2 = a^(2 k) = a^e a, and a^e = (y y)^e = 1
        lemma_mul_congruent(n, c as int, pow(ai, k), c as int, pow(ai, k));
        lemma_pow_adds(ai, k, k);
        assert(k + k == e + 1);
        lemma_pow_adds(ai, e, 1);
        lemma_pow1(ai);
        assert(pow(ai, k) * pow(ai, k) == pow(ai, e) * ai);
        lemma_pow_mod_noop(ai, e, n);
        lemma_pow_mod_noop(yy, e, n);
        lemma_power_of_square(p, y as int);
        assert(pow(ai, e) % n == 1);
        lemma_mul_congruent(n, pow(ai, e), 1, ai, ai);
        assert(1 * ai == ai);
    }
}

/// From its first state the method of Tonelli and Shanks ends with a square
/// root of every square, given an element `z` that is no square.
pub proof fn lemma_tonelli_shanks_start(p: nat, a: nat, y: nat, z: nat)
    requires
        is_prime(p),
        p > 2,
        y < p,
        a % p == fmul(p, y, y),
        is_non_residue(p, z),
    ensures
        ({
            let q = odd_part((p - 1) as nat);
            let r = tonelli_shanks(
                p,
                fpow(p, a, (q + 1) / 2),
                fpow(p, a, q),
                fpow(p, z, q),
                two_adicity((p - 1) as nat),
            );
            r < p && fmul(p, r, r) == a % p
        }),
{
    let n = p as int;
    let ai = a as int;
    assert(p % 2 == 1);
    let q = odd_part((p - 1) as nat);
    let s = two_adicity((p - 1) as nat);
    lemma_odd_part((p - 1) as nat);
    assert(s >= 1);
    let half = pow2((s - 1) as nat);
    lemma_pow2_unfold(s);
    let e = ((p - 1) / 2) as nat;
    assert(q * half == e) by (nonlinear_arith)
        requires
            p - 1 == q * (2 * half),
            e == (p - 1) / 2,
    ;
    let h = (q + 1) / 2;
    let x = fpow(p, a, h);
    let t = fpow(p, a, q);
    let c = fpow(p, z, q);
    lemma_mod_bound(pow(ai, h), n);
    lemma_mod_bound(pow(ai, q), n);
    lemma_mod_bound(pow(z as int, q), n);
    lemma_small_mod(0, p);
    lemma_small_mod(1, p);
    lemma_small_mod(y, p);
    if a % p == 0 {
        lemma_pow_mod_noop(ai, h, n);
        lemma_pow_mod_noop(ai, q, n);
        lemma0_pow(h);
        lemma0_pow(q);
        assert(x == 0 && t == 0);
        lemma_squarings_of_zero(p, 0, s);
        assert(tonelli_shanks(p, x, t, c, s) == 0);
        assert(fmul(p, 0, 0) == 0) by {
            assert(0 * 0 == 0);
        }
    } else {
        let yy = (y as int) * (y as int);
        assert(ai % n == yy % n);
        if y == 0 {
            assert(yy == 0) by (nonlinear_arith)
                requires
                    yy == (y as int) * (y as int),
                    y == 0,
            ;
        }
        assert(y != 0);
        // x^2 = a^(q + 1) = a t
        assert(fmul(p, x, x) == fmul(p, a, t)) by {
            lemma_mod_twice(pow(ai, h), n);
            lemma_mod_twice(pow(ai, q), n);
            lemma_mul_congruent(n, x as int, pow(ai, h), x as int, pow(ai, h));
            lemma_pow_adds(ai, h, h);
            assert(h + h == q + 1);
            lemma_pow_adds(ai, q, 1);
            lemma_pow1(ai);
            lemma_mul_congruent(n, ai, ai, t as int, pow(ai, q));
            assert(pow(ai, q) * ai == ai * pow(ai, q)) by (nonlinear_arith);
        }
        // t squared s - 1 times is a^((p - 1) / 2), which is 1 for a square
        assert(squared_times(p, t, (s - 1) as nat) == 1) by {
            lemma_squared_is_power(p, pow(ai, q), (s - 1) as nat);
            lemma_pow_multiplies(ai, q, half);
            lemma_pow_mod_noop(ai, e, n);
            lemma_pow_mod_noop(yy, e, n);
            lemma_power_of_square(p, y as int);
        }
        // c squared s - 1 times is z^((p - 1) / 2), which is -1
        assert(squared_times(p, c, (s - 1) as nat) == p - 1) by {
            lemma_squared_is_power(p, pow(z as int, q), (s - 1) as nat);
            lemma_pow_multiplies(z as int, q, half);
        }
        lemma_tonelli_shanks(p, a, x, t, c, s);
    }
}

/// Over a prime field `sqrt` finds a square root of every square.
pub proof fn lemma_sqrt_finds_root(p: nat, a: nat, y: nat)
    requires
        is_prime(p),
        y < p,
        a % p == fmul(p, y, y),
    ensures
        fsqrt(p, a) is Some,
{
    if p == 2 {
        let c = a % 2;
        assert(c * c == c) by (nonlinear_arith)
            requires
                c == 0 || c == 1,
        ;
        lemma_mod_twice(a as int, 2);
        assert(sqrt_candidate(p, a) == c);
        assert(fmul(p, c, c) == a % p);
    } else if p % 4 == 3 {
        lemma_power_is_root(p, a, y);
    } else {
        lemma_non_residue_exists(p);
        lemma_least_non_residue(p, 2);
        lemma_tonelli_shanks_start(p, a, y, least_non_residue(p, 2)->Some_0);
    }
}

/// Splits `n` into its odd part and the number of its factors 2.
pub fn split_power_of_two(n: &Uint) -> (r: (Uint, u64))
    ensures
        r.0@ == odd_part(n@),
        r.1 == two_adicity(n@),
{
    let two = Uint::from_u32(2);
    let bits = n.bits();
    proof {
        lemma_two_adicity_bound(n@);
    }
    let mut q = n.clone();
    let mut s: u64 = 0;
    let mut even = !q.is_zero() && q.rem(&two).is_zero();
    while even
        invariant
            two@ == 2,
            odd_part(q@) == odd_part(n@),
            s + two_adicity(q@) == two_adicity(n@),
            two_adicity(n@) <= bits,
            even == (q@ != 0 && q@ % 2 == 0),
        decreases q@,
    {
        q = q.div(&two);
        s = s + 1;
        even = !q.is_zero() && q.rem(&two).is_zero();
    }
    (q, s)
}

impl Fp {
    /// The least element from 2 upwards that passes Euler's test for an
    /// element that is no square, or `None` where no element does. Modulo an
    /// odd prime there is one, and small; modulo another number the search
    /// may go on up to the modulus.
    pub fn non_residue(&self) -> (r: Option<Uint>)
        ensures
            match r {
                Some(z) => least_non_residue(self.modulus(), 2) == Some(z@),
                None => least_non_residue(self.modulus(), 2) is None,
            },
    {
        let p = self.get_modulus();
        let one = Uint::one();
        let minus_one = p.checked_sub(&one).unwrap();
        let e = minus_one.div(&Uint::from_u32(2));
        let mut z = Uint::from_u32(2);
        while z.lt(&p)
            invariant
                p@ == self.modulus(),
                one@ == 1,
                minus_one@ == p@ - 1,
                e@ == (p@ - 1) / 2,
                z@ >= 2,
                least_non_residue(p@, z@) == least_non_residue(p@, 2),
            decreases p@ - z@,
        {
            if self.pow(&z, &e) == minus_one {
                return Some(z);
            }
            z = z.add(&one);
        }
        None
    }

    /// The square root that `sqrt` tries.
    fn sqrt_candidate(&self, a: &Uint) -> (c: Uint)
        ensures
            c@ == sqrt_candidate(self.modulus(), a@),
            c@ < self.modulus(),
    {
        let p = self.get_modulus();
        let one = Uint::one();
        let two = Uint::from_u32(2);
        let four = Uint::from_u32(4);
        if p == two {
            return a.rem(&two);
        }
        if p.rem(&four) == Uint::from_u32(3) {
            let e = p.add(&one).div(&four);
            return self.pow(a, &e);
        }
        let z = match self.non_residue() {
            Some(z) => z,
            None => return Uint::zero(),
        };
        let (q, s) = split_power_of_two(&p.checked_sub(&one).unwrap());
        let e = q.add(&one).div(&two);
        let mut x = self.pow(a, &e);
        let mut t = self.pow(a, &q);
        let mut c = self.pow(&z, &q);
        let mut m = s;
        loop
            invariant
                p@ == self.modulus(),
                one@ == 1,
                x@ < p@,
                tonelli_shanks(p@, x@, t@, c@, m as nat) == sqrt_candidate(p@, a@),
            decreases m,
        {
            let mut i: u64 = 0;
            let mut u = t.clone();
            while i < m && u != one
                invariant
                    p@ == self.modulus(),
                    one@ == 1,
                    i <= m,
                    squarings_to_one(p@, u@, i as nat, m as nat) == squarings_to_one(
                        p@,
                        t@,
                        0,
                        m as nat,
                    ),
                decreases m - i,
            {
                u = self.mul(&u, &u);
                i = i + 1;
            }
            if i == 0 || i >= m {
                return x;
            }
            let mut b = c.clone();
            let mut k = m - i - 1;
            while k > 0
                invariant
                    p@ == self.modulus(),
                    squared_times(p@, b@, k as nat) == squared_times(
                        p@,
                        c@,
                        (m - i - 1) as nat,
                    ),
                decreases k,
            {
                b = self.mul(&b, &b);
                k = k - 1;
            }
            let bb = self.mul(&b, &b);
            x = self.mul(&x, &b);
            t = self.mul(&t, &bb);
            c = bb;
            m = i;
        }
    }

    /// A square root of `a`, or `None` where none is found. Whatever is
    /// returned squares to `a`, and over a prime field a root of every
    /// square is found.
    pub fn sqrt(&self, a: &Uint) -> (r: Option<Uint>)
        ensures
            match r {
                Some(y) => fsqrt(self.modulus(), a@) == Some(y@),
                None => fsqrt(self.modulus(), a@) is None,
            },
            r is Some ==> r->Some_0@ < self.modulus() && fmul(
                self.modulus(),
                r->Some_0@,
                r->Some_0@,
            ) == a@ % self.modulus(),
            r is Some ==> is_square(self.modulus(), a@),
            is_prime(self.modulus()) ==> (r is Some <==> is_square(self.modulus(), a@)),
    {
        proof {
            let p = self.modulus();
            if is_prime(p) && is_square(p, a@) {
                let y = choose|y: nat| y < p && a@ % p == fmul(p, y, y);
                lemma_sqrt_finds_root(p, a@, y);
            }
        }
        let target = self.reduce(a);
        let candidate = self.sqrt_candidate(a);
        if self.mul(&candidate, &candidate) == target {
            Some(candidate)
        } else {
            None
        }
    }
}

} // verus!
