//! Polynomials with integer coefficients, and how many roots one can have
//! modulo a prime.

use crate::fermat::lemma_prime_divides_product;
use crate::field::{is_prime, lemma_sub_is_zero};
use vstd::arithmetic::div_mod::lemma_small_mod;
use vstd::arithmetic::power::{lemma_pow0, lemma_pow1, lemma_pow_adds, pow};
use vstd::prelude::*;

verus! {

/// The value at `x` of the polynomial with the coefficients `c`, the
/// constant one first.
pub open spec fn eval(c: Seq<int>, x: int) -> int
    decreases c.len(),
{
    if c.len() == 0 {
        0
    } else {
        c[0] + x * eval(c.drop_first(), x)
    }
}

/// The quotient of the polynomial `c` by `X - r`.
pub open spec fn quotient(c: Seq<int>, r: int) -> Seq<int>
    decreases c.len(),
{
    if c.len() <= 1 {
        Seq::empty()
    } else {
        seq![eval(c.drop_first(), r)] + quotient(c.drop_first(), r)
    }
}

/// The quotient by `X - r` has one coefficient less and the same leading one.
pub proof fn lemma_quotient_shape(c: Seq<int>, r: int)
    requires
        c.len() >= 1,
    ensures
        quotient(c, r).len() == c.len() - 1,
        c.len() >= 2 ==> quotient(c, r).last() == c.last(),
    decreases c.len(),
{
    if c.len() >= 2 {
        let rest = c.drop_first();
        lemma_quotient_shape(rest, r);
        if c.len() == 2 {
            assert(rest.drop_first().len() == 0);
            assert(eval(rest.drop_first(), r) == 0);
            assert(eval(rest, r) == rest[0]);
            assert(quotient(rest, r).len() == 0);
        }
    }
}

/// Division by `X - r` leaves the value at `r` as remainder.
pub proof fn lemma_division(c: Seq<int>, r: int, x: int)
    ensures
        eval(c, x) == (x - r) * eval(quotient(c, r), x) + eval(c, r),
    decreases c.len(),
{
    if c.len() == 0 {
        assert((x - r) * 0 == 0);
    } else if c.len() == 1 {
        let rest = c.drop_first();
        assert(eval(rest, x) == 0 && eval(rest, r) == 0);
        assert(x * 0 == 0 && r * 0 == 0 && (x - r) * 0 == 0);
    } else {
        let rest = c.drop_first();
        let g = quotient(c, r);
        let g_rest = quotient(rest, r);
        lemma_division(rest, r, x);
        assert(g.drop_first() =~= g_rest);
        let (c0, e_rest, v_rest) = (c[0], eval(rest, r), eval(g_rest, x));
        assert(eval(g, x) == e_rest + x * v_rest);
        assert(c0 + x * ((x - r) * v_rest + e_rest) == (x - r) * (e_rest + x * v_rest) + (c0 + r
            * e_rest)) by (nonlinear_arith);
    }
}

/// Modulo a prime, a polynomial whose leading coefficient does not vanish
/// has no more roots than its degree.
pub proof fn lemma_root_bound(p: nat, c: Seq<int>, roots: Seq<int>)
    requires
        is_prime(p),
        c.len() >= 1,
        c.last() % (p as int) != 0,
        roots.no_duplicates(),
        forall|i: int|
            0 <= i < roots.len() ==> 0 <= #[trigger] roots[i] < p && eval(c, roots[i]) % (
            p as int) == 0,
    ensures
        roots.len() <= c.len() - 1,
    decreases c.len(),
{
    let m = p as int;
    if roots.len() > 0 {
        let r = roots.last();
        assert(eval(c, r) % m == 0);
        if c.len() == 1 {
            let rest = c.drop_first();
            assert(eval(rest, r) == 0);
            assert(r * 0 == 0);
            assert(eval(c, r) == c[0]);
        } else {
            let g = quotient(c, r);
            let others = roots.drop_last();
            lemma_quotient_shape(c, r);
            assert forall|i: int| 0 <= i < others.len() implies 0 <= #[trigger] others[i] < p
                && eval(g, others[i]) % m == 0 by {
                let s = others[i];
                assert(s == roots[i]);
                assert(s != r);
                lemma_division(c, r, s);
                // (s - r) g(s) = c(s) - c(r), and both vanish modulo p
                lemma_sub_is_zero(m, eval(c, s), eval(c, r));
                lemma_prime_divides_product(p, s - r, eval(g, s));
                lemma_sub_is_zero(m, s, r);
                lemma_small_mod(s as nat, p);
                lemma_small_mod(r as nat, p);
            }
            lemma_root_bound(p, g, others);
        }
    }
}

/// The coefficients of `X^k`.
pub open spec fn monomial(k: nat) -> Seq<int> {
    Seq::new(
        k + 1,
        |i: int|
            if i == k {
                1int
            } else {
                0int
            },
    )
}

/// The value of `X^k` at `x` is the power `x^k`.
pub proof fn lemma_eval_monomial(k: nat, x: int)
    ensures
        eval(monomial(k), x) == pow(x, k),
    decreases k,
{
    let c = monomial(k);
    if k == 0 {
        assert(c.drop_first().len() == 0);
        assert(eval(c.drop_first(), x) == 0);
        assert(x * 0 == 0);
        lemma_pow0(x);
    } else {
        let j = (k - 1) as nat;
        assert(c.drop_first() =~= monomial(j));
        lemma_eval_monomial(j, x);
        lemma_pow_adds(x, 1, j);
        lemma_pow1(x);
    }
}

/// The coefficients of `X^e - 1`, for a positive `e`.
pub open spec fn power_minus_one(e: nat) -> Seq<int> {
    seq![-1int] + monomial((e - 1) as nat)
}

/// The value of `X^e - 1` at `x`.
pub proof fn lemma_eval_power_minus_one(e: nat, x: int)
    requires
        e >= 1,
    ensures
        eval(power_minus_one(e), x) == pow(x, e) - 1,
        power_minus_one(e).len() == e + 1,
        power_minus_one(e).last() == 1,
{
    let c = power_minus_one(e);
    let j = (e - 1) as nat;
    assert(c.drop_first() =~= monomial(j));
    lemma_eval_monomial(j, x);
    lemma_pow_adds(x, 1, j);
    lemma_pow1(x);
}

} // verus!
