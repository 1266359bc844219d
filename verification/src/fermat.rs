//! Fermat's little theorem, and what follows from it for squares.

use crate::field::{
    finv, is_inverse, is_prime, lemma_mul_congruent, lemma_prime_invertible, lemma_sub_is_zero,
};
use vstd::arithmetic::div_mod::{lemma_mod_bound, lemma_mod_twice, lemma_small_mod};
use vstd::arithmetic::power::{
    lemma_pow0, lemma_pow1, lemma_pow_adds, lemma_pow_multiplies, lemma_square_is_pow2, pow,
};
use vstd::prelude::*;
use vstd::seq_lib::{commutative_foldr, lemma_fold_right_permutation, seq_to_set_is_finite};
use vstd::set_lib::lemma_subset_equality;

verus! {

/// A prime that divides a product divides one of its factors.
pub proof fn lemma_prime_divides_product(p: nat, x: int, y: int)
    requires
        is_prime(p),
        (x * y) % (p as int) == 0,
    ensures
        x % (p as int) == 0 || y % (p as int) == 0,
{
    let m = p as int;
    let xr = x % m;
    lemma_mod_bound(x, m);
    if xr != 0 {
        lemma_prime_invertible(p, xr as nat);
        let u = finv(p, xr as nat) as int;
        assert(is_inverse(p, xr as nat, u as nat));
        assert((xr * u) % m == 1);
        lemma_small_mod(1, p);
        lemma_small_mod(0, p);
        lemma_mod_twice(x, m);
        // y = y * (xr * u) = y * (x * u) = (x * y) * u = 0, modulo p
        lemma_mul_congruent(m, y, y, xr * u, 1);
        lemma_mul_congruent(m, xr, x, u, u);
        lemma_mul_congruent(m, y, y, xr * u, x * u);
        assert(y * (x * u) == (x * y) * u) by (nonlinear_arith);
        lemma_mul_congruent(m, x * y, 0, u, u);
    }
}

/// The product of the numbers of a sequence.
pub open spec fn product(s: Seq<int>) -> int
    decreases s.len(),
{
    if s.len() == 0 {
        1
    } else {
        product(s.drop_last()) * s.last()
    }
}

/// Multiplication modulo `p`, as a function to fold with.
pub open spec fn mul_mod(p: int) -> spec_fn(int, int) -> int {
    |x: int, acc: int| (x * acc) % p
}

/// The numbers `1, 2, ..., n`.
pub open spec fn units(n: nat) -> Seq<int> {
    Seq::new(n, |i: int| i + 1)
}

/// The numbers `a, 2 a, ..., n a`, reduced modulo `p`.
pub open spec fn multiples(a: int, n: nat, p: int) -> Seq<int> {
    Seq::new(n, |i: int| (a * (i + 1)) % p)
}

/// Folding with multiplication modulo `p` gives the product modulo `p`.
pub proof fn lemma_fold_is_product(s: Seq<int>, p: int, v: int)
    requires
        p > 0,
    ensures
        s.fold_right(mul_mod(p), v) % p == (product(s) * v) % p,
    decreases s.len(),
{
    if s.len() > 0 {
        let front = s.drop_last();
        let last = s.last();
        let w = (last * v) % p;
        assert(s.fold_right(mul_mod(p), v) == front.fold_right(mul_mod(p), w));
        lemma_fold_is_product(front, p, w);
        lemma_mod_twice(last * v, p);
        lemma_mul_congruent(p, product(front), product(front), w, last * v);
        assert(product(front) * (last * v) == (product(front) * last) * v) by (nonlinear_arith);
    } else {
        assert(product(s) * v == v);
    }
}

/// Multiplication modulo `p` can be folded in any order.
pub proof fn lemma_mul_mod_commutes(p: int)
    requires
        p > 0,
    ensures
        commutative_foldr(mul_mod(p)),
{
    let f = mul_mod(p);
    assert forall|x: int, y: int, v: int| #[trigger] f(x, f(y, v)) == f(y, f(x, v)) by {
        lemma_mod_twice(y * v, p);
        lemma_mod_twice(x * v, p);
        lemma_mul_congruent(p, x, x, (y * v) % p, y * v);
        lemma_mul_congruent(p, y, y, (x * v) % p, x * v);
        assert(x * (y * v) == y * (x * v)) by (nonlinear_arith);
    }
}

/// The product of the first `n` multiples of `a` is `a^n` times the product
/// of the first `n` numbers, modulo `p`.
pub proof fn lemma_product_of_multiples(a: int, n: nat, p: int)
    requires
        p > 0,
    ensures
        product(multiples(a, n, p)) % p == (pow(a, n) * product(units(n))) % p,
    decreases n,
{
    if n == 0 {
        lemma_pow0(a);
    } else {
        let k = (n - 1) as nat;
        let t = multiples(a, n, p);
        let s = units(n);
        assert(t.drop_last() =~= multiples(a, k, p));
        assert(s.drop_last() =~= units(k));
        lemma_product_of_multiples(a, k, p);
        let pt = product(multiples(a, k, p));
        let ps = product(units(k));
        lemma_mod_twice(a * n, p);
        lemma_mul_congruent(p, pt, pow(a, k) * ps, (a * n) % p, a * n);
        lemma_pow_adds(a, k, 1);
        lemma_pow1(a);
        assert((pow(a, k) * ps) * (a * n) == (pow(a, k) * a) * (ps * n)) by (nonlinear_arith);
    }
}

/// No prime divides the product of numbers below it.
pub proof fn lemma_product_of_units(p: nat, n: nat)
    requires
        is_prime(p),
        n < p,
    ensures
        product(units(n)) % (p as int) != 0,
    decreases n,
{
    if n == 0 {
        lemma_small_mod(1, p);
    } else {
        let k = (n - 1) as nat;
        assert(units(n).drop_last() =~= units(k));
        lemma_product_of_units(p, k);
        lemma_small_mod(n, p);
        if product(units(n)) % (p as int) == 0 {
            lemma_prime_divides_product(p, product(units(k)), n as int);
        }
    }
}

/// Modulo a prime `p`, the multiples `a, 2 a, ..., (p - 1) a` of a number
/// that `p` does not divide are the numbers `1, ..., p - 1` in another order.
pub proof fn lemma_multiples_permute(p: nat, a: int)
    requires
        is_prime(p),
        a % (p as int) != 0,
    ensures
        multiples(a, (p - 1) as nat, p as int).to_multiset() == units(
            (p - 1) as nat,
        ).to_multiset(),
{
    let m = p as int;
    let n = (p - 1) as nat;
    let s = units(n);
    let t = multiples(a, n, m);
    assert(s.no_duplicates());
    assert forall|i: int, j: int| 0 <= i < n && 0 <= j < n && i != j implies t[i] != t[j] by {
        if t[i] == t[j] {
            lemma_sub_is_zero(m, a * (i + 1), a * (j + 1));
            assert(a * (i + 1) - a * (j + 1) == a * (i - j)) by (nonlinear_arith);
            lemma_prime_divides_product(p, a, i - j);
            lemma_sub_is_zero(m, i, j);
            lemma_small_mod(i as nat, p);
            lemma_small_mod(j as nat, p);
        }
    }
    assert(t.no_duplicates());
    assert forall|i: int| 0 <= i < n implies 1 <= #[trigger] t[i] < m && s.contains(t[i]) by {
        lemma_mod_bound(a * (i + 1), m);
        if t[i] == 0 {
            lemma_prime_divides_product(p, a, i + 1);
            lemma_small_mod((i + 1) as nat, p);
        }
        assert(s[t[i] - 1] == t[i]);
    }
    assert(t.to_set().subset_of(s.to_set())) by {
        assert forall|v: int| t.to_set().contains(v) implies s.to_set().contains(v) by {
            let i = choose|i: int| 0 <= i < t.len() && t[i] == v;
            assert(s.contains(t[i]));
        }
    }
    seq_to_set_is_finite(s);
    seq_to_set_is_finite(t);
    s.unique_seq_to_set();
    t.unique_seq_to_set();
    lemma_subset_equality(t.to_set(), s.to_set());
    s.to_multiset_ensures();
    t.to_multiset_ensures();
    s.lemma_multiset_has_no_duplicates();
    t.lemma_multiset_has_no_duplicates();
    assert forall|v: int| t.to_multiset().count(v) == s.to_multiset().count(v) by {
        assert(t.to_set().contains(v) == s.to_set().contains(v));
        assert(t.contains(v) == s.contains(v));
        if s.contains(v) {
            assert(s.to_multiset().contains(v));
            assert(t.to_multiset().contains(v));
        }
    }
    assert(t.to_multiset() =~= s.to_multiset());
}

/// Fermat's little theorem: modulo a prime `p`, every number that `p` does
/// not divide gives 1 when raised to `p - 1`.
pub proof fn lemma_fermat(p: nat, a: int)
    requires
        is_prime(p),
        a % (p as int) != 0,
    ensures
        pow(a, (p - 1) as nat) % (p as int) == 1,
{
    let m = p as int;
    let n = (p - 1) as nat;
    let s = units(n);
    let t = multiples(a, n, m);
    let u = product(s);
    lemma_multiples_permute(p, a);
    lemma_mul_mod_commutes(m);
    lemma_fold_right_permutation(t, s, mul_mod(m), 1);
    lemma_fold_is_product(t, m, 1);
    lemma_fold_is_product(s, m, 1);
    lemma_product_of_multiples(a, n, m);
    lemma_product_of_units(p, n);
    let an = pow(a, n);
    assert(product(t) * 1 == product(t) && u * 1 == u);
    assert((an * u) % m == u % m);
    lemma_sub_is_zero(m, an * u, u);
    assert(an * u - u == (an - 1) * u) by (nonlinear_arith);
    lemma_prime_divides_product(p, an - 1, u);
    lemma_sub_is_zero(m, an, 1);
    lemma_small_mod(1, p);
}

/// Euler's criterion for squares: modulo an odd prime `p`, the square of a
/// number that `p` does not divide gives 1 when raised to `(p - 1) / 2`.
pub proof fn lemma_power_of_square(p: nat, y: int)
    requires
        is_prime(p),
        p > 2,
        y % (p as int) != 0,
    ensures
        pow(y * y, ((p - 1) / 2) as nat) % (p as int) == 1,
{
    let e = ((p - 1) / 2) as nat;
    assert(p % 2 != 0);
    assert(2 * e == p - 1);
    lemma_fermat(p, y);
    lemma_square_is_pow2(y);
    lemma_pow_multiplies(y, 2, e);
}

} // verus!
