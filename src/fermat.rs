//! Fermat's little theorem, by the binomial theorem: the fact that makes the
//! Miller-Rabin test reject no prime.
use crate::arith::{lemma_euclid, spec_is_prime};
use vstd::arithmetic::div_mod::{
    lemma_add_mod_noop,
    lemma_fundamental_div_mod,
    lemma_mod_multiples_basic,
    lemma_mul_mod_noop_general,
    lemma_small_mod,
};
use vstd::arithmetic::power::{lemma_pow0, lemma_pow1, lemma_pow_adds, pow};
use vstd::prelude::*;

verus! {

/// The binomial coefficient, by Pascal's rule.
pub open spec fn binom(n: nat, k: nat) -> nat
    decreases n,
{
    if k == 0 {
        1
    } else if n == 0 {
        0
    } else {
        binom((n - 1) as nat, (k - 1) as nat) + binom((n - 1) as nat, k)
    }
}

/// `sum_{i < k} binom(n, i) * x^i`.
pub open spec fn binom_sum(n: nat, x: int, k: nat) -> int
    decreases k,
{
    if k == 0 {
        0
    } else {
        binom_sum(n, x, (k - 1) as nat) + binom(n, (k - 1) as nat) * pow(x, (k - 1) as nat)
    }
}

proof fn lemma_binom_above(n: nat, k: nat)
    requires
        k > n,
    ensures
        binom(n, k) == 0,
    decreases n,
{
    if n > 0 {
        lemma_binom_above((n - 1) as nat, (k - 1) as nat);
        lemma_binom_above((n - 1) as nat, k);
    }
}

proof fn lemma_binom_diag(n: nat)
    ensures
        binom(n, n) == 1,
    decreases n,
{
    if n > 0 {
        lemma_binom_diag((n - 1) as nat);
        lemma_binom_above((n - 1) as nat, n);
    }
}

proof fn lemma_pow_succ(x: int, k: nat)
    requires
        k >= 1,
    ensures
        pow(x, k) == x * pow(x, (k - 1) as nat),
{
    lemma_pow_adds(x, 1, (k - 1) as nat);
    lemma_pow1(x);
}

proof fn lemma_binom_sum_step(n: nat, x: int, k: nat)
    requires
        k >= 1,
    ensures
        binom_sum(n + 1, x, k) == x * binom_sum(n, x, (k - 1) as nat) + binom_sum(n, x, k),
    decreases k,
{
    if k == 1 {
        lemma_pow0(x);
        assert(binom_sum(n + 1, x, 0) == 0);
        assert(binom_sum(n, x, 0) == 0);
    } else {
        let j = (k - 1) as nat;
        lemma_binom_sum_step(n, x, j);
        lemma_pow_succ(x, j);
        let a = binom_sum(n, x, (j - 1) as nat);
        let bj1 = binom(n, (j - 1) as nat);
        let bj = binom(n, j);
        let pj1 = pow(x, (j - 1) as nat);
        let pj = pow(x, j);
        assert(binom(n + 1, j) == bj1 + bj);
        assert(binom_sum(n, x, j) == a + bj1 * pj1);
        assert(binom_sum(n, x, k) == binom_sum(n, x, j) + bj * pj);
        assert(binom_sum(n + 1, x, k) == binom_sum(n + 1, x, j) + (bj1 + bj) * pj);
        assert(x * (a + bj1 * pj1) == x * a + bj1 * pj) by (nonlinear_arith)
            requires
                pj == x * pj1,
        ;
        assert((bj1 + bj) * pj == bj1 * pj + bj * pj) by (nonlinear_arith);
    }
}

/// The binomial theorem for `(x + 1)^n`.
pub proof fn lemma_binomial(n: nat, x: int)
    ensures
        pow(x + 1, n) == binom_sum(n, x, n + 1),
    decreases n,
{
    if n == 0 {
        lemma_pow0(x + 1);
        lemma_pow0(x);
        assert(binom_sum(0, x, 0) == 0);
        assert(binom(0, 0) == 1);
        assert(binom_sum(0, x, 1) == 0 + binom(0, 0) * pow(x, 0));
    } else {
        let m = (n - 1) as nat;
        lemma_binomial(m, x);
        lemma_pow_succ(x + 1, n);
        lemma_binom_sum_step(m, x, n + 1);
        lemma_binom_above(m, n);
        assert(binom_sum(m, x, n + 1) == binom_sum(m, x, n) + binom(m, n) * pow(x, n));
        assert(binom(m, n) * pow(x, n) == 0);
        let s = binom_sum(m, x, n);
        assert((x + 1) * s == x * s + s) by (nonlinear_arith);
        assert(binom_sum(n, x, n + 1) == x * s + binom_sum(m, x, n + 1));
        assert(pow(x + 1, n) == (x + 1) * s);
    }
}

/// `i * binom(n, i) == n * binom(n - 1, i - 1)`.
proof fn lemma_absorption(n: nat, i: nat)
    requires
        n >= 1,
        i >= 1,
    ensures
        i * binom(n, i) == n * binom((n - 1) as nat, (i - 1) as nat),
    decreases n,
{
    let b11 = binom((n - 1) as nat, (i - 1) as nat);
    let b10 = binom((n - 1) as nat, i);
    assert(binom(n, i) == b11 + b10);
    if n == 1 {
        if i == 1 {
            assert(b10 == 0) by {
                lemma_binom_above(0, 1);
            }
            assert(b11 == 1);
            assert(i * binom(n, i) == n * b11) by (nonlinear_arith)
                requires
                    i == 1,
                    n == 1,
                    binom(n, i) == b11 + b10,
                    b10 == 0,
                    b11 == 1,
            ;
        } else {
            lemma_binom_above(1, i);
            lemma_binom_above(0, (i - 1) as nat);
            assert(i * binom(n, i) == n * b11) by (nonlinear_arith)
                requires
                    binom(n, i) == 0,
                    b11 == 0,
            ;
        }
    } else {
        // i * b10 == (n - 1) * binom(n - 2, i - 1)
        lemma_absorption((n - 1) as nat, i);
        assert(i * b10 == (n - 1) * binom((n - 2) as nat, (i - 1) as nat));
        if i == 1 {
            assert(b11 == 1);
            assert(binom((n - 2) as nat, 0) == 1);
            assert(i * binom(n, i) == n * b11) by (nonlinear_arith)
                requires
                    i == 1,
                    binom(n, i) == b11 + b10,
                    i * b10 == (n - 1) * 1,
                    b11 == 1,
            ;
        } else {
            lemma_absorption((n - 1) as nat, (i - 1) as nat);
            assert((i - 1) * b11 == (n - 1) * binom((n - 2) as nat, (i - 2) as nat));
            let c2 = binom((n - 2) as nat, (i - 2) as nat);
            let c1 = binom((n - 2) as nat, (i - 1) as nat);
            assert(b11 == c2 + c1);
            assert(i * binom(n, i) == n * b11) by (nonlinear_arith)
                requires
                    binom(n, i) == b11 + b10,
                    i * b10 == (n - 1) * c1,
                    (i - 1) * b11 == (n - 1) * c2,
                    b11 == c2 + c1,
            ;
        }
    }
}

proof fn lemma_prime_divides_binom(p: nat, i: nat)
    requires
        spec_is_prime(p as int),
        0 < i < p,
    ensures
        (binom(p, i) as int) % (p as int) == 0,
{
    lemma_absorption(p, i);
    lemma_mod_multiples_basic(binom((p - 1) as nat, (i - 1) as nat) as int, p as int);
    assert(((i * binom(p, i)) as int) % (p as int) == 0) by {
        assert(i * binom(p, i) == binom((p - 1) as nat, (i - 1) as nat) * p) by (nonlinear_arith)
            requires
                i * binom(p, i) == p * binom((p - 1) as nat, (i - 1) as nat),
        ;
    }
    lemma_euclid(p as int, i as int, binom(p, i) as int);
}

proof fn lemma_binom_sum_mod_prime(p: nat, x: int, k: nat)
    requires
        spec_is_prime(p as int),
        1 <= k <= p,
    ensures
        binom_sum(p, x, k) % (p as int) == 1,
    decreases k,
{
    let pi = p as int;
    if k == 1 {
        lemma_pow0(x);
        assert(binom_sum(p, x, 0) == 0);
        lemma_small_mod(1, p);
    } else {
        let j = (k - 1) as nat;
        lemma_binom_sum_mod_prime(p, x, j);
        lemma_prime_divides_binom(p, j);
        let t = binom(p, j) * pow(x, j);
        lemma_mul_mod_noop_general(binom(p, j) as int, pow(x, j), pi);
        lemma_small_mod(0, p);
        assert(t % pi == 0);
        lemma_add_mod_noop(binom_sum(p, x, j), t, pi);
        lemma_small_mod(1, p);
    }
}

/// `(x + 1)^p = x^p + 1 (mod p)` for a prime `p`.
proof fn lemma_freshman(p: nat, x: int)
    requires
        spec_is_prime(p as int),
    ensures
        pow(x + 1, p) % (p as int) == (pow(x, p) + 1) % (p as int),
{
    let pi = p as int;
    lemma_binomial(p, x);
    lemma_binom_sum_mod_prime(p, x, p);
    lemma_binom_diag(p);
    assert(binom(p, p) * pow(x, p) == pow(x, p)) by (nonlinear_arith)
        requires
            binom(p, p) == 1,
    ;
    assert(binom_sum(p, x, p + 1) == binom_sum(p, x, p) + binom(p, p) * pow(x, p));
    lemma_add_mod_noop(binom_sum(p, x, p), pow(x, p), pi);
    lemma_add_mod_noop(1, pow(x, p), pi);
    lemma_small_mod(1, p);
}

/// `a^p = a (mod p)` for a prime `p` and `a >= 0`.
pub proof fn lemma_fermat_power(p: nat, a: nat)
    requires
        spec_is_prime(p as int),
    ensures
        pow(a as int, p) % (p as int) == (a as int) % (p as int),
    decreases a,
{
    let pi = p as int;
    if a == 0 {
        vstd::arithmetic::power::lemma0_pow(p);
    } else {
        let b = (a - 1) as nat;
        lemma_fermat_power(p, b);
        lemma_freshman(p, b as int);
        lemma_add_mod_noop(pow(b as int, p), 1, pi);
        lemma_add_mod_noop(b as int, 1, pi);
    }
}

/// Fermat's little theorem: `a^(p-1) = 1 (mod p)` for a prime `p` that does
/// not divide `a`.
pub proof fn lemma_fermat_little(p: nat, a: nat)
    requires
        spec_is_prime(p as int),
        (a as int) % (p as int) != 0,
    ensures
        pow(a as int, (p - 1) as nat) % (p as int) == 1,
{
    let pi = p as int;
    let y = pow(a as int, (p - 1) as nat);
    lemma_fermat_power(p, a);
    lemma_pow_succ(a as int, p);
    // a * (y - 1) = 0 (mod p)
    let ai = a as int;
    assert(pow(ai, p) == ai * y);
    assert((ai * y) % pi == ai % pi);
    vstd::arithmetic::div_mod::lemma_sub_mod_noop(ai * y, ai, pi);
    vstd::arithmetic::div_mod::lemma_mod_self_0(pi);
    vstd::arithmetic::div_mod::lemma_mod_bound(ai, pi);
    lemma_small_mod(0, p);
    assert(ai % pi - ai % pi == 0);
    assert((ai * y - ai) % pi == 0);
    assert(ai * (y - 1) == ai * y - ai) by (nonlinear_arith);
    assert((ai * (y - 1)) % pi == 0);
    let r = (a as int) % pi;
    lemma_fundamental_div_mod(a as int, pi);
    lemma_mul_mod_noop_general(ai, y - 1, pi);
    vstd::arithmetic::div_mod::lemma_mod_bound(a as int, pi);
    lemma_mod_multiples_basic(0, pi);
    assert((r * (y - 1)) % pi == 0) by {
        vstd::arithmetic::div_mod::lemma_mod_twice(r * (y - 1), pi);
    }
    lemma_euclid(pi, r, y - 1);
    lemma_add_mod_noop(y - 1, 1, pi);
    lemma_small_mod(1, p);
    lemma_small_mod(0, p);
}

} // verus!
