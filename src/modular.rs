//! Modular arithmetic on `u128` that never overflows: addition, multiplication
//! by doubling, and exponentiation by squaring.
use vstd::arithmetic::div_mod::{
    lemma_add_mod_noop,
    lemma_mod_bound,
    lemma_mod_twice,
    lemma_mul_mod_noop_general,
    lemma_small_mod,
};
use vstd::arithmetic::power::{
    lemma_pow0,
    lemma_pow_adds,
    lemma_pow1,
    lemma_pow_mod_noop,
    lemma_pow_multiplies,
    lemma_square_is_pow2,
    pow,
};
use vstd::prelude::*;

verus! {

proof fn lemma_mod_combo(a: int, b: int, y: int, m: int)
    requires
        m > 0,
    ensures
        (a % m + (b % m) * y) % m == (a + b * y) % m,
{
    lemma_add_mod_noop(a % m, (b % m) * y, m);
    lemma_add_mod_noop(a, b * y, m);
    lemma_mul_mod_noop_general(b, y, m);
    lemma_mod_twice(a, m);
    lemma_mod_twice(b * y, m);
}

/// `(u + v) % m` for `u, v < m`, computed without overflow.
pub fn add_mod(u: u128, v: u128, m: u128) -> (r: u128)
    requires
        u < m,
        v < m,
    ensures
        r == (u + v) % (m as int),
        r < m,
{
    if u >= m - v {
        let r: u128 = u - (m - v);
        assert((u + v) % (m as int) == r) by {
            lemma_small_mod(r as nat, m as nat);
            assert(u + v == m + r);
            vstd::arithmetic::div_mod::lemma_mod_add_multiples_vanish(r as int, m as int);
        }
        r
    } else {
        proof {
            lemma_small_mod((u + v) as nat, m as nat);
        }
        u + v
    }
}

/// `(a * b) % m`, with no intermediate value wider than 128 bits.
pub fn mul_mod(a: u128, b: u128, m: u128) -> (r: u128)
    requires
        m > 0,
    ensures
        r == (a * b) % (m as int),
        r < m,
{
    let a0: u128 = a % m;
    let b0: u128 = b % m;
    proof {
        lemma_mul_mod_noop_general(a as int, b as int, m as int);
    }
    if a0 <= 0xffff_ffff_ffff_ffff && b0 <= 0xffff_ffff_ffff_ffff {
        assert(a0 * b0 <= 0xffff_ffff_ffff_ffff * 0xffff_ffff_ffff_ffff) by (nonlinear_arith)
            requires
                a0 <= 0xffff_ffff_ffff_ffffu128,
                b0 <= 0xffff_ffff_ffff_ffffu128,
        ;
        return (a0 * b0) % m;
    }
    let mut acc: u128 = 0;
    let mut x: u128 = a0;
    let mut y: u128 = b0;
    proof {
        lemma_small_mod(0, m as nat);
    }
    while y > 0
        invariant
            m > 0,
            acc < m,
            x < m,
            (acc + x * y) % (m as int) == (a0 * b0) % (m as int),
        decreases y,
    {
        let ghost y0 = y as int;
        let ghost acc0 = acc as int;
        let ghost x0 = x as int;
        if y % 2 == 1 {
            acc = add_mod(acc, x, m);
        }
        x = add_mod(x, x, m);
        y = y / 2;
        proof {
            if y0 % 2 == 1 {
                lemma_mod_combo(acc0 + x0, 2 * x0, y as int, m as int);
                assert(acc0 + x0 + 2 * x0 * y == acc0 + x0 * y0) by (nonlinear_arith)
                    requires
                        y0 == 2 * y + 1,
                ;
            } else {
                lemma_small_mod(acc0 as nat, m as nat);
                lemma_mod_combo(acc0, 2 * x0, y as int, m as int);
                assert(acc0 + 2 * x0 * y == acc0 + x0 * y0) by (nonlinear_arith)
                    requires
                        y0 == 2 * y,
                ;
            }
        }
    }
    proof {
        lemma_small_mod(acc as nat, m as nat);
    }
    acc
}

proof fn lemma_pow_step(r: int, b: int, e: nat, m: int)
    requires
        m > 0,
        e > 0,
    ensures
        e % 2 == 1 ==> (((r * b) % m) * pow((b * b) % m, e / 2)) % m == (r * pow(b, e)) % m,
        e % 2 == 0 ==> ((r % m) * pow((b * b) % m, e / 2)) % m == (r * pow(b, e)) % m,
{
    let k = e / 2;
    lemma_pow_multiplies(b, 2, k);
    lemma_square_is_pow2(b);
    assert(pow(b * b, k) == pow(b, 2 * k));
    lemma_pow_mod_noop(b * b, k, m);
    let y = pow((b * b) % m, k);
    if e % 2 == 1 {
        lemma_pow_adds(b, 1, 2 * k);
        lemma_pow1(b);
        assert(pow(b, e) == b * pow(b, 2 * k));
        lemma_mul_mod_noop_general(r * b, y, m);
        lemma_mul_mod_noop_general(r * b, pow(b * b, k), m);
        assert((r * b) * pow(b, 2 * k) == r * (b * pow(b, 2 * k))) by (nonlinear_arith);
    } else {
        assert(e == 2 * k);
        lemma_mul_mod_noop_general(r, y, m);
        lemma_mul_mod_noop_general(r, pow(b * b, k), m);
    }
}

/// `base` raised to `exp`, modulo `modulus`, by square-and-multiply.
pub fn mod_pow(base: u128, exp: u128, modulus: u128) -> (r: u128)
    requires
        modulus > 0,
    ensures
        r == pow(base as int, exp as nat) % (modulus as int),
        r < modulus,
{
    let m = modulus;
    if m == 1 {
        return 0;
    }
    let mut result: u128 = 1;
    let mut b: u128 = base % m;
    let mut e: u128 = exp;
    proof {
        lemma_pow_mod_noop(base as int, exp as nat, m as int);
        lemma_mod_bound(pow(b as int, e as nat), m as int);
        lemma_mod_twice(pow(b as int, e as nat), m as int);
    }
    while e > 0
        invariant
            m > 1,
            result < m,
            b < m,
            (result * pow(b as int, e as nat)) % (m as int) == pow(base as int, exp as nat) % (
            m as int),
        decreases e,
    {
        proof {
            lemma_pow_step(result as int, b as int, e as nat, m as int);
            lemma_small_mod(result as nat, m as nat);
        }
        if e % 2 == 1 {
            result = mul_mod(result, b, m);
        }
        b = mul_mod(b, b, m);
        e = e / 2;
    }
    proof {
        lemma_pow0(b as int);
        lemma_small_mod(result as nat, m as nat);
    }
    result
}

} // verus!
