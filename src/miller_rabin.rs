//! The Miller-Rabin strong probable-prime test.
use crate::arith::spec_is_prime;
use crate::modular::{mod_pow, mul_mod};
use vstd::arithmetic::div_mod::lemma_mul_mod_noop_general;
use vstd::arithmetic::power::{lemma_pow_multiplies, lemma_square_is_pow2, pow};
use vstd::arithmetic::power2::{lemma_pow2_unfold, pow2};
use vstd::prelude::*;

verus! {

/// The exponent of 2 in `m` (zero for `m == 0`).
pub open spec fn two_val(m: nat) -> nat
    decreases m,
{
    if m > 0 && m % 2 == 0 {
        1 + two_val(m / 2)
    } else {
        0
    }
}

/// `m` with every factor 2 taken out (zero for `m == 0`).
pub open spec fn odd_part(m: nat) -> nat
    decreases m,
{
    if m > 0 && m % 2 == 0 {
        odd_part(m / 2)
    } else {
        m
    }
}

/// `n` is a strong probable prime to base `a`: with `n - 1 = 2^s * d` and
/// `d` odd, either `a^d = 1 (mod n)` or `a^(2^i * d) = n - 1 (mod n)` for some
/// `i < s`.
pub open spec fn strong_probable_prime(n: nat, a: nat) -> bool {
    let s = two_val((n - 1) as nat);
    let d = odd_part((n - 1) as nat);
    pow(a as int, d) % (n as int) == 1 || exists|i: nat|
        i < s && #[trigger] (pow(a as int, d * pow2(i)) % (n as int)) == n - 1
}

/// `n` passes the strong probable-prime test for every witness of `ws`.
pub open spec fn passes_all(n: nat, ws: Seq<u128>) -> bool {
    forall|i: int| 0 <= i < ws.len() ==> #[trigger] strong_probable_prime(n, ws[i] as nat)
}

/// The verdict of Miller-Rabin on `n` with witnesses `ws`.
pub open spec fn miller_rabin_verdict(n: nat, ws: Seq<u128>) -> bool {
    if n <= 1 {
        false
    } else if n <= 3 {
        true
    } else if n % 2 == 0 {
        false
    } else {
        passes_all(n, ws)
    }
}

/// Writes `m` as `2^s * d` with `d` odd; returns `(d, s)`.
pub fn split_twos(m: u128) -> (r: (u128, u128))
    requires
        m > 0,
    ensures
        r.0 == odd_part(m as nat),
        r.1 == two_val(m as nat),
{
    let mut d: u128 = m;
    let mut s: u128 = 0;
    while d % 2 == 0
        invariant
            d > 0,
            s + d <= m,
            odd_part(d as nat) == odd_part(m as nat),
            two_val(m as nat) == s + two_val(d as nat),
        decreases d,
    {
        d = d / 2;
        s = s + 1;
    }
    (d, s)
}

proof fn lemma_square_step(a: int, e: nat, n: int)
    requires
        n > 0,
    ensures
        pow(a, e * 2) % n == ((pow(a, e) % n) * (pow(a, e) % n)) % n,
{
    lemma_pow_multiplies(a, e, 2);
    lemma_square_is_pow2(pow(a, e));
    lemma_mul_mod_noop_general(pow(a, e), pow(a, e), n);
}

/// Whether `n` is a strong probable prime to base `a`.
pub fn is_strong_probable_prime(n: u128, a: u128) -> (r: bool)
    requires
        n >= 3,
        n % 2 == 1,
    ensures
        r == strong_probable_prime(n as nat, a as nat),
{
    let (d, s) = split_twos(n - 1);
    let mut x: u128 = mod_pow(a, d, n);
    proof {
        vstd::arithmetic::power2::lemma_pow2(0);
        vstd::arithmetic::power::lemma_pow0(2);
        assert(d * pow2(0) == d);
    }
    if x == 1 {
        return true;
    }
    if x == n - 1 {
        proof {
            assert(s > 0) by {
                assert((n - 1) % 2 == 0);
            }
            assert(pow(a as int, (d as nat) * pow2(0)) % (n as int) == n - 1);
        }
        return true;
    }
    let mut i: u128 = 1;
    while i < s
        invariant
            1 <= i,
            n >= 3,
            x == pow(a as int, (d as nat) * pow2((i - 1) as nat)) % (n as int),
            pow(a as int, d as nat) % (n as int) != 1,
            forall|j: nat| j < i ==> #[trigger] (pow(a as int, (d as nat) * pow2(j)) % (n as int)) != n - 1,
            d == odd_part((n - 1) as nat),
            s == two_val((n - 1) as nat),
        decreases s - i,
    {
        let ghost e: nat = (d as nat) * pow2((i - 1) as nat);
        x = mul_mod(x, x, n);
        proof {
            lemma_square_step(a as int, e, n as int);
            lemma_pow2_unfold(i as nat);
            assert(e * 2 == (d as nat) * pow2(i as nat)) by (nonlinear_arith)
                requires
                    e == (d as nat) * pow2((i - 1) as nat),
                    pow2(i as nat) == 2 * pow2((i - 1) as nat),
            ;
        }
        if x == n - 1 {
            return true;
        }
        i = i + 1;
    }
    false
}

/// Miller-Rabin with the given witnesses: false as soon as one of them shows
/// `n` composite.
pub fn miller_rabin(n: u128, witnesses: &Vec<u128>) -> (r: bool)
    ensures
        r == miller_rabin_verdict(n as nat, witnesses@),
{
    if n <= 1 {
        return false;
    }
    if n <= 3 {
        return true;
    }
    if n % 2 == 0 {
        return false;
    }
    let mut i: usize = 0;
    while i < witnesses.len()
        invariant
            n > 3,
            n % 2 == 1,
            i <= witnesses@.len(),
            forall|j: int| 0 <= j < i ==> #[trigger] strong_probable_prime(n as nat, witnesses@[j] as nat),
        decreases witnesses@.len() - i,
    {
        if !is_strong_probable_prime(n, witnesses[i]) {
            return false;
        }
        i = i + 1;
    }
    true
}

/// Taking the factors 2 out and putting them back gives the number again.
pub proof fn lemma_odd_part_two_val(m: nat)
    requires
        m > 0,
    ensures
        odd_part(m) * pow2(two_val(m)) == m,
        odd_part(m) % 2 == 1,
    decreases m,
{
    if m % 2 == 0 {
        lemma_odd_part_two_val(m / 2);
        lemma_pow2_unfold(two_val(m));
        assert(odd_part(m) * pow2(two_val(m)) == odd_part(m / 2) * (2 * pow2(two_val(m / 2))));
        assert(odd_part(m / 2) * (2 * pow2(two_val(m / 2))) == 2 * (odd_part(m / 2) * pow2(
            two_val(m / 2),
        ))) by (nonlinear_arith);
        assert(two_val(m) == 1 + two_val(m / 2));
        assert(odd_part(m) == odd_part(m / 2));
        assert(2 * (m / 2) == m);
    } else {
        vstd::arithmetic::power2::lemma_pow2(0);
        vstd::arithmetic::power::lemma_pow0(2);
        assert(two_val(m) == 0);
        assert(odd_part(m) == m);
        assert(pow2(0) == 1);
    }
}

/// A square root of 1 modulo a prime is 1 or -1.
proof fn lemma_prime_square_root_of_one(p: int, x: int)
    requires
        spec_is_prime(p),
        p >= 3,
        0 <= x < p,
        (x * x) % p == 1,
    ensures
        x == 1 || x == p - 1,
{
    vstd::arithmetic::div_mod::lemma_fundamental_div_mod(x * x, p);
    let t = (x * x) / p;
    assert((x - 1) * (x + 1) == t * p) by (nonlinear_arith)
        requires
            x * x == p * t + 1,
    ;
    vstd::arithmetic::div_mod::lemma_mod_multiples_basic(t, p);
    if x == 0 {
        assert(x * x == 0);
        vstd::arithmetic::div_mod::lemma_small_mod(0, p as nat);
    } else if x != 1 {
        crate::arith::lemma_euclid(p, x - 1, x + 1);
        vstd::arithmetic::div_mod::lemma_small_mod((x + 1) as nat, (p + 1) as nat);
        if x + 1 < p {
            vstd::arithmetic::div_mod::lemma_small_mod((x + 1) as nat, p as nat);
        }
    }
}

/// Walking down the squaring chain modulo a prime: when no term below the
/// `j`-th is -1 and the `j`-th is 1, the first one is 1 too.
proof fn lemma_chain_down(n: int, a: int, d: nat, j: nat)
    requires
        spec_is_prime(n),
        n >= 3,
        pow(a, d * pow2(j)) % n == 1,
        forall|i: nat| i < j ==> #[trigger] (pow(a, d * pow2(i)) % n) != n - 1,
    ensures
        pow(a, d * pow2(0)) % n == 1,
    decreases j,
{
    if j > 0 {
        let e = d * pow2((j - 1) as nat);
        lemma_square_step(a, e, n);
        lemma_pow2_unfold(j);
        assert(e * 2 == d * pow2(j)) by (nonlinear_arith)
            requires
                e == d * pow2((j - 1) as nat),
                pow2(j) == 2 * pow2((j - 1) as nat),
        ;
        let x = pow(a, e) % n;
        vstd::arithmetic::div_mod::lemma_mod_bound(pow(a, e), n);
        lemma_prime_square_root_of_one(n, x);
        assert(x != n - 1) by {
            assert(pow(a, d * pow2((j - 1) as nat)) % n != n - 1);
        }
        lemma_chain_down(n, a, d, (j - 1) as nat);
    }
}

/// The strong test never rejects a prime that passes Fermat's test to the
/// same base: if `a^(n-1) = 1 (mod n)` for a prime `n >= 3`, then `n` is a
/// strong probable prime to base `a`.
pub proof fn lemma_prime_fermat_base_is_strong(n: nat, a: nat)
    requires
        spec_is_prime(n as int),
        n >= 3,
        pow(a as int, (n - 1) as nat) % (n as int) == 1,
    ensures
        strong_probable_prime(n, a),
{
    let m = (n - 1) as nat;
    let s = two_val(m);
    let d = odd_part(m);
    lemma_odd_part_two_val(m);
    if !strong_probable_prime(n, a) {
        assert(d * pow2(s) == m);
        lemma_chain_down(n as int, a as int, d, s);
        vstd::arithmetic::power2::lemma_pow2(0);
        vstd::arithmetic::power::lemma_pow0(2);
        assert(d * pow2(0) == d);
    }
}

} // verus!
