//! Number-theoretic definitions shared by every tester, the lemmas that
//! connect trial division to primality, and an exact integer square root.
use vstd::arithmetic::div_mod::{lemma_fundamental_div_mod, lemma_mod_multiples_basic};
use vstd::prelude::*;

verus! {

/// `n` is prime: at least 2 and without a divisor strictly between 1 and `n`.
pub open spec fn spec_is_prime(n: int) -> bool {
    n >= 2 && forall|d: int| 2 <= d < n ==> #[trigger] (n % d) != 0
}

/// If `p` divides `d` and `d` divides `n`, then `p` divides `n`.
pub proof fn lemma_divides_trans(n: int, d: int, p: int)
    requires
        n >= 0,
        d > 0,
        p > 0,
        n % d == 0,
        d % p == 0,
    ensures
        n % p == 0,
{
    lemma_fundamental_div_mod(n, d);
    lemma_fundamental_div_mod(d, p);
    let a = n / d;
    let b = d / p;
    assert(n == (b * a) * p) by (nonlinear_arith)
        requires
            n == d * a,
            d == p * b,
    ;
    lemma_mod_multiples_basic(b * a, p);
}

/// Every integer from 2 on has a prime divisor no larger than itself.
pub proof fn lemma_prime_divisor(d: int) -> (p: int)
    requires
        d >= 2,
    ensures
        spec_is_prime(p),
        2 <= p <= d,
        d % p == 0,
    decreases d,
{
    if spec_is_prime(d) {
        assert(d % d == 0) by {
            lemma_mod_multiples_basic(1, d);
        }
        d
    } else {
        let e = choose|e: int| 2 <= e < d && #[trigger] (d % e) == 0;
        let p = lemma_prime_divisor(e);
        lemma_divides_trans(d, e, p);
        p
    }
}

/// A divisor strictly between 1 and `n` gives one whose square is at most `n`.
pub proof fn lemma_small_divisor(n: int, d: int) -> (e: int)
    requires
        2 <= d < n,
        n % d == 0,
    ensures
        2 <= e,
        e * e <= n,
        n % e == 0,
{
    lemma_fundamental_div_mod(n, d);
    let q = n / d;
    assert(n == d * q);
    assert(q >= 2) by (nonlinear_arith)
        requires
            n == d * q,
            2 <= d < n,
    ;
    if d <= q {
        assert(d * d <= n) by (nonlinear_arith)
            requires
                n == d * q,
                2 <= d <= q,
        ;
        d
    } else {
        assert(q * q <= n) by (nonlinear_arith)
            requires
                n == d * q,
                2 <= q < d,
        ;
        lemma_mod_multiples_basic(d, q);
        assert(n == d * q);
        q
    }
}

/// `n >= 2` is prime as soon as no prime whose square is at most `n` divides it.
pub proof fn lemma_prime_by_small_primes(n: int)
    requires
        n >= 2,
        forall|p: int| spec_is_prime(p) && p * p <= n ==> #[trigger] (n % p) != 0,
    ensures
        spec_is_prime(n),
{
    if !spec_is_prime(n) {
        let d = choose|d: int| 2 <= d < n && #[trigger] (n % d) == 0;
        let e = lemma_small_divisor(n, d);
        let p = lemma_prime_divisor(e);
        assert(p * p <= e * e) by (nonlinear_arith)
            requires
                2 <= p <= e,
        ;
        lemma_divides_trans(n, e, p);
        assert(n % p == 0);
    }
}

/// A divisor `d` of `n` with `2 <= d < n` shows `n` is not prime.
pub proof fn lemma_divisor_not_prime(n: int, d: int)
    requires
        2 <= d < n,
        n % d == 0,
    ensures
        !spec_is_prime(n),
{
    assert(n % d == 0);
}

/// Euclid's lemma, one factor at a time: a prime that divides `a * b`, with
/// `0 < a < p`, divides `b`.
pub proof fn lemma_euclid(p: int, a: int, b: int)
    requires
        spec_is_prime(p),
        0 < a < p,
        (a * b) % p == 0,
    ensures
        b % p == 0,
    decreases a,
{
    if a > 1 {
        lemma_fundamental_div_mod(p, a);
        let q = p / a;
        let r = p % a;
        assert(p % a != 0);
        assert(0 < r < a) by {
            vstd::arithmetic::div_mod::lemma_mod_bound(p, a);
        }
        lemma_fundamental_div_mod(a * b, p);
        let t = (a * b) / p;
        assert(r * b == (b - q * t) * p) by (nonlinear_arith)
            requires
                p == a * q + r,
                a * b == p * t + 0,
        ;
        lemma_mod_multiples_basic(b - q * t, p);
        lemma_euclid(p, r, b);
    }
}

/// The integer square root: the largest `r` with `r * r <= n`.
pub fn isqrt(n: u128) -> (r: u64)
    ensures
        r * r <= n,
        n < (r + 1) * (r + 1),
{
    let mut lo: u128 = 0;
    let mut hi: u128 = 0x1_0000_0000_0000_0000;
    assert(n < hi * hi) by (nonlinear_arith)
        requires
            hi == 0x1_0000_0000_0000_0000int,
            n <= u128::MAX,
    ;
    while lo + 1 < hi
        invariant
            lo < hi <= 0x1_0000_0000_0000_0000u128,
            lo * lo <= n,
            n < hi * hi,
        decreases hi - lo,
    {
        let mid: u128 = lo + (hi - lo) / 2;
        assert(mid * mid < 0x1_0000_0000_0000_0000 * 0x1_0000_0000_0000_0000) by (nonlinear_arith)
            requires
                mid < 0x1_0000_0000_0000_0000int,
        ;
        if mid * mid <= n {
            lo = mid;
        } else {
            hi = mid;
        }
    }
    assert(hi == lo + 1);
    lo as u64
}

} // verus!
