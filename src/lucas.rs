//! The strong-discriminant Lucas probable-prime test: a Selfridge choice of
//! `D`, then `U_{n+1}` of the Lucas sequence with `P = 1`, `Q = (1 - D) / 4`.
use crate::arith::isqrt;
use crate::modular::{add_mod, mul_mod};
use vstd::arithmetic::div_mod::{lemma_add_mod_noop, lemma_mul_mod_noop_general, lemma_mod_twice};
use vstd::arithmetic::mul::{
    lemma_mul_is_associative,
    lemma_mul_is_distributive_add,
    lemma_mul_is_distributive_add_other_way,
};
use vstd::prelude::*;

verus! {

/// The Lucas sequence `U_k(P, Q)`: `U_0 = 0`, `U_1 = 1`,
/// `U_k = P * U_{k-1} - Q * U_{k-2}`.
pub open spec fn lucas_u(p: int, q: int, k: nat) -> int
    decreases k,
{
    if k == 0 {
        0
    } else if k == 1 {
        1
    } else {
        p * lucas_u(p, q, (k - 1) as nat) - q * lucas_u(p, q, (k - 2) as nat)
    }
}

/// A 2x2 integer matrix, row by row.
pub type Mat = (int, int, int, int);

/// The matrix product.
pub open spec fn mat_mul(x: Mat, y: Mat) -> Mat {
    (
        x.0 * y.0 + x.1 * y.2,
        x.0 * y.1 + x.1 * y.3,
        x.2 * y.0 + x.3 * y.2,
        x.2 * y.1 + x.3 * y.3,
    )
}

/// The `k`-th power of `m`.
pub open spec fn mat_pow(m: Mat, k: nat) -> Mat
    decreases k,
{
    if k == 0 {
        (1, 0, 0, 1)
    } else {
        mat_mul(mat_pow(m, (k - 1) as nat), m)
    }
}

/// Each entry reduced modulo `n`.
pub open spec fn mat_mod(x: Mat, n: int) -> Mat {
    (x.0 % n, x.1 % n, x.2 % n, x.3 % n)
}

/// The companion matrix of the recurrence of `U`.
pub open spec fn companion(p: int, q: int) -> Mat {
    (p, -q, 1, 0)
}

proof fn lemma_entry_assoc(a: int, b: int, c: int, d: int, e: int, f: int, g: int, h: int)
    ensures
        (a * c + b * e) * g + (a * d + b * f) * h == a * (c * g + d * h) + b * (e * g + f * h),
{
    lemma_mul_is_distributive_add_other_way(g, a * c, b * e);
    lemma_mul_is_distributive_add_other_way(h, a * d, b * f);
    lemma_mul_is_distributive_add(a, c * g, d * h);
    lemma_mul_is_distributive_add(b, e * g, f * h);
    lemma_mul_is_associative(a, c, g);
    lemma_mul_is_associative(b, e, g);
    lemma_mul_is_associative(a, d, h);
    lemma_mul_is_associative(b, f, h);
}

proof fn lemma_mat_assoc(x: Mat, y: Mat, z: Mat)
    ensures
        mat_mul(mat_mul(x, y), z) == mat_mul(x, mat_mul(y, z)),
{
    lemma_entry_assoc(x.0, x.1, y.0, y.1, y.2, y.3, z.0, z.2);
    lemma_entry_assoc(x.0, x.1, y.0, y.1, y.2, y.3, z.1, z.3);
    lemma_entry_assoc(x.2, x.3, y.0, y.1, y.2, y.3, z.0, z.2);
    lemma_entry_assoc(x.2, x.3, y.0, y.1, y.2, y.3, z.1, z.3);
}

proof fn lemma_mat_pow_adds(m: Mat, a: nat, b: nat)
    ensures
        mat_pow(m, a + b) == mat_mul(mat_pow(m, a), mat_pow(m, b)),
    decreases b,
{
    if b == 0 {
        let x = mat_pow(m, a);
        assert(mat_mul(x, (1, 0, 0, 1)) == x);
    } else {
        lemma_mat_pow_adds(m, a, (b - 1) as nat);
        lemma_mat_assoc(mat_pow(m, a), mat_pow(m, (b - 1) as nat), m);
        assert(mat_pow(m, a + b) == mat_mul(mat_pow(m, (a + b - 1) as nat), m));
        assert(mat_pow(m, b) == mat_mul(mat_pow(m, (b - 1) as nat), m));
        assert((a + b - 1) as nat == a + (b - 1) as nat);
    }
}

/// The powers of the companion matrix hold the terms of `U`.
proof fn lemma_companion_pow(p: int, q: int, k: nat)
    requires
        k >= 1,
    ensures
        mat_pow(companion(p, q), k) == (
            lucas_u(p, q, k + 1),
            -q * lucas_u(p, q, k),
            lucas_u(p, q, k),
            -q * lucas_u(p, q, (k - 1) as nat),
        ),
    decreases k,
{
    if k == 1 {
        let c = companion(p, q);
        let i = mat_pow(c, 0);
        assert(i.0 == 1 && i.1 == 0 && i.2 == 0 && i.3 == 1);
        assert(mat_pow(c, 1) == mat_mul(i, c));
        assert(lucas_u(p, q, 0) == 0);
        assert(lucas_u(p, q, 1) == 1);
        assert(lucas_u(p, q, 2) == p * 1 - q * 0);
    } else {
        lemma_companion_pow(p, q, (k - 1) as nat);
        let c = companion(p, q);
        let prev = mat_pow(c, (k - 1) as nat);
        assert(mat_pow(c, k) == mat_mul(prev, c));
        let uk = lucas_u(p, q, (k - 1) as nat);
        let uk1 = lucas_u(p, q, k);
        assert(uk1 * (-q) == -q * uk1) by (nonlinear_arith);
        assert(uk * (-q) == -q * uk) by (nonlinear_arith);
        assert(uk1 * p == p * uk1) by (nonlinear_arith);
        assert(uk * p == p * uk) by (nonlinear_arith);
        let uk2 = lucas_u(p, q, (k - 2) as nat);
        assert((-q * uk) * 1 == -(q * uk)) by (nonlinear_arith);
        assert((-q * uk2) * 1 == -(q * uk2)) by (nonlinear_arith);
        assert(lucas_u(p, q, k + 1) == p * lucas_u(p, q, k) - q * lucas_u(p, q, (k - 1) as nat));
        assert(lucas_u(p, q, k) == p * lucas_u(p, q, (k - 1) as nat) - q * lucas_u(
            p,
            q,
            (k - 2) as nat,
        ));
    }
}

proof fn lemma_mat_mul_mod(x: Mat, y: Mat, n: int)
    requires
        n > 0,
    ensures
        mat_mod(mat_mul(mat_mod(x, n), mat_mod(y, n)), n) == mat_mod(mat_mul(x, y), n),
{
    assert forall|a: int, b: int, c: int, d: int|
        #![trigger (a * b + c * d) % n]
        ((a % n) * (b % n) + (c % n) * (d % n)) % n == (a * b + c * d) % n by {
        lemma_mul_mod_noop_general(a, b, n);
        lemma_mul_mod_noop_general(c, d, n);
        lemma_add_mod_noop((a % n) * (b % n), (c % n) * (d % n), n);
        lemma_add_mod_noop(a * b, c * d, n);
    }
}

/// A matrix of machine integers, read as a matrix of integers.
pub open spec fn mat_of(x: (u128, u128, u128, u128)) -> Mat {
    (x.0 as int, x.1 as int, x.2 as int, x.3 as int)
}

/// The product of two matrices with entries below `n`, modulo `n`.
fn mat_mul_mod(x: (u128, u128, u128, u128), y: (u128, u128, u128, u128), n: u128) -> (r: (
    u128,
    u128,
    u128,
    u128,
))
    requires
        n > 0,
        x.0 < n && x.1 < n && x.2 < n && x.3 < n,
        y.0 < n && y.1 < n && y.2 < n && y.3 < n,
    ensures
        mat_of(r) == mat_mod(mat_mul(mat_of(x), mat_of(y)), n as int),
        r.0 < n && r.1 < n && r.2 < n && r.3 < n,
{
    let ghost m = mat_mul(mat_of(x), mat_of(y));
    let r0 = add_mod(mul_mod(x.0, y.0, n), mul_mod(x.1, y.2, n), n);
    let r1 = add_mod(mul_mod(x.0, y.1, n), mul_mod(x.1, y.3, n), n);
    let r2 = add_mod(mul_mod(x.2, y.0, n), mul_mod(x.3, y.2, n), n);
    let r3 = add_mod(mul_mod(x.2, y.1, n), mul_mod(x.3, y.3, n), n);
    proof {
        let nn = n as int;
        assert forall|a: int, b: int, c: int, d: int|
            #![trigger (a * b + c * d) % nn]
            ((a * b) % nn + (c * d) % nn) % nn == (a * b + c * d) % nn by {
            lemma_add_mod_noop(a * b, c * d, nn);
        }
    }
    (r0, r1, r2, r3)
}

/// The matrix `c` raised to `k`, modulo `n`, by squaring.
fn mat_pow_mod(c: (u128, u128, u128, u128), k: u128, n: u128) -> (r: (u128, u128, u128, u128))
    requires
        n > 1,
        c.0 < n && c.1 < n && c.2 < n && c.3 < n,
    ensures
        mat_of(r) == mat_mod(mat_pow(mat_of(c), k as nat), n as int),
        r.0 < n && r.1 < n && r.2 < n && r.3 < n,
{
    let ghost cm = mat_of(c);
    let ghost nn = n as int;
    let mut result: (u128, u128, u128, u128) = (1, 0, 0, 1);
    let mut base: (u128, u128, u128, u128) = c;
    let mut e: u128 = k;
    let ghost mut done: nat = 0;
    let ghost mut pw: nat = 1;
    proof {
        let i = mat_pow(cm, 0);
        assert(i.0 == 1 && i.1 == 0 && i.2 == 0 && i.3 == 1);
        assert(mat_pow(cm, 1) == mat_mul(i, cm));
        vstd::arithmetic::div_mod::lemma_small_mod(1, n as nat);
        vstd::arithmetic::div_mod::lemma_small_mod(0, n as nat);
        vstd::arithmetic::div_mod::lemma_small_mod(c.0 as nat, n as nat);
        vstd::arithmetic::div_mod::lemma_small_mod(c.1 as nat, n as nat);
        vstd::arithmetic::div_mod::lemma_small_mod(c.2 as nat, n as nat);
        vstd::arithmetic::div_mod::lemma_small_mod(c.3 as nat, n as nat);
    }
    while e > 0
        invariant
            n > 1,
            nn == n,
            cm == mat_of(c),
            result.0 < n && result.1 < n && result.2 < n && result.3 < n,
            base.0 < n && base.1 < n && base.2 < n && base.3 < n,
            mat_of(result) == mat_mod(mat_pow(cm, done), nn),
            mat_of(base) == mat_mod(mat_pow(cm, pw), nn),
            done + pw * e == k,
        decreases e,
    {
        let ghost e0 = e as nat;
        if e % 2 == 1 {
            proof {
                lemma_mat_pow_adds(cm, done, pw);
                lemma_mat_mul_mod(mat_pow(cm, done), mat_pow(cm, pw), nn);
            }
            result = mat_mul_mod(result, base, n);
            proof {
                done = done + pw;
            }
        }
        proof {
            lemma_mat_pow_adds(cm, pw, pw);
            lemma_mat_mul_mod(mat_pow(cm, pw), mat_pow(cm, pw), nn);
        }
        base = mat_mul_mod(base, base, n);
        e = e / 2;
        proof {
            let prev_pw = pw;
            pw = pw + pw;
            assert(done + pw * e == k) by (nonlinear_arith)
                requires
                    e0 % 2 == 1 ==> done == k - prev_pw * e0 + prev_pw,
                    e0 % 2 != 1 ==> done == k - prev_pw * e0,
                    e == e0 / 2,
                    pw == prev_pw + prev_pw,
            ;
        }
    }
    result
}

/// The Jacobi symbol `(a / n)` for odd `n`, by quadratic reciprocity: halve
/// `a` while it is even (a factor 2 flips the sign when `n = 3, 5 (mod 8)`),
/// then swap and reduce (flipping when `a = n = 3 (mod 4)`); `(0 / n)` is 1
/// when `n == 1`, else 0.
pub open spec fn jacobi(a: nat, n: nat) -> int
    decreases a,
{
    if a == 0 {
        if n == 1 {
            1
        } else {
            0
        }
    } else if a % 2 == 0 {
        (if n % 8 == 3 || n % 8 == 5 {
            -1int
        } else {
            1int
        }) * jacobi(a / 2, n)
    } else {
        (if a % 4 == 3 && n % 4 == 3 {
            -1int
        } else {
            1int
        }) * jacobi(n % a, a)
    }
}

/// The Jacobi symbol `(a / n)`.
pub fn jacobi_symbol(a: u128, n: u128) -> (r: i8)
    ensures
        r as int == jacobi(a as nat, n as nat),
{
    let mut x: u128 = a;
    let mut y: u128 = n;
    let mut t: i8 = 1;
    while x != 0
        invariant
            t == 1 || t == -1,
            t * jacobi(x as nat, y as nat) == jacobi(a as nat, n as nat),
        decreases x,
    {
        let ghost j0 = jacobi(x as nat, y as nat);
        let ghost t0 = t as int;
        if x % 2 == 0 {
            let flip: bool = y % 8 == 3 || y % 8 == 5;
            x = x / 2;
            if flip {
                t = -t;
            }
            proof {
                let j1 = jacobi(x as nat, y as nat);
                if flip {
                    assert(j0 == -1 * j1);
                    assert(t * j1 == t0 * j0) by (nonlinear_arith)
                        requires
                            t == -t0,
                            j0 == -1 * j1,
                    ;
                } else {
                    assert(j0 == 1 * j1);
                    assert(t * j1 == t0 * j0) by (nonlinear_arith)
                        requires
                            t == t0,
                            j0 == 1 * j1,
                    ;
                }
            }
        } else {
            let flip: bool = x % 4 == 3 && y % 4 == 3;
            let rest: u128 = y % x;
            y = x;
            x = rest;
            if flip {
                t = -t;
            }
            proof {
                let j1 = jacobi(x as nat, y as nat);
                if flip {
                    assert(j0 == -1 * j1);
                    assert(t * j1 == t0 * j0) by (nonlinear_arith)
                        requires
                            t == -t0,
                            j0 == -1 * j1,
                    ;
                } else {
                    assert(j0 == 1 * j1);
                    assert(t * j1 == t0 * j0) by (nonlinear_arith)
                        requires
                            t == t0,
                            j0 == 1 * j1,
                    ;
                }
            }
        }
    }
    if y == 1 {
        t
    } else {
        0
    }
}

/// The number of discriminants tried before the search gives up.
pub const SELFRIDGE_TRIES: u64 = 1000;

/// The `k`-th discriminant of Selfridge's sequence `5, -7, 9, -11, ...`.
pub open spec fn selfridge_d(k: nat) -> int {
    if k % 2 == 0 {
        5 + 2 * (k as int)
    } else {
        -(5 + 2 * (k as int))
    }
}

/// Selfridge's search for `n`, from index `k`: the first index whose
/// discriminant `D` has `(D / n) = -1`; -1 when before it a `D` with
/// `|D| < n` has `(D / n) = 0`, so shares a factor with `n`; -2 when every
/// try is used up.
pub open spec fn selfridge_search(n: nat, k: nat) -> int
    decreases SELFRIDGE_TRIES - k,
{
    if k >= SELFRIDGE_TRIES {
        -2
    } else {
        let j = jacobi((selfridge_d(k) % (n as int)) as nat, n);
        if j == -1 {
            k as int
        } else if j == 0 && 5 + 2 * k < n {
            -1
        } else {
            selfridge_search(n, k + 1)
        }
    }
}

/// `n` is the square of an integer.
pub open spec fn is_square(n: nat) -> bool {
    exists|r: nat| #[trigger] (r * r) == n
}

/// The verdict of the Lucas test on `n`: small and even cases first; a
/// square is composite; a discriminant sharing a factor with `n` shows it
/// composite; with the discriminant `D` found, `n` passes when `n` divides
/// `U_{n+1}(1, (1 - D) / 4)`; when none is found, `n` is not shown composite.
pub open spec fn lucas_probable_prime(n: nat) -> bool {
    if n <= 1 {
        false
    } else if n <= 3 {
        true
    } else if n % 2 == 0 {
        false
    } else if is_square(n) {
        false
    } else {
        let s = selfridge_search(n, 0);
        if s >= 0 {
            let d = selfridge_d(s as nat);
            lucas_u(1, (1 - d) / 4, (n + 1) as nat) % (n as int) == 0
        } else {
            s == -2
        }
    }
}

proof fn lemma_neg_mod(w: int, n: int)
    requires
        n > 0,
    ensures
        (n - w % n) % n == (-w) % n,
{
    vstd::arithmetic::div_mod::lemma_mod_add_multiples_vanish(-(w % n), n);
    vstd::arithmetic::div_mod::lemma_sub_mod_noop(0, w, n);
    vstd::arithmetic::div_mod::lemma_small_mod(0, n as nat);
}

proof fn lemma_not_square(n: int, r: int)
    requires
        n >= 0,
        r >= 0,
        r * r <= n < (r + 1) * (r + 1),
        r * r != n,
    ensures
        !is_square(n as nat),
{
    if is_square(n as nat) {
        let s = choose|s: nat| #[trigger] (s * s) == n as nat;
        if s <= r {
            assert(s * s <= r * r) by (nonlinear_arith)
                requires
                    s <= r,
                    s >= 0,
            ;
        } else {
            assert(s * s >= (r + 1) * (r + 1)) by (nonlinear_arith)
                requires
                    s >= r + 1,
                    r >= 0,
            ;
        }
    }
}

/// The Lucas probable-prime test with Selfridge's discriminant.
pub fn lucas_test(n: u128) -> (r: bool)
    ensures
        r == lucas_probable_prime(n as nat),
{
    if n <= 1 {
        return false;
    }
    if n <= 3 {
        return true;
    }
    if n % 2 == 0 {
        return false;
    }
    let root: u64 = isqrt(n);
    let sq: u128 = (root as u128) * (root as u128);
    if sq == n {
        assert(is_square(n as nat)) by {
            assert((root as nat) * (root as nat) == n as nat);
        }
        return false;
    }
    proof {
        lemma_not_square(n as int, root as int);
    }
    let mut k: u64 = 0;
    while k < SELFRIDGE_TRIES
        invariant
            n > 3,
            n % 2 == 1,
            !is_square(n as nat),
            k <= SELFRIDGE_TRIES,
            selfridge_search(n as nat, 0) == selfridge_search(n as nat, k as nat),
        decreases SELFRIDGE_TRIES - k,
    {
        let m: u128 = 5 + 2 * (k as u128);
        let dmod: u128 = if k % 2 == 0 {
            m % n
        } else {
            (n - m % n) % n
        };
        proof {
            if k % 2 != 0 {
                lemma_neg_mod(m as int, n as int);
            }
            assert(dmod as int == selfridge_d(k as nat) % (n as int));
        }
        let j: i8 = jacobi_symbol(dmod, n);
        if j == -1 {
            return lucas_holds(n, k);
        }
        if j == 0 && m < n {
            return false;
        }
        k = k + 1;
    }
    true
}

/// With the `k`-th discriminant `D`: whether `n` divides `U_{n+1}(1, (1 - D) / 4)`.
fn lucas_holds(n: u128, k: u64) -> (r: bool)
    requires
        n > 3,
        k < SELFRIDGE_TRIES,
    ensures
        r == (lucas_u(1, (1 - selfridge_d(k as nat)) / 4, (n + 1) as nat) % (n as int) == 0),
{
    let m: u128 = 5 + 2 * (k as u128);
    let ghost d = selfridge_d(k as nat);
    let ghost q = (1 - d) / 4;
    let negq: u128 = if k % 2 == 0 {
        ((m - 1) / 4) % n
    } else {
        (n - ((m + 1) / 4) % n) % n
    };
    proof {
        if k % 2 == 0 {
            assert(-q == (m - 1) / 4);
        } else {
            assert(q == (m + 1) / 4);
            lemma_neg_mod(((m + 1) / 4) as int, n as int);
        }
        assert(negq as int == (-q) % (n as int));
    }
    let c: (u128, u128, u128, u128) = (1, negq, 1, 0);
    let ghost cm = companion(1, q);
    proof {
        vstd::arithmetic::div_mod::lemma_small_mod(1, n as nat);
        vstd::arithmetic::div_mod::lemma_small_mod(0, n as nat);
        assert(mat_of(c) == mat_mod(cm, n as int));
        lemma_mod_twice(1, n as int);
        lemma_mod_twice(-q, n as int);
        lemma_mod_twice(0, n as int);
        assert(mat_pow(mat_of(c), n as nat) == mat_pow(mat_mod(cm, n as int), n as nat));
        lemma_mat_pow_mod(cm, n as nat, n as int);
    }
    let pw = mat_pow_mod(c, n, n);
    let full = mat_mul_mod(pw, c, n);
    proof {
        lemma_mat_mul_mod(mat_pow(cm, n as nat), cm, n as int);
        assert(mat_pow(cm, (n + 1) as nat) == mat_mul(mat_pow(cm, n as nat), cm));
        lemma_companion_pow(1, q, (n + 1) as nat);
    }
    full.2 == 0
}

/// Raising a reduced matrix to a power and reducing gives the reduced power.
proof fn lemma_mat_pow_mod(m: Mat, k: nat, n: int)
    requires
        n > 0,
    ensures
        mat_mod(mat_pow(mat_mod(m, n), k), n) == mat_mod(mat_pow(m, k), n),
    decreases k,
{
    if k == 0 {
    } else {
        lemma_mat_pow_mod(m, (k - 1) as nat, n);
        let a = mat_pow(mat_mod(m, n), (k - 1) as nat);
        let b = mat_pow(m, (k - 1) as nat);
        lemma_mat_mul_mod(a, mat_mod(m, n), n);
        lemma_mat_mul_mod(b, m, n);
        lemma_mod_twice(m.0, n);
        lemma_mod_twice(m.1, n);
        lemma_mod_twice(m.2, n);
        lemma_mod_twice(m.3, n);
        assert(mat_mod(mat_mod(m, n), n) == mat_mod(m, n));
    }
}

} // verus!
