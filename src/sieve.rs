//! The sieve of Eratosthenes over `[0, n]` and the counting facts built on it.
use crate::arith::{lemma_divides_trans, lemma_prime_by_small_primes, spec_is_prime};
use crate::PrimeError;
use vstd::arithmetic::div_mod::{
    lemma_add_mod_noop,
    lemma_fundamental_div_mod,
    lemma_mod_multiples_basic,
    lemma_small_mod,
};
use vstd::prelude::*;

verus! {

/// Number of primes in the half-open range `[a, b)`.
pub open spec fn count_primes(a: int, b: int) -> nat
    decreases b - a,
{
    if b <= a {
        0
    } else {
        count_primes(a, b - 1) + if spec_is_prime(b - 1) {
            1nat
        } else {
            0nat
        }
    }
}

/// Number of `true` entries of a sequence of flags.
pub open spec fn count_set(s: Seq<bool>) -> nat
    decreases s.len(),
{
    if s.len() == 0 {
        0
    } else {
        count_set(s.drop_last()) + if s.last() {
            1nat
        } else {
            0nat
        }
    }
}

/// Flag `i` of `s` tells whether `i` is prime, for every index of `s`.
pub open spec fn flags_match_primes(s: Seq<bool>) -> bool {
    forall|i: int| 0 <= i < s.len() ==> #[trigger] s[i] == spec_is_prime(i)
}

/// On flags that tell primality by index, counting the flags set in
/// `[a, b)` counts the primes there.
pub proof fn lemma_count_set_is_count_primes(s: Seq<bool>, a: int, b: int)
    requires
        flags_match_primes(s),
        0 <= a <= b <= s.len(),
    ensures
        count_set(s.subrange(a, b)) == count_primes(a, b),
    decreases b - a,
{
    if b > a {
        lemma_count_set_is_count_primes(s, a, b - 1);
        assert(s.subrange(a, b).drop_last() =~= s.subrange(a, b - 1));
        assert(s.subrange(a, b).last() == s[b - 1]);
    } else {
        assert(s.subrange(a, b).len() == 0);
    }
}

/// `j` is at least 2 and has no divisor `d` in `[2, i)` with `d * d <= j`.
pub open spec fn sieved(j: int, i: int) -> bool {
    j >= 2 && forall|d: int| 2 <= d < i && d * d <= j ==> #[trigger] (j % d) != 0
}

proof fn lemma_sieved_done(j: int, i: int)
    requires
        j < i * i,
        i >= 2,
    ensures
        sieved(j, i) == spec_is_prime(j),
{
    if spec_is_prime(j) {
        assert forall|d: int| 2 <= d < i && d * d <= j implies #[trigger] (j % d) != 0 by {
            assert(d < j) by (nonlinear_arith)
                requires
                    2 <= d,
                    d * d <= j,
            ;
        }
    }
    if sieved(j, i) {
        assert forall|p: int| spec_is_prime(p) && p * p <= j implies #[trigger] (j % p) != 0 by {
            assert(p < i) by (nonlinear_arith)
                requires
                    p >= 2,
                    p * p <= j,
                    j < i * i,
                    i >= 2,
            ;
        }
        lemma_prime_by_small_primes(j);
    }
}

proof fn lemma_no_multiple_between(c: int, j: int, i: int)
    requires
        i > 0,
        c >= 0,
        c % i == 0,
        c < j < c + i,
    ensures
        j % i != 0,
{
    lemma_add_mod_noop(j - c, c, i);
    lemma_small_mod((j - c) as nat, i as nat);
}

/// Prime flags for every integer of `[0, n]`.
pub struct Sieve {
    flags: Vec<bool>,
}

impl Sieve {
    /// The flags, indexed by the integer they describe.
    pub closed spec fn view(&self) -> Seq<bool> {
        self.flags@
    }

    /// The sieve covers `[0, n]` and each flag tells whether its index is prime.
    pub open spec fn wf(&self, n: int) -> bool {
        self@.len() == n + 1 && flags_match_primes(self@)
    }

    /// Builds the sieve of `[0, n]`; fails with `InvalidArgument` when `n < 2`.
    pub fn build(n: usize) -> (r: Result<Sieve, PrimeError>)
        requires
            n < usize::MAX,
        ensures
            n < 2 ==> r == Err::<Sieve, PrimeError>(PrimeError::InvalidArgument),
            n >= 2 ==> r is Ok && r->Ok_0.wf(n as int),
    {
        if n < 2 {
            return Err(PrimeError::InvalidArgument);
        }
        let mut flags: Vec<bool> = Vec::new();
        let mut k: usize = 0;
        while k <= n
            invariant
                k <= n + 1,
                n < usize::MAX,
                flags@.len() == k,
                forall|j: int| 0 <= j < k ==> #[trigger] flags@[j] == (j >= 2),
            decreases n + 1 - k,
        {
            flags.push(k >= 2);
            k = k + 1;
        }
        let mut i: usize = 2;
        while i <= n / i
            invariant
                2 <= i,
                n < usize::MAX,
                flags@.len() == n + 1,
                forall|j: int| 0 <= j <= n ==> #[trigger] flags@[j] == sieved(j, i as int),
            decreases n - i,
        {
            assert(i * i <= n) by {
                lemma_fundamental_div_mod(n as int, i as int);
                assert(i * (n / i) <= n);
                assert(i * i <= i * (n / i)) by (nonlinear_arith)
                    requires
                        i <= n / i,
                ;
            }
            assert(i < n) by (nonlinear_arith)
                requires
                    i * i <= n,
                    2 <= i,
            ;
            if flags[i] {
                let mut cur: usize = i * i;
                assert((i * i) % (i as int) == 0) by {
                    lemma_mod_multiples_basic(i as int, i as int);
                }
                while cur <= n
                    invariant
                        2 <= i,
                        i * i <= n,
                        n < usize::MAX,
                        i * i <= cur <= n + 1,
                        cur <= n ==> cur % i == 0,
                        flags@.len() == n + 1,
                        forall|j: int|
                            0 <= j <= n ==> #[trigger] flags@[j] == (sieved(j, i as int) && !(i
                                * i <= j < cur && j % (i as int) == 0)),
                    decreases n + 1 - cur,
                {
                    flags.set(cur, false);
                    let next: usize = if n - cur < i {
                        n + 1
                    } else {
                        cur + i
                    };
                    assert forall|j: int| 0 <= j <= n implies #[trigger] flags@[j] == (sieved(
                        j,
                        i as int,
                    ) && !(i * i <= j < next && j % (i as int) == 0)) by {
                        if cur < j < next {
                            lemma_no_multiple_between(cur as int, j, i as int);
                        }
                    }
                    if next <= n {
                        assert((cur + i) % (i as int) == 0) by {
                            lemma_add_mod_noop(cur as int, i as int, i as int);
                            lemma_small_mod(0, i as nat);
                        }
                    }
                    cur = next;
                }
            } else {
                proof {
                    assert(!sieved(i as int, i as int));
                    let d = choose|d: int|
                        2 <= d < i && d * d <= i && #[trigger] ((i as int) % d) == 0;
                    assert forall|j: int|
                        0 <= j <= n && i * i <= j && j % (i as int) == 0 implies !sieved(
                        j,
                        i as int,
                    ) by {
                        lemma_divides_trans(j, i as int, d);
                        assert(d * d <= j) by (nonlinear_arith)
                            requires
                                d * d <= i,
                                i * i <= j,
                                2 <= i,
                        ;
                    }
                }
            }
            assert forall|j: int| 0 <= j <= n implies #[trigger] flags@[j] == sieved(j, i + 1) by {
                if sieved(j, i as int) && !(i * i <= j && j % (i as int) == 0) {
                    assert forall|d: int| 2 <= d < i + 1 && d * d <= j implies #[trigger] (j % d) != 0 by {
                        if d < i {
                        } else {
                            assert(d == i);
                        }
                    }
                }
            }
            i = i + 1;
        }
        assert forall|j: int| 0 <= j <= n implies #[trigger] flags@[j] == spec_is_prime(j) by {
            assert(n < i * i) by {
                lemma_fundamental_div_mod(n as int, i as int);
                assert((n as int) % (i as int) < i);
                assert(i * (n / i) + i <= i * i) by (nonlinear_arith)
                    requires
                        n / i < i,
                        i >= 2,
                ;
            }
            lemma_sieved_done(j, i as int);
        }
        Ok(Sieve { flags })
    }

    /// Whether `i` is prime, read from the sieve.
    pub fn is_marked_prime(&self, i: usize) -> (r: bool)
        requires
            i < self@.len(),
            flags_match_primes(self@),
        ensures
            r == spec_is_prime(i as int),
    {
        self.flags[i]
    }

    /// The largest integer the sieve covers.
    pub fn limit(&self) -> (r: usize)
        requires
            self@.len() > 0,
        ensures
            r + 1 == self@.len(),
    {
        self.flags.len() - 1
    }

    /// The flags of `[a, n]`, as a slice.
    pub fn flags_from(&self, a: usize) -> (r: &[bool])
        requires
            a <= self@.len(),
        ensures
            r@ == self@.subrange(a as int, self@.len() as int),
    {
        vstd::slice::slice_subrange(self.flags.as_slice(), a, self.flags.len())
    }
}

} // verus!
