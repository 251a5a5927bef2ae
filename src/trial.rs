//! The exact primality test: table lookup, then trial division by the table's
//! primes, then by every `6k ± 1` up to the square root, in parallel.
use crate::arith::{isqrt, lemma_divisor_not_prime, lemma_prime_by_small_primes, spec_is_prime};
use crate::table::{SmallPrimeTable, TABLE_LIMIT};
use rayon::iter::{IntoParallelIterator, ParallelIterator};
use vstd::prelude::*;

verus! {

/// The first `k` whose candidates `6k + 5`, `6k + 7` lie past the table.
pub const FIRST_PAIR: u64 = 10922;

/// Neither `6k + 5` nor `6k + 7` divides `n`.
pub open spec fn pair_clear_spec(n: int, k: int) -> bool {
    n % (6 * k + 5) != 0 && n % (6 * k + 7) != 0
}

/// Whether neither `6k + 5` nor `6k + 7` divides `n`.
pub fn pair_clear(n: u128, k: u64) -> (r: bool)
    ensures
        r == pair_clear_spec(n as int, k as int),
{
    let c: u128 = 6 * (k as u128) + 5;
    n % c != 0 && n % (c + 2) != 0
}

/// Relies on rayon's `ParallelIterator::all` over the inclusive range
/// `lo..=hi`: true exactly when the predicate holds for every element.
#[verifier::external_body]
fn all_pairs_clear(n: u128, lo: u64, hi: u64) -> (r: bool)
    ensures
        r == (forall|k: int| lo <= k <= hi ==> #[trigger] pair_clear_spec(n as int, k)),
{
    (lo..=hi).into_par_iter().all(|k| pair_clear(n, k))
}

proof fn lemma_prime_mod_six(p: int)
    requires
        spec_is_prime(p),
        p > 3,
    ensures
        p % 6 == 1 || p % 6 == 5,
{
    let r = p % 6;
    let q = p / 6;
    assert(p == 6 * q + r);
    if r == 0 || r == 2 || r == 4 {
        assert(p % 2 == 0);
        assert(p % 2 != 0);
    }
    if r == 3 {
        assert(p % 3 == 0);
        assert(p % 3 != 0);
    }
}

impl SmallPrimeTable {
    /// Whether `n` is prime, exactly.
    pub fn is_prime(&self, n: u128) -> (r: bool)
        requires
            self.wf(),
        ensures
            r == spec_is_prime(n as int),
    {
        if n < TABLE_LIMIT as u128 {
            return self.contains(n);
        }
        let primes = self.divisors();
        let mut i: usize = 0;
        while i < primes.len()
            invariant
                self.wf(),
                primes@ == self@,
                i <= primes@.len(),
                n >= TABLE_LIMIT,
                forall|j: int| 0 <= j < i ==> (n as int) % (#[trigger] primes@[j] as int) != 0,
            decreases primes@.len() - i,
        {
            let p: u64 = primes[i];
            if n % (p as u128) == 0 {
                proof {
                    lemma_divisor_not_prime(n as int, p as int);
                }
                return false;
            }
            i = i + 1;
        }
        let r: u64 = isqrt(n);
        let clear: bool = if r < 6 * FIRST_PAIR + 5 {
            true
        } else {
            all_pairs_clear(n, FIRST_PAIR, (r - 5) / 6)
        };
        proof {
            if clear {
                assert forall|p: int| spec_is_prime(p) && p * p <= n implies #[trigger] ((
                n as int) % p) != 0 by {
                    if p < TABLE_LIMIT {
                        let j = choose|j: int| 0 <= j < self@.len() && #[trigger] self@[j] as int == p;
                        assert((n as int) % (primes@[j] as int) != 0);
                    } else {
                        assert(p <= r) by (nonlinear_arith)
                            requires
                                p * p <= n,
                                n < (r + 1) * (r + 1),
                                p >= 0,
                        ;
                        lemma_prime_mod_six(p);
                        if p % 6 == 5 {
                            let k = (p - 5) / 6;
                            assert(pair_clear_spec(n as int, k));
                        } else {
                            let k = (p - 7) / 6;
                            assert(pair_clear_spec(n as int, k));
                        }
                    }
                }
                lemma_prime_by_small_primes(n as int);
            } else {
                let hi = (r - 5) / 6;
                let k = choose|k: int| FIRST_PAIR <= k <= hi && !#[trigger] pair_clear_spec(n as int, k);
                assert(r + 2 < n) by (nonlinear_arith)
                    requires
                        r * r <= n,
                        r >= 6 * FIRST_PAIR + 5,
                ;
                if (n as int) % (6 * k + 5) == 0 {
                    lemma_divisor_not_prime(n as int, 6 * k + 5);
                } else {
                    lemma_divisor_not_prime(n as int, 6 * k + 7);
                }
            }
        }
        clear
    }
}

/// Whether `n` is prime, exactly: the table below its bound, trial division above.
pub fn is_prime(n: u128) -> (r: bool)
    ensures
        r == spec_is_prime(n as int),
{
    let table = SmallPrimeTable::new();
    table.is_prime(n)
}

} // verus!
