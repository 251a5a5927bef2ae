//! Counting primes in `[2, n]` and in `[a, n]`: narrow ranges are filtered
//! through the exact test, wide ones are read off a sieve.
use crate::arith::spec_is_prime;
use crate::sieve::{count_primes, count_set, flags_match_primes, lemma_count_set_is_count_primes, Sieve};
use crate::table::SmallPrimeTable;
use crate::PrimeError;
use rayon::iter::{IntoParallelIterator, IntoParallelRefIterator, ParallelIterator};
use vstd::prelude::*;

verus! {

/// Below this span a range is filtered through the exact test instead of sieved.
pub const NARROW_SPAN: usize = 10000;

/// Relies on rayon's `filter` and `count` over the inclusive range `a..=n`:
/// the number of elements for which the predicate holds.
#[verifier::external_body]
fn count_primes_in_span(table: &SmallPrimeTable, a: usize, n: usize) -> (r: usize)
    requires
        table.wf(),
    ensures
        r == count_primes(a as int, n + 1),
{
    (a..=n).into_par_iter().filter(|&i| table.is_prime(i as u128)).count()
}

/// Relies on rayon's `filter` and `count` over a slice: the number of
/// elements for which the predicate holds, here the flags that are set.
#[verifier::external_body]
fn count_set_flags(flags: &[bool]) -> (r: usize)
    ensures
        r == count_set(flags@),
{
    flags.par_iter().filter(|f| **f).count()
}

/// The number of primes in `[2, n]`; zero when `n < 2`.
pub fn prime_count(n: usize) -> (r: usize)
    requires
        n < usize::MAX,
    ensures
        r == count_primes(2, n + 1),
{
    if n < 2 {
        assert(count_primes(2, n + 1) == 0);
        return 0;
    }
    match Sieve::build(n) {
        Ok(sieve) => {
            let r = count_set_flags(sieve.flags_from(2));
            proof {
                lemma_count_set_is_count_primes(sieve@, 2, n + 1);
            }
            r
        },
        Err(_) => vstd::pervasive::unreached(),
    }
}

/// The number of primes in `[a, n]`; fails with `InvalidArgument` when `a > n`.
pub fn prime_count_range(a: usize, n: usize) -> (r: Result<usize, PrimeError>)
    requires
        n < usize::MAX,
    ensures
        a > n ==> r == Err::<usize, PrimeError>(PrimeError::InvalidArgument),
        a <= n ==> r == Ok::<usize, PrimeError>(count_primes(a as int, n + 1) as usize),
{
    if a > n {
        return Err(PrimeError::InvalidArgument);
    }
    if n - a < NARROW_SPAN {
        let table = SmallPrimeTable::new();
        return Ok(count_primes_in_span(&table, a, n));
    }
    match Sieve::build(n) {
        Ok(sieve) => {
            let r = count_set_flags(sieve.flags_from(a));
            proof {
                lemma_count_set_is_count_primes(sieve@, a as int, n + 1);
            }
            Ok(r)
        },
        Err(_) => vstd::pervasive::unreached(),
    }
}

/// A range of one integer holds one prime if that integer is prime, else none.
pub proof fn lemma_single_point_range(n: int)
    ensures
        count_primes(n, n + 1) == if spec_is_prime(n) {
            1nat
        } else {
            0nat
        },
{
    assert(count_primes(n, n) == 0);
}

/// Splitting `[a, c)` at `b` splits the count: the count over a range is
/// the sum of the counts over its parts.
pub proof fn lemma_count_split(a: int, b: int, c: int)
    requires
        a <= b <= c,
    ensures
        count_primes(a, c) == count_primes(a, b) + count_primes(b, c),
    decreases c - b,
{
    if c > b {
        lemma_count_split(a, b, c - 1);
    } else {
        assert(count_primes(b, c) == 0);
    }
}

/// The sieve and the exact test agree on every integer of `[2, n]`.
pub proof fn lemma_sieve_agrees_with_trial_division(sieve: Sieve, n: int, i: int)
    requires
        sieve.wf(n),
        2 <= i <= n,
    ensures
        sieve@[i] == spec_is_prime(i),
{
    assert(flags_match_primes(sieve@));
}

/// Read off a sieve of `[0, n]`, the count of set flags in `[a, n]` is the
/// number of primes there: the two counting paths give the same result.
pub proof fn lemma_sieve_count_is_prime_count(sieve: Sieve, a: int, n: int)
    requires
        sieve.wf(n),
        0 <= a <= n + 1,
    ensures
        count_set(sieve@.subrange(a, n + 1)) == count_primes(a, n + 1),
{
    lemma_count_set_is_count_primes(sieve@, a, n + 1);
}

} // verus!
