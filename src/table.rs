//! The table of small primes: a fast answer below its bound, and the trial
//! divisors tried first above it.
use crate::arith::spec_is_prime;
use crate::sieve::{flags_match_primes, Sieve};
use vstd::prelude::*;

verus! {

/// Every integer below this bound is answered from the table.
pub const TABLE_LIMIT: usize = 65536;

/// The primes below `TABLE_LIMIT`, both as flags by index and as an
/// ascending list.
pub struct SmallPrimeTable {
    sieve: Sieve,
    primes: Vec<u64>,
}

impl SmallPrimeTable {
    /// The flags of `[0, TABLE_LIMIT)`.
    pub closed spec fn flags(&self) -> Seq<bool> {
        self.sieve@
    }

    /// The ascending list of primes.
    pub closed spec fn view(&self) -> Seq<u64> {
        self.primes@
    }

    /// The flags tell primality below the bound, and the list holds exactly
    /// the primes below the bound, in ascending order.
    pub open spec fn wf(&self) -> bool {
        &&& self.flags().len() == TABLE_LIMIT
        &&& flags_match_primes(self.flags())
        &&& forall|i: int, j: int| 0 <= i < j < self@.len() ==> self@[i] < self@[j]
        &&& forall|i: int|
            0 <= i < self@.len() ==> spec_is_prime(#[trigger] self@[i] as int) && self@[i]
                < TABLE_LIMIT
        &&& forall|p: int|
            0 <= p < TABLE_LIMIT && spec_is_prime(p) ==> exists|i: int|
                0 <= i < self@.len() && #[trigger] self@[i] as int == p
    }

    /// Builds the table by sieving `[0, TABLE_LIMIT)`; the same table every time.
    pub fn new() -> (r: SmallPrimeTable)
        ensures
            r.wf(),
    {
        let sieve = match Sieve::build(TABLE_LIMIT - 1) {
            Ok(s) => s,
            Err(_) => vstd::pervasive::unreached(),
        };
        let mut primes: Vec<u64> = Vec::new();
        let mut i: usize = 0;
        while i < TABLE_LIMIT
            invariant
                i <= TABLE_LIMIT,
                sieve.wf(TABLE_LIMIT - 1),
                forall|a: int, b: int| 0 <= a < b < primes@.len() ==> primes@[a] < primes@[b],
                forall|a: int|
                    0 <= a < primes@.len() ==> spec_is_prime(#[trigger] primes@[a] as int)
                        && primes@[a] < i,
                forall|p: int|
                    0 <= p < i && spec_is_prime(p) ==> exists|a: int|
                        0 <= a < primes@.len() && #[trigger] primes@[a] as int == p,
            decreases TABLE_LIMIT - i,
        {
            let ghost before = primes@;
            if sieve.is_marked_prime(i) {
                primes.push(i as u64);
                assert(primes@[primes@.len() - 1] as int == i as int);
            }
            assert forall|p: int| 0 <= p < i + 1 && spec_is_prime(p) implies exists|a: int|
                0 <= a < primes@.len() && #[trigger] primes@[a] as int == p by {
                if p < i {
                    let a = choose|a: int| 0 <= a < before.len() && #[trigger] before[a] as int == p;
                    assert(primes@[a] == before[a]);
                } else {
                    assert(primes@[primes@.len() - 1] as int == p);
                }
            }
            i = i + 1;
        }
        let ghost ps = primes@;
        let r = SmallPrimeTable { sieve, primes };
        assert(r.flags() == sieve@);
        assert(r@ == ps);
        assert forall|p: int| 0 <= p < TABLE_LIMIT && spec_is_prime(p) implies exists|a: int|
            0 <= a < r@.len() && #[trigger] r@[a] as int == p by {
            let a = choose|a: int| 0 <= a < ps.len() && #[trigger] ps[a] as int == p;
            assert(r@[a] as int == p);
        }
        r
    }

    /// Whether `n`, below the bound, is prime.
    pub fn contains(&self, n: u128) -> (r: bool)
        requires
            self.wf(),
            n < TABLE_LIMIT,
        ensures
            r == spec_is_prime(n as int),
    {
        self.sieve.is_marked_prime(n as usize)
    }

    /// The primes below the bound, ascending.
    pub fn divisors(&self) -> (r: &Vec<u64>)
        ensures
            r@ == self@,
    {
        &self.primes
    }
}

} // verus!
