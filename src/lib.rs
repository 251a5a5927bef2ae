//! Primality testing and prime counting over wide unsigned integers.
//!
//! Two primality tiers: `is_prime` is exact (table lookup, then trial
//! division), `is_prime_fast` uses Miller-Rabin below 2^64 and Baillie-PSW
//! above. `prime_count` and `prime_count_range` count primes with a sieve or,
//! on narrow ranges, through the exact test.
use vstd::prelude::*;

pub mod arith;
pub mod count;
pub mod fast;
pub mod fermat;
pub mod lucas;
pub mod miller_rabin;
pub mod modular;
pub mod sieve;
pub mod table;
pub mod trial;

pub use count::{prime_count, prime_count_range};
pub use fast::{is_prime_fast, is_prime_fast_with_rng};
pub use trial::is_prime;

verus! {

/// The failures the library reports.
#[derive(Debug, Clone, Copy, PartialEq, Eq, Structural)]
pub enum PrimeError {
    /// A sieve limit below 2, or a range whose start lies past its end.
    InvalidArgument,
}

} // verus!
