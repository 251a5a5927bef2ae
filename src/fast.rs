//! The fast primality tier: Miller-Rabin with random witnesses below 2^64,
//! the Baillie-PSW combination (one Miller-Rabin round, then Lucas) above.
//!
//! Below 2^64 a composite passes five random witnesses only with
//! probability at most 4^-5; above it no composite is known to pass
//! Baillie-PSW, though none is proven impossible.
use crate::arith::spec_is_prime;
use crate::fermat::lemma_fermat_little;
use crate::lucas::{lucas_probable_prime, lucas_test};
use crate::miller_rabin::{
    lemma_prime_fermat_base_is_strong,
    miller_rabin,
    miller_rabin_verdict,
    passes_all,
    strong_probable_prime,
};
use rand::rngs::StdRng;
use rand::{Rng, SeedableRng};
use vstd::prelude::*;

verus! {

#[verifier::external_type_specification]
#[verifier::external_body]
pub struct ExStdRng(StdRng);

/// Random witnesses drawn for an input below 2^64.
pub const SMALL_WITNESSES: usize = 5;

/// Inputs below this bound take the Miller-Rabin tier; above, Baillie-PSW.
pub const WIDE_BOUND: u128 = 0x1_0000_0000_0000_0000;

/// `n` is settled without any witness: at most 3, or divisible by 2 or 3.
pub open spec fn screened(n: nat) -> bool {
    n <= 3 || n % 2 == 0 || n % 3 == 0
}

/// How many witnesses the fast tier draws for `n`.
pub open spec fn witness_count(n: nat) -> nat {
    if screened(n) {
        0
    } else if n < WIDE_BOUND {
        SMALL_WITNESSES as nat
    } else {
        1
    }
}

/// `ws` is a draw the fast tier may make for `n`: the right number of
/// witnesses, each in `[2, n - 2]`.
pub open spec fn witnesses_ok(n: nat, ws: Seq<u128>) -> bool {
    ws.len() == witness_count(n) && forall|i: int|
        0 <= i < ws.len() ==> 2 <= #[trigger] ws[i] && ws[i] <= n - 2
}

/// The verdict of the fast tier on `n` with witnesses `ws`.
pub open spec fn fast_verdict(n: nat, ws: Seq<u128>) -> bool {
    if n <= 1 {
        false
    } else if n <= 3 {
        true
    } else if n % 2 == 0 || n % 3 == 0 {
        false
    } else if n < WIDE_BOUND {
        passes_all(n, ws)
    } else {
        passes_all(n, ws) && lucas_probable_prime(n)
    }
}

/// Relies on rand's `SeedableRng::from_entropy`: a generator seeded by the
/// operating system.
#[verifier::external_body]
fn entropy_rng() -> StdRng {
    StdRng::from_entropy()
}

/// Relies on rand's `Rng::gen_range` over `2..n - 1`: a value of that
/// half-open range (it panics only on an empty range, ruled out here).
#[verifier::external_body]
fn draw_witness(rng: &mut StdRng, n: u128) -> (r: u128)
    requires
        n >= 5,
    ensures
        2 <= r <= n - 2,
{
    rng.gen_range(2..n - 1)
}

/// Baillie-PSW: one Miller-Rabin round with `witness`, then the Lucas test.
pub fn bpsw_test(n: u128, witness: u128) -> (r: bool)
    ensures
        r == (miller_rabin_verdict(n as nat, seq![witness]) && lucas_probable_prime(n as nat)),
{
    let ws: Vec<u128> = vec![witness];
    assert(ws@ == seq![witness]);
    if !miller_rabin(n, &ws) {
        return false;
    }
    lucas_test(n)
}

/// The fast tier with the witnesses given.
pub fn is_prime_fast_with_witnesses(n: u128, witnesses: &Vec<u128>) -> (r: bool)
    ensures
        r == fast_verdict(n as nat, witnesses@),
{
    if n <= 1 {
        return false;
    }
    if n <= 3 {
        return true;
    }
    if n % 2 == 0 || n % 3 == 0 {
        return false;
    }
    if !miller_rabin(n, witnesses) {
        return false;
    }
    if n < WIDE_BOUND {
        return true;
    }
    lucas_test(n)
}

/// The fast tier, drawing its witnesses from `rng`.
pub fn is_prime_fast_with_rng(n: u128, rng: &mut StdRng) -> (r: bool)
    ensures
        exists|ws: Seq<u128>| witnesses_ok(n as nat, ws) && r == fast_verdict(n as nat, ws),
{
    let mut ws: Vec<u128> = Vec::new();
    if !(n <= 3 || n % 2 == 0 || n % 3 == 0) {
        let count: usize = if n < WIDE_BOUND {
            SMALL_WITNESSES
        } else {
            1
        };
        let mut i: usize = 0;
        while i < count
            invariant
                n >= 5,
                i <= count,
                ws@.len() == i,
                forall|j: int| 0 <= j < ws@.len() ==> 2 <= #[trigger] ws@[j] && ws@[j] <= n - 2,
            decreases count - i,
        {
            let w = draw_witness(rng, n);
            ws.push(w);
            i = i + 1;
        }
    }
    let r = is_prime_fast_with_witnesses(n, &ws);
    assert(witnesses_ok(n as nat, ws@));
    r
}

/// The fast tier, with witnesses from a generator seeded by the system.
pub fn is_prime_fast(n: u128) -> (r: bool)
    ensures
        exists|ws: Seq<u128>| witnesses_ok(n as nat, ws) && r == fast_verdict(n as nat, ws),
{
    let mut rng = entropy_rng();
    is_prime_fast_with_rng(n, &mut rng)
}

/// Miller-Rabin rejects no prime: a prime passes with any witnesses that it
/// does not divide.
pub proof fn lemma_miller_rabin_accepts_primes(n: nat, ws: Seq<u128>)
    requires
        spec_is_prime(n as int),
        forall|i: int| 0 <= i < ws.len() ==> (#[trigger] ws[i] as int) % (n as int) != 0,
    ensures
        miller_rabin_verdict(n, ws),
{
    if n > 3 {
        assert(n % 2 != 0);
        assert forall|i: int| 0 <= i < ws.len() implies #[trigger] strong_probable_prime(
            n,
            ws[i] as nat,
        ) by {
            lemma_fermat_little(n, ws[i] as nat);
            lemma_prime_fermat_base_is_strong(n, ws[i] as nat);
        }
    }
}

/// Below 2^64 the fast tier rejects no prime, whatever witnesses it draws.
pub proof fn lemma_fast_tier_accepts_primes(n: nat, ws: Seq<u128>)
    requires
        spec_is_prime(n as int),
        n < WIDE_BOUND,
        witnesses_ok(n, ws),
    ensures
        fast_verdict(n, ws),
{
    if n > 3 {
        assert(n % 2 != 0);
        assert(n % 3 != 0);
        assert forall|i: int| 0 <= i < ws.len() implies (#[trigger] ws[i] as int) % (n as int)
            != 0 by {
            vstd::arithmetic::div_mod::lemma_small_mod(ws[i] as nat, n);
        }
        lemma_miller_rabin_accepts_primes(n, ws);
    }
}

} // verus!
