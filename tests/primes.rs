use prime::arith::isqrt;
use prime::fast::{bpsw_test, is_prime_fast_with_witnesses};
use prime::lucas::{jacobi_symbol, lucas_test};
use prime::miller_rabin::{is_strong_probable_prime, miller_rabin, split_twos};
use prime::modular::{add_mod, mod_pow, mul_mod};
use prime::sieve::Sieve;
use prime::table::SmallPrimeTable;
use prime::{is_prime, is_prime_fast, is_prime_fast_with_rng, prime_count, prime_count_range, PrimeError};
use rand::rngs::StdRng;
use rand::SeedableRng;

fn naive_prime(n: u128) -> bool {
    if n < 2 {
        return false;
    }
    let mut d: u128 = 2;
    while d * d <= n {
        if n % d == 0 {
            return false;
        }
        d += 1;
    }
    true
}

#[test]
fn small_values_match_reference() {
    for n in [2u128, 3, 5, 7] {
        assert!(is_prime(n));
    }
    for n in [4u128, 6, 8, 9] {
        assert!(!is_prime(n));
    }
}

#[test]
fn table_range_matches_naive() {
    let table = SmallPrimeTable::new();
    for n in 0u128..65536 {
        assert_eq!(table.contains(n), naive_prime(n), "n = {}", n);
        assert_eq!(table.is_prime(n), naive_prime(n), "n = {}", n);
    }
}

#[test]
fn table_divisors_are_ascending_primes() {
    let table = SmallPrimeTable::new();
    let ds = table.divisors();
    assert_eq!(ds.len(), 6542);
    assert_eq!(&ds[..5], &[2, 3, 5, 7, 11]);
    assert_eq!(*ds.last().unwrap(), 65521);
    assert!(ds.windows(2).all(|w| w[0] < w[1]));
}

#[test]
fn table_is_the_same_every_time() {
    let a = SmallPrimeTable::new();
    let b = SmallPrimeTable::new();
    assert_eq!(a.divisors(), b.divisors());
}

#[test]
fn exact_test_above_the_table() {
    let table = SmallPrimeTable::new();
    for n in 65536u128..200000 {
        assert_eq!(table.is_prime(n), naive_prime(n), "n = {}", n);
    }
    assert!(is_prime(4294967311));
    assert!(is_prime(10000000019));
    assert!(is_prime(1000000000039));
    assert!(!is_prime(65537 * 65537));
    assert!(!is_prime(65537 * 65539));
    assert!(!is_prime(10000000019 * 3));
}

#[test]
fn boundaries_of_is_prime() {
    assert!(!is_prime(0));
    assert!(!is_prime(1));
    assert!(is_prime(2));
}

#[test]
fn fast_tier_agrees_with_exact_tier() {
    let table = SmallPrimeTable::new();
    let mut rng = StdRng::seed_from_u64(7);
    for n in 0u128..200000 {
        assert_eq!(is_prime_fast_with_rng(n, &mut rng), table.is_prime(n), "n = {}", n);
    }
}

#[test]
fn fast_tier_agrees_with_sieve_below_a_million() {
    let sieve = Sieve::build(1000000).unwrap();
    let mut rng = StdRng::seed_from_u64(3);
    for n in 0usize..1000000 {
        let expected = n >= 2 && sieve.is_marked_prime(n);
        assert_eq!(is_prime_fast_with_rng(n as u128, &mut rng), expected, "n = {}", n);
    }
}

#[test]
fn fast_tier_small_cases() {
    assert!(!is_prime_fast(0));
    assert!(!is_prime_fast(1));
    assert!(is_prime_fast(2));
    assert!(is_prime_fast(3));
    assert!(!is_prime_fast(4));
    assert!(!is_prime_fast(9));
    assert!(is_prime_fast(5));
    assert!(is_prime_fast(2305843009213693951));
    assert!(!is_prime_fast(2305843009213693951 * 3));
}

#[test]
fn fast_tier_wide_inputs() {
    let mut rng = StdRng::seed_from_u64(11);
    assert!(is_prime_fast_with_rng(618970019642690137449562111, &mut rng));
    assert!(is_prime_fast_with_rng(170141183460469231731687303715884105727, &mut rng));
    assert!(!is_prime_fast_with_rng(4951760154835678088235319297, &mut rng));
    assert!(!is_prime_fast_with_rng(u128::MAX, &mut rng));
}

#[test]
fn fast_tier_repeats_its_answer() {
    for n in [97u128, 561, 7919, 2305843009213693951, 618970019642690137449562111] {
        let first = is_prime_fast(n);
        for _ in 0..5 {
            assert_eq!(is_prime_fast(n), first);
        }
    }
}

#[test]
fn exact_calls_repeat_their_answer() {
    for n in [0u128, 1, 2, 97, 100, 65537, 10000000019] {
        assert_eq!(is_prime(n), is_prime(n));
    }
    assert_eq!(prime_count(1000), prime_count(1000));
    assert_eq!(prime_count_range(10, 20000), prime_count_range(10, 20000));
}

#[test]
fn fast_tier_with_given_witnesses() {
    assert!(is_prime_fast_with_witnesses(97, &vec![2, 3, 5]));
    assert!(!is_prime_fast_with_witnesses(91, &vec![2]));
    // 3215031751 is a strong pseudoprime to bases 2, 3, 5 and 7
    assert!(is_prime_fast_with_witnesses(3215031751, &vec![2, 3, 5, 7]));
    assert!(!is_prime_fast_with_witnesses(3215031751, &vec![2, 11]));
    assert!(!is_prime_fast_with_witnesses(25, &vec![2]));
    // with no witness only the screening by 2 and 3 applies
    assert!(is_prime_fast_with_witnesses(25, &vec![]));
    assert!(!is_prime_fast_with_witnesses(27, &vec![]));
    assert!(is_prime_fast_with_witnesses(3, &vec![]));
}

#[test]
fn prime_count_examples() {
    assert_eq!(prime_count(10), 4);
    assert_eq!(prime_count(1), 0);
    assert_eq!(prime_count(2), 1);
    assert_eq!(prime_count(0), 0);
    assert_eq!(prime_count(20000), 2262);
}

#[test]
fn prime_count_range_example_matches_sum() {
    assert_eq!(prime_count_range(10, 20), Ok(4));
    let sum = (10u128..=20).filter(|&i| is_prime(i)).count();
    assert_eq!(prime_count_range(10, 20), Ok(sum));
    assert_eq!(prime_count_range(100, 200), Ok(21));
}

#[test]
fn prime_count_range_paths_agree() {
    // a wide span goes through the sieve, its halves through the exact test
    let wide = prime_count_range(12345, 30000).unwrap();
    assert_eq!(wide, 1771);
    let left = prime_count_range(12345, 20000).unwrap();
    let right = prime_count_range(20001, 30000).unwrap();
    assert_eq!(wide, left + right);
    assert_eq!(prime_count_range(0, 20000), Ok(2262));
    assert_eq!(prime_count_range(2, 20000), Ok(prime_count(20000)));
}

#[test]
fn prime_count_range_single_point() {
    assert_eq!(prime_count_range(7, 7), Ok(1));
    assert_eq!(prime_count_range(8, 8), Ok(0));
    assert_eq!(prime_count_range(0, 0), Ok(0));
    assert_eq!(prime_count_range(1, 1), Ok(0));
    assert_eq!(prime_count_range(2, 2), Ok(1));
}

#[test]
fn prime_count_range_rejects_reversed_range() {
    assert_eq!(prime_count_range(20, 10), Err(PrimeError::InvalidArgument));
    assert_eq!(prime_count_range(1, 0), Err(PrimeError::InvalidArgument));
}

#[test]
fn sieve_rejects_small_limit() {
    assert!(matches!(Sieve::build(0), Err(PrimeError::InvalidArgument)));
    assert!(matches!(Sieve::build(1), Err(PrimeError::InvalidArgument)));
    assert!(Sieve::build(2).is_ok());
}

#[test]
fn sieve_agrees_with_trial_division() {
    let sieve = Sieve::build(100000).unwrap();
    assert_eq!(sieve.limit(), 100000);
    let table = SmallPrimeTable::new();
    for i in 2usize..=100000 {
        assert_eq!(sieve.is_marked_prime(i), table.is_prime(i as u128), "i = {}", i);
    }
    assert_eq!(sieve.flags_from(99990).len(), 11);
}

#[test]
fn modular_arithmetic_values() {
    assert_eq!(mod_pow(3, 200, 1000000007), 136318165);
    assert_eq!(mod_pow(5, 0, 7), 1);
    assert_eq!(mod_pow(5, 3, 1), 0);
    let m: u128 = (1u128 << 127) - 1;
    assert_eq!(mod_pow((1u128 << 100) + 7, (1u128 << 90) + 3, m), 55887145988900563267769930001684620337);
    assert_eq!(mul_mod((1u128 << 127) - 5, (1u128 << 126) + 9, m), 170141183460469231731687303715884105689);
    assert_eq!(mul_mod(6, 7, 10), 2);
    assert_eq!(add_mod(u128::MAX - 1, u128::MAX - 1, u128::MAX), u128::MAX - 2);
    assert_eq!(add_mod(3, 4, 10), 7);
}

#[test]
fn integer_square_root() {
    assert_eq!(isqrt(0), 0);
    assert_eq!(isqrt(15), 3);
    assert_eq!(isqrt(16), 4);
    assert_eq!(isqrt(u128::MAX), u64::MAX);
}

#[test]
fn miller_rabin_pieces() {
    assert_eq!(split_twos(96), (3, 5));
    assert_eq!(split_twos(7), (7, 0));
    assert!(is_strong_probable_prime(2047, 2));
    assert!(!is_strong_probable_prime(2047, 3));
    assert!(is_strong_probable_prime(97, 5));
    assert!(miller_rabin(2047, &vec![2]));
    assert!(!miller_rabin(2047, &vec![2, 3]));
    assert!(!miller_rabin(1, &vec![]));
    assert!(miller_rabin(3, &vec![]));
    assert!(!miller_rabin(10, &vec![3]));
}

#[test]
fn jacobi_values() {
    assert_eq!(jacobi_symbol(1001, 9907), -1);
    assert_eq!(jacobi_symbol(19, 45), 1);
    assert_eq!(jacobi_symbol(8, 21), -1);
    assert_eq!(jacobi_symbol(5, 21), 1);
    assert_eq!(jacobi_symbol(0, 1), 1);
    assert_eq!(jacobi_symbol(3, 9), 0);
}

#[test]
fn lucas_test_values() {
    for n in 1u128..2000 {
        if naive_prime(n) {
            assert!(lucas_test(n), "n = {}", n);
        }
    }
    assert!(!lucas_test(9));
    assert!(!lucas_test(15));
    // 5459 and 5777 are Lucas pseudoprimes
    assert!(lucas_test(5459));
    assert!(lucas_test(5777));
    assert!(lucas_test(618970019642690137449562111));
    assert!(!lucas_test(4951760154835678088235319297));
}

#[test]
fn bpsw_values() {
    assert!(bpsw_test(170141183460469231731687303715884105727, 2));
    assert!(!bpsw_test(5459, 2));
    assert!(!bpsw_test(4951760154835678088235319297, 3));
}
