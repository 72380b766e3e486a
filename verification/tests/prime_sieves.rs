//! The bounded sieve, the segmented sieve, and the membership cache.
use euler::primes::is_prime;
use euler::primes::IncrementalPrimeSet;
use euler::sieve::prime_set;
use euler::sieve::primes;
use euler::sieve::IncrementalSieve;

#[test]
fn primes_test_incremental() {
    let n = 1_000_000;
    let primes = primes(n).unwrap();
    let incremental_primes = IncrementalSieve::new().generate_primes_until(n);
    assert_eq!(incremental_primes, primes);
}

#[test]
fn sieve_test_incremental() {
    let n = 1_000_000;
    let mut sieve = IncrementalSieve::new();
    let mut incremental_primes = Vec::new();
    loop {
        let p = sieve.next_prime().unwrap();
        if p >= n {
            break;
        }
        incremental_primes.push(p);
    }
    let primes = primes(n).unwrap();
    assert_eq!(incremental_primes, primes);
}

#[test]
fn small_prime_sets() {
    assert_eq!(primes(2).unwrap(), Vec::<u64>::new());
    assert_eq!(primes(14).unwrap(), vec![2, 3, 5, 7, 11, 13]);
    assert_eq!(primes(32).unwrap(), vec![2, 3, 5, 7, 11, 13, 17, 19, 23, 29, 31]);
    let set = prime_set(32).unwrap();
    for v in 0..32 {
        assert_eq!(set.contains(v), primes(32).unwrap().contains(&(v as u64)));
    }
    // The bounded and the segmented sieve agree at every tested bound.
    for &limit in &[2u64, 14, 32] {
        assert_eq!(
            IncrementalSieve::new().generate_primes_until(limit),
            primes(limit).unwrap()
        );
    }
}

#[test]
fn sieve_determinism() {
    // Re-running the bounded sieve gives bit-identical results.
    let a = prime_set(10_000).unwrap();
    let b = prime_set(10_000).unwrap();
    assert_eq!(a, b);
    // A longer segmented run reproduces the shorter run as a prefix.
    let first = IncrementalSieve::new().generate_primes_until(1_000);
    let second = IncrementalSieve::new().generate_primes_until(10_000);
    assert_eq!(&second[..first.len()], &first[..]);
}

#[test]
fn membership_cache_consistency() {
    let mut cache = IncrementalPrimeSet::new();
    // Deliberately query out of increasing order.
    for &v in &[97u64, 5, 1_000_003, 6, 65537, 0, 1, 2, 999_983, 3] {
        let expected = prime_set(v + 1).unwrap().contains(v as usize);
        assert_eq!(cache.check_prime(v), expected);
    }
    assert!(cache.limit() > 1_000_003);
}

#[test]
fn trial_division_is_prime() {
    assert!(!is_prime(0));
    assert!(!is_prime(1));
    assert!(is_prime(2));
    assert!(is_prime(3));
    assert!(!is_prime(4));
    assert!(is_prime(65537));
    assert!(!is_prime(65536));
    assert!(is_prime(1_000_003));
    assert!(!is_prime(1_000_001));
    let below = primes(2_000).unwrap();
    for v in 0..2_000u64 {
        assert_eq!(is_prime(v), below.contains(&v));
    }
}

#[test]
fn cache_expand_and_contains() {
    let mut set = IncrementalPrimeSet::with_initial_limit(100);
    assert_eq!(set.limit(), 100);
    assert!(set.contains(97));
    assert!(!set.contains(100));
    set.expand(10);
    assert_eq!(set.limit(), 100);
    set.expand(1000);
    assert_eq!(set.limit(), 1000);
    assert!(set.contains(997));
}
