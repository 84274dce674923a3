use prime_swing::sieve::{Sieve, SieveError};

fn trial_division_is_prime(n: u64) -> bool {
    if n < 2 {
        return false;
    }
    let mut d = 2u64;
    while d * d <= n {
        if n % d == 0 {
            return false;
        }
        d += 1;
    }
    true
}

fn trial_primes_in(lo: u64, hi: u64) -> Vec<u64> {
    let mut out = Vec::new();
    let mut v = lo;
    while v <= hi {
        if trial_division_is_prime(v) {
            out.push(v);
        }
        if v == hi {
            break;
        }
        v += 1;
    }
    out
}

#[test]
fn sieve_agrees_with_trial_division_up_to_20000() {
    let sieve = Sieve::new(20000);
    for n in 0..=20000u64 {
        assert_eq!(
            sieve.is_prime(n).unwrap(),
            trial_division_is_prime(n),
            "disagreement at {}",
            n
        );
    }
}

#[test]
fn iterate_primes_is_increasing_and_exact() {
    let sieve = Sieve::new(3000);
    for (min, max) in [(0u64, 2999u64), (10, 97), (500, 1500), (2, 2), (3, 3), (960, 970)] {
        let got = sieve.iterate_primes(min, max);
        for w in got.windows(2) {
            assert!(w[0] < w[1]);
        }
        assert_eq!(got, trial_primes_in(min, max));
    }
}

#[test]
fn prime_counts_match_brute_force() {
    for (n, expected) in [(100u64, 25usize), (10_000, 1229)] {
        assert_eq!(Sieve::number_of_primes_not_exceeding(n), expected);
        let sieve = Sieve::new(n);
        assert_eq!(sieve.number_of_primes(1, n).unwrap(), expected);
        assert_eq!(sieve.iterate_primes(1, n).len(), expected);
        assert_eq!(trial_primes_in(1, n).len(), expected);
    }
}

#[test]
fn repeated_construction_is_identical() {
    for bound in [500u64, 964, 965, 5000] {
        let a = Sieve::new(bound);
        let b = Sieve::new(bound);
        assert_eq!(a.iterate_primes(0, bound), b.iterate_primes(0, bound));
        for n in 0..=bound {
            assert_eq!(a.is_prime(n).unwrap(), b.is_prime(n).unwrap());
        }
    }
}

#[test]
fn iterate_primes_boundaries() {
    let sieve = Sieve::new(100);
    assert!(sieve.iterate_primes(0, 1).is_empty());
    assert!(sieve.iterate_primes(0, 0).is_empty());
    assert!(sieve.iterate_primes(5, 3).is_empty());
    // out of range is a no-op, not truncated work
    assert!(sieve.iterate_primes(0, 101).is_empty());
    assert_eq!(sieve.iterate_primes(0, 2), vec![2]);
    assert_eq!(sieve.iterate_primes(0, 3), vec![2, 3]);
    assert_eq!(sieve.iterate_primes(97, 97), vec![97]);
}

#[test]
fn out_of_range_queries_are_errors() {
    let sieve = Sieve::new(100);
    assert_eq!(sieve.is_prime(101), Err(SieveError::OutOfRange(101)));
    assert_eq!(sieve.number_of_primes(1, 101), Err(SieveError::OutOfRange(101)));
    assert_eq!(sieve.is_prime(100), Ok(false));
    assert_eq!(sieve.number_of_primes(1, 100), Ok(25));
}

#[test]
fn primorial_of_small_range() {
    let sieve = Sieve::new(30);
    let direct: num_bigint::BigUint = [2u64, 3, 5, 7, 11, 13, 17, 19, 23, 29]
        .iter()
        .map(|&p| num_bigint::BigUint::from(p))
        .product();
    assert_eq!(sieve.primorial(2, 30), direct);
}

#[test]
fn primorial_of_large_range_splits() {
    let sieve = Sieve::new(2000);
    let direct: num_bigint::BigUint = trial_primes_in(2, 2000)
        .iter()
        .map(|&p| num_bigint::BigUint::from(p))
        .product();
    assert_eq!(sieve.primorial(2, 2000), direct);
    assert_eq!(sieve.primorial(0, 2000), direct);
}

#[test]
fn primorial_of_empty_range_is_one() {
    let sieve = Sieve::new(100);
    assert_eq!(sieve.primorial(10, 5), num_bigint::BigUint::from(1u64));
    assert_eq!(sieve.primorial(100, 0), num_bigint::BigUint::from(1u64));
}
