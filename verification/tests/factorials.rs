use num_bigint::BigUint;
use prime_swing::factorial_algorithms::{swinging_factorial, Swing};
use prime_swing::math::{comb, factorial, isqrt, perm, MathError};
use prime_swing::xmath::{bit_count64, floor_sqrt};

fn naive_factorial(n: u64) -> BigUint {
    let mut acc = BigUint::from(1u64);
    for i in 1..=n {
        acc *= i;
    }
    acc
}

#[test]
fn swinging_factorial_matches_naive_up_to_500() {
    for n in 0..=500u64 {
        assert_eq!(swinging_factorial(n), naive_factorial(n), "factorial of {}", n);
    }
}

#[test]
fn swinging_factorial_fixed_values() {
    assert_eq!(swinging_factorial(0), BigUint::from(1u64));
    assert_eq!(swinging_factorial(1), BigUint::from(1u64));
    assert_eq!(swinging_factorial(10), BigUint::from(3628800u64));
    assert_eq!(swinging_factorial(20), BigUint::from(2432902008176640000u64));
}

#[test]
fn odd_swing_matches_small_table() {
    let expected: [u64; 65] = [
        1,
        1,
        1,
        3,
        3,
        15,
        5,
        35,
        35,
        315,
        63,
        693,
        231,
        3003,
        429,
        6435,
        6435,
        109395,
        12155,
        230945,
        46189,
        969969,
        88179,
        2028117,
        676039,
        16900975,
        1300075,
        35102025,
        5014575,
        145422675,
        9694845,
        300540195,
        300540195,
        9917826435,
        583401555,
        20419054425,
        2268783825,
        83945001525,
        4418157975,
        172308161025,
        34461632205,
        1412926920405,
        67282234305,
        2893136075115,
        263012370465,
        11835556670925,
        514589420475,
        24185702762325,
        8061900920775,
        395033145117975,
        15801325804719,
        805867616040669,
        61989816618513,
        3285460280781189,
        121683714103007,
        6692604275665385,
        956086325095055,
        54496920530418135,
        1879204156221315,
        110873045217057585,
        7391536347803839,
        450883717216034179,
        14544636039226909,
        916312070471295267,
        916312070471295267,
    ];
    let mut engine = Swing::new(64);
    for k in 0..65u64 {
        assert_eq!(engine.odd_swing(k), BigUint::from(expected[k as usize]));
    }
}

#[test]
fn odd_swing_above_table_threshold() {
    // the odd swing of k is the odd part of k! / (floor(k/2)!)^2
    for k in [65u64, 66, 100, 129] {
        let half = naive_factorial(k / 2);
        let swing = naive_factorial(k) / (&half * &half);
        let mut odd = swing.clone();
        while &odd % 2u64 == BigUint::from(0u64) {
            odd /= 2u64;
        }
        let mut engine = Swing::new(k);
        assert_eq!(engine.odd_swing(k), odd, "odd swing of {}", k);
    }
}

#[test]
fn factorial_dispatches_by_size() {
    assert_eq!(factorial(0).unwrap(), BigUint::from(1u64));
    assert_eq!(factorial(1).unwrap(), BigUint::from(1u64));
    assert_eq!(factorial(20).unwrap(), BigUint::from(2432902008176640000u64));
    assert_eq!(factorial(21).unwrap(), naive_factorial(21));
    assert_eq!(factorial(34).unwrap(), naive_factorial(34));
    assert_eq!(factorial(35).unwrap(), naive_factorial(35));
    assert_eq!(factorial(100).unwrap(), naive_factorial(100));
}

#[test]
fn factorial_rejects_negative() {
    assert_eq!(factorial(-1), Err(MathError::NegativeInput));
    assert_eq!(isqrt(-1), Err(MathError::NegativeInput));
    assert_eq!(comb(-2, 1), Err(MathError::NegativeInput));
}

#[test]
fn comb_and_perm_behavior() {
    assert_eq!(comb(3, 5).unwrap(), BigUint::from(0u64));
    assert_eq!(comb(6, 3).unwrap(), BigUint::from(0u64));
    assert_eq!(comb(5, 0).unwrap(), BigUint::from(5u64));
    assert_eq!(perm(5, None), BigUint::from(1u64));
    assert_eq!(perm(5, Some(2)), BigUint::from(1u64));
    assert_eq!(perm(3, Some(5)), BigUint::from(0u64));
}

#[test]
fn bit_count_and_floor_sqrt() {
    assert_eq!(bit_count64(0), 0);
    assert_eq!(bit_count64(0b1011), 3);
    assert_eq!(bit_count64(u64::MAX), 64);
    assert_eq!(floor_sqrt(0), 0);
    assert_eq!(floor_sqrt(1), 1);
    assert_eq!(floor_sqrt(24), 4);
    assert_eq!(floor_sqrt(25), 5);
    assert_eq!(floor_sqrt(u64::MAX), 4294967295);
}

#[test]
fn test_isqrt() {
    for i in 4..10000 {
        let square: i64 = i * i;
        if let Ok(less_result) = isqrt(square - 1) {
            assert_eq!(
                less_result,
                i - 1,
                "one less of square {} should be {}",
                less_result,
                i - 1
            );
        }
        assert_eq!(isqrt(square).unwrap(), i);
        if let Ok(greater_result) = isqrt(square + 1) {
            assert_eq!(
                greater_result, i,
                "one greater of square {greater_result} should be {i}",
            );
        }
    }
}
