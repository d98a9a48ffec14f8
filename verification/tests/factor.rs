use factorcore::factor;
use factorcore::gcd;
use factorcore::try_factor;
use factorcore::try_gcd;
use factorcore::validate_number;
use factorcore::FactorError;

fn is_prime_naive(k: u64) -> bool {
    if k < 2 {
        return false;
    }
    let mut d = 2;
    while d < k {
        if k % d == 0 {
            return false;
        }
        d += 1;
    }
    true
}

#[test]
fn test_factor_range_product_and_primality() {
    for n in 4..=10_000u64 {
        let fs = factor(n);
        let mut prod: u64 = 1;
        for &f in fs.iter() {
            assert!(is_prime_naive(f), "{} gave non-prime factor {}", n, f);
            prod *= f;
        }
        assert_eq!(prod, n);
    }
}

#[test]
fn test_factor_degenerate() {
    assert_eq!(factor(0), vec![0]);
    assert_eq!(factor(1), vec![1]);
    assert_eq!(factor(2), vec![2]);
    assert_eq!(factor(3), vec![3]);
}

#[test]
fn test_factor_known_values() {
    assert_eq!(factor(4), vec![2, 2]);
    assert_eq!(factor(5), vec![5]);
    assert_eq!(factor(12), vec![2, 2, 3]);
    assert_eq!(factor(97), vec![97]);
    assert_eq!(factor(100), vec![2, 2, 5, 5]);
    assert_eq!(factor(1024), vec![2; 10]);
    assert_eq!(factor(10403), vec![101, 103]);
    assert_eq!(factor(4294967291), vec![4294967291]);
}

#[test]
fn test_factor_roundtrip() {
    let samples: &[u64] = &[
        4,
        9,
        30,
        97,
        1 << 20,
        600851475143,
        999999999989,
        87178291200,
    ];
    for &n in samples {
        let fs = factor(n);
        let prod = fs.iter().fold(1u64, |acc, &f| acc * f);
        assert_eq!(prod, n, "factors {:?} of {} do not multiply back", fs, n);
        let mut sorted = fs.clone();
        sorted.sort();
        assert_eq!(sorted, fs, "factors of {} are not in ascending order", n);
    }
}

#[test]
fn test_gcd_properties() {
    for a in 1..=60u64 {
        for b in 1..=60u64 {
            let g = gcd(a, b);
            assert!(g >= 1 && a % g == 0 && b % g == 0);
            for d in (g + 1)..=60 {
                assert!(!(a % d == 0 && b % d == 0), "gcd({},{}) missed {}", a, b, d);
            }
        }
    }
}

#[test]
fn test_gcd_values() {
    assert_eq!(gcd(1, 1), 1);
    assert_eq!(gcd(12, 18), 6);
    assert_eq!(gcd(18, 12), 6);
    assert_eq!(gcd(13, 13), 13);
    assert_eq!(gcd(17, 5), 1);
    assert_eq!(gcd(u64::MAX, u64::MAX), u64::MAX);
    assert_eq!(gcd(1, u64::MAX), 1);
}

#[test]
fn test_try_gcd_errors() {
    assert_eq!(try_gcd(0, 5), Err(FactorError::InvalidArgument));
    assert_eq!(try_gcd(5, 0), Err(FactorError::InvalidArgument));
    assert_eq!(try_gcd(0, 0), Err(FactorError::InvalidArgument));
    assert_eq!(try_gcd(8, 12), Ok(4));
}

#[test]
fn test_try_factor_ceiling() {
    assert_eq!(try_factor(100, 3), Err(FactorError::ResourceExhausted));
    assert_eq!(try_factor(100, 10), Ok(vec![2, 2, 5, 5]));
    assert_eq!(try_factor(101, 10), Ok(vec![101]));
    assert_eq!(try_factor(2, 0), Ok(vec![2]));
    assert_eq!(try_factor(1 << 40, u64::MAX), Ok(vec![2; 40]));
}

#[test]
fn test_validate_number() {
    assert_eq!(validate_number(&"123".to_string()), Ok(()));
    assert_eq!(validate_number(&"".to_string()), Ok(()));
    assert_eq!(
        validate_number(&"0123456789".to_string()),
        Ok(())
    );
    assert_eq!(validate_number(&"12a3".to_string()), Err(vec![2]));
    assert_eq!(validate_number(&"abc".to_string()), Err(vec![0, 1, 2]));
    assert_eq!(validate_number(&"-12".to_string()), Err(vec![0]));
    assert_eq!(validate_number(&"1 2".to_string()), Err(vec![1]));
}
