use factorcore::eratosthenes;

#[test]
fn test_eratosthenes() {
    assert_eq!(
        eratosthenes(100usize),
        vec![
            2, 3, 5, 7, 11, 13, 17, 19, 23, 29, 31, 37, 41, 43, 47, 53, 59, 61, 67, 71, 73, 79,
            83, 89, 97
        ]
    )
}

#[test]
fn test_eratosthenes_degenerate_bounds() {
    assert_eq!(eratosthenes(0), Vec::<usize>::new());
    assert_eq!(eratosthenes(1), Vec::<usize>::new());
    assert_eq!(eratosthenes(2), Vec::<usize>::new());
    assert_eq!(eratosthenes(3), vec![2]);
    assert_eq!(eratosthenes(4), vec![2, 3]);
    assert_eq!(eratosthenes(5), vec![2, 3]);
    assert_eq!(eratosthenes(6), vec![2, 3, 5]);
}

fn is_prime_naive(k: usize) -> bool {
    if k < 2 {
        return false;
    }
    let mut d = 2;
    while d < k {
        if k % d == 0 {
            return false;
        }
        d += 1;
    }
    true
}

#[test]
fn test_eratosthenes_against_trial_division() {
    let bound = 1000;
    let primes = eratosthenes(bound);
    let expected: Vec<usize> = (0..bound).filter(|&k| is_prime_naive(k)).collect();
    assert_eq!(primes, expected);
}
