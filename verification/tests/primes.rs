use rust_monster::primes::{is_prime_wrt, PrimeVault};

#[test]
fn can_extend_manually() {
    let mut vault = PrimeVault::new();
    assert_eq!(vault.extend(10), Some(2));
    assert_eq!(vault.extend(10), Some(3));
    assert_eq!(vault.extend(10), Some(5));
    assert_eq!(vault.primes, vec![2, 3, 5]);
    assert_eq!(vault.next, 6);
}

#[test]
fn can_extend_with_limit_manually() {
    let mut vault = PrimeVault::new();
    assert_eq!(vault.extend(3), Some(2));
    assert_eq!(vault.extend(3), None);
    assert_eq!(vault.extend(4), Some(3));
    assert_eq!(vault.extend(5), None);
    assert_eq!(vault.primes, vec![2, 3]);
    assert_eq!(vault.next, 5);
}

#[test]
fn can_extend_through_iter() {
    let mut vault = PrimeVault::new();
    assert_eq!(vault.extend_iter(10).collect(), vec![2, 3, 5, 7]);
    assert_eq!(vault.primes, vec![2, 3, 5, 7]);
    assert_eq!(vault.next, 10);
}

#[test]
fn can_extend_through_iter_twice() {
    let mut vault = PrimeVault::new();
    assert_eq!(vault.extend_iter(5).collect(), vec![2, 3]);
    assert_eq!(vault.extend_iter(10).collect(), vec![2, 3, 5, 7]);
    assert_eq!(vault.primes, vec![2, 3, 5, 7]);
    assert_eq!(vault.next, 10);
}

#[test]
fn can_iter_through_part() {
    let mut vault = PrimeVault::new();
    assert_eq!(vault.extend_iter(10).collect(), vec![2, 3, 5, 7]);
    assert_eq!(vault.extend_iter(5).collect(), vec![2, 3]);
    assert_eq!(vault.primes, vec![2, 3, 5, 7]);
    assert_eq!(vault.next, 10);
}

#[test]
fn factorize() {
    let mut vault = PrimeVault::new();
    assert_eq!(vault.factorize(10), vec![2, 5]);
    assert_eq!(vault.factorize(2), vec![2]);
    assert_eq!(vault.factorize(1), vec![]);
    assert_eq!(vault.factorize(8), vec![2, 2, 2]);
    assert_eq!(vault.factorize(36), vec![2, 2, 3, 3]);
    assert_eq!(vault.primes, vec![2, 3, 5]);
    assert_eq!(vault.next, 6);
    assert_eq!(vault.factorize(38), vec![2, 19]);
    assert_eq!(vault.primes, vec![2, 3, 5, 7, 11, 13, 17, 19]);
    assert_eq!(vault.factorize(37), vec![37]);
}

#[test]
fn factorize_zero_gives_nothing() {
    let mut vault = PrimeVault::new();
    assert_eq!(vault.factorize(0), vec![]);
    assert_eq!(vault.primes, vec![]);
}

#[test]
fn factors_multiply_back() {
    let mut vault = PrimeVault::default();
    for n in 1..200u64 {
        let factors = vault.factorize(n);
        assert_eq!(factors.iter().product::<u64>(), n);
        assert!(factors.windows(2).all(|w| w[0] <= w[1]));
    }
}

#[test]
fn iter_next_hands_out_one_prime_at_a_time() {
    let mut vault = PrimeVault::new();
    let mut iter = vault.extend_iter(6);
    assert_eq!(iter.next(), Some(2));
    assert_eq!(iter.next(), Some(3));
    assert_eq!(iter.next(), Some(5));
    assert_eq!(iter.next(), None);
    assert_eq!(iter.next(), None);
    assert_eq!(vault.next, 6);
}

#[test]
fn trial_division_by_known_primes() {
    assert!(is_prime_wrt(2, &[]));
    assert!(is_prime_wrt(7, &[2, 3, 5]));
    assert!(!is_prime_wrt(9, &[2, 3, 5, 7]));
    assert!(!is_prime_wrt(49, &[2, 3, 5, 7, 11, 13, 17, 19, 23, 29, 31, 37, 41, 43, 47]));
    assert!(is_prime_wrt(47, &[2, 3, 5, 7, 11, 13, 17, 19, 23, 29, 31, 37, 41, 43]));
}
