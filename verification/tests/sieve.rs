use primter::Primes;

/// Primality by division by every smaller number.
fn naive(n: usize) -> bool {
    n >= 2 && (2..n).all(|d| n % d != 0)
}

fn naive_flags(len: usize) -> Vec<bool> {
    (0..len).map(|i| !naive(i)).collect()
}

fn naive_primes(len: usize) -> Vec<usize> {
    (0..len).filter(|&i| naive(i)).collect()
}

#[test]
fn new_lists_two_and_three() {
    let primes = Primes::new();
    assert_eq!(primes.sieve(), [true, true, false, false]);
    assert_eq!(primes.primes(), [2, 3]);
}

#[test]
fn generate_to_zero_changes_nothing() {
    let mut primes = Primes::new();
    primes.generate_to(0);
    assert_eq!(primes.sieve(), [true, true, false, false]);
    assert_eq!(primes.primes(), [2, 3]);
}

#[test]
fn generate_to_covered_index_changes_nothing() {
    let mut primes = Primes::new();
    primes.generate_to(100);
    let flags = primes.sieve().to_vec();
    let list = primes.primes().to_vec();
    primes.generate_to(5);
    assert_eq!(primes.sieve(), flags);
    assert_eq!(primes.primes(), list);
}

#[test]
fn generate_to_gives_least_power_of_two_above() {
    let cases = [
        (3, 4),
        (4, 8),
        (7, 8),
        (8, 16),
        (10, 16),
        (15, 16),
        (16, 32),
        (100, 128),
        (127, 128),
        (128, 256),
        (1000, 1024),
        (1023, 1024),
        (1024, 2048),
    ];
    for (n, len) in cases {
        let mut primes = Primes::new();
        primes.generate_to(n);
        assert_eq!(primes.sieve().len(), len, "generate_to({})", n);
        assert!(primes.sieve().len() > n);
        assert!(primes.sieve().len().is_power_of_two());
    }
}

#[test]
fn generate_to_ten() {
    let mut primes = Primes::new();
    primes.generate_to(10);
    assert_eq!(primes.primes(), [2, 3, 5, 7, 11, 13]);
    assert!(primes.sieve()[10]);
    assert!(primes.sieve()[9]);
}

#[test]
fn generate_to_matches_division_by_every_smaller_number() {
    for n in [4, 5, 8, 20, 63, 64, 500, 2047] {
        let mut primes = Primes::new();
        primes.generate_to(n);
        let len = primes.sieve().len();
        assert_eq!(primes.sieve(), naive_flags(len), "generate_to({})", n);
        assert_eq!(primes.primes(), naive_primes(len), "generate_to({})", n);
    }
}

#[test]
fn growth_in_steps_matches_growth_at_once() {
    let mut steps = Primes::new();
    for n in [4, 8, 16, 40, 64, 200, 1000] {
        steps.generate_to(n);
    }
    let mut once = Primes::new();
    once.generate_to(1000);
    assert_eq!(steps.sieve(), once.sieve());
    assert_eq!(steps.primes(), once.primes());
}

#[test]
fn known_primes_are_struck_before_the_scan() {
    // 6 lies below 3 * 3: only the pass over the primes known before strikes it.
    let mut primes = Primes::new();
    primes.generate_to(4);
    assert_eq!(primes.sieve(), [true, true, false, false, true, false, true, false]);
    assert_eq!(primes.primes(), [2, 3, 5, 7]);
    // 10 = 2 * 5 and 14 = 2 * 7 lie below 5 * 5, 12 below 3 * 3 + 3 * 3.
    primes.generate_to(8);
    assert!(primes.sieve()[10]);
    assert!(primes.sieve()[12]);
    assert!(primes.sieve()[14]);
    assert!(primes.sieve()[15]);
    assert_eq!(primes.primes(), [2, 3, 5, 7, 11, 13]);
}

#[test]
fn squares_of_new_primes_are_struck() {
    // From length 4 to 128 the scan finds 5, 7 and 11, and strikes 25, 49 and 121.
    let mut primes = Primes::new();
    primes.generate_to(127);
    assert_eq!(primes.sieve().len(), 128);
    for n in [25, 35, 49, 55, 77, 121] {
        assert!(primes.sieve()[n], "{}", n);
    }
    for n in [5, 7, 11, 113, 127] {
        assert!(!primes.sieve()[n], "{}", n);
    }
}

#[test]
fn generate_to_twice_is_generate_to_once() {
    for n in [0, 3, 4, 10, 100, 1000] {
        let mut primes = Primes::new();
        primes.generate_to(n);
        let flags = primes.sieve().to_vec();
        let list = primes.primes().to_vec();
        primes.generate_to(n);
        assert_eq!(primes.sieve(), flags);
        assert_eq!(primes.primes(), list);
    }
}

#[test]
fn primes_are_increasing_and_only_appended() {
    let mut primes = Primes::new();
    let mut before = primes.primes().to_vec();
    let mut flags = primes.sieve().to_vec();
    for n in [4, 10, 5, 100, 64, 1000, 5000] {
        primes.generate_to(n);
        let after = primes.primes().to_vec();
        assert!(after.windows(2).all(|w| w[0] < w[1]));
        assert!(after.len() >= before.len());
        assert_eq!(after[..before.len()], before[..]);
        assert_eq!(primes.sieve()[..flags.len()], flags[..]);
        before = after;
        flags = primes.sieve().to_vec();
    }
}

#[test]
fn flags_and_list_agree() {
    let mut primes = Primes::new();
    primes.generate_to(3000);
    let list = primes.primes().to_vec();
    for (i, flag) in primes.sieve().iter().enumerate() {
        assert_eq!(!*flag, list.binary_search(&i).is_ok(), "{}", i);
    }
}

#[test]
fn generate_amount_lists_more_than_amount() {
    for amount in [0, 1, 2, 5, 6, 10, 11, 100, 1000] {
        let mut primes = Primes::new();
        primes.generate_amount(amount);
        assert!(primes.primes().len() >= amount + 1, "generate_amount({})", amount);
    }
}

#[test]
fn generate_amount_stops_at_the_first_length_that_serves() {
    // 2 primes lie below 4, 4 below 8, 6 below 16, 11 below 32, 18 below 64.
    let cases = [(0, 4), (1, 4), (2, 8), (3, 8), (4, 16), (5, 16), (6, 32), (10, 32), (11, 64), (17, 64), (18, 128)];
    for (amount, len) in cases {
        let mut primes = Primes::new();
        primes.generate_amount(amount);
        assert_eq!(primes.sieve().len(), len, "generate_amount({})", amount);
    }
}

#[test]
fn generate_amount_keeps_a_sieve_that_is_long_enough() {
    let mut primes = Primes::new();
    primes.generate_to(1000);
    let len = primes.sieve().len();
    primes.generate_amount(100);
    assert_eq!(primes.sieve().len(), len);
}

#[test]
fn generate_amount_doubles_from_the_present_length() {
    let mut primes = Primes::new();
    primes.generate_to(10);
    primes.generate_amount(6);
    assert_eq!(primes.sieve().len(), 32);
    assert_eq!(primes.primes(), [2, 3, 5, 7, 11, 13, 17, 19, 23, 29, 31]);
}

#[test]
fn try_generate_amount_reaches_the_amount() {
    let mut primes = Primes::new();
    assert!(primes.try_generate_amount(10));
    assert_eq!(primes.primes(), [2, 3, 5, 7, 11, 13, 17, 19, 23, 29, 31]);
    assert!(primes.try_generate_amount(0));
    assert_eq!(primes.sieve().len(), 32);
}
