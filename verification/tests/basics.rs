use primter::Primes;

fn take(primes: Primes, count: usize) -> Vec<usize> {
    let mut steps = primes.into_iter();
    let mut result = Vec::new();
    for _ in 0..count {
        result.push(steps.next().unwrap());
    }
    result
}

#[test]
fn empty() {
    assert_eq!(Primes::new().sieve(), [true, true, false, false]);
}

#[test]
fn len() {
    let mut primes = Primes::new();
    primes.generate_to(4);
    assert_eq!(primes.sieve().len(), 8);
}

#[test]
fn primes() {
    let mut primes = Primes::new();
    primes.generate_to(10);

    assert_eq!(primes.primes(), [2, 3, 5, 7, 11, 13]);

    assert_eq!(
        primes.sieve(),
        [
            true, true, false, false, true, false, true, false, true, true, true, false, true,
            false, true, true
        ]
    );

    primes.generate_to(20);

    assert_eq!(primes.primes(), [2, 3, 5, 7, 11, 13, 17, 19, 23, 29, 31]);

    assert_eq!(
        primes.sieve(),
        [
            true, true, false, false, true, false, true, false, true, true, true, false, true,
            false, true, true, true, false, true, false, true, true, true, false, true, true,
            true, true, true, false, true, false
        ]
    );
}

#[test]
fn is_prime() {
    let mut primes = Primes::new();

    assert_eq!(primes.is_prime(0), false);
    assert_eq!(primes.is_prime(1), false);
    assert_eq!(primes.is_prime(2), true);
    assert_eq!(primes.is_prime(3), true);
    assert_eq!(primes.is_prime(4), false);
    assert_eq!(primes.is_prime(5), true);
    assert_eq!(primes.is_prime(100), false);
    assert_eq!(primes.is_prime(101), true);

    primes.generate_to(101);

    assert_eq!(primes.is_prime(0), false);
    assert_eq!(primes.is_prime(1), false);
    assert_eq!(primes.is_prime(2), true);
    assert_eq!(primes.is_prime(3), true);
    assert_eq!(primes.is_prime(4), false);
    assert_eq!(primes.is_prime(5), true);
    assert_eq!(primes.is_prime(100), false);
    assert_eq!(primes.is_prime(101), true);
}

#[test]
fn into_iter() {
    let result = take(Primes::new(), 10);

    assert_eq!(result, [2, 3, 5, 7, 11, 13, 17, 19, 23, 29]);
}

#[test]
fn iter() {
    let mut result = Vec::new();

    let mut primes = Primes::new();
    let mut steps = primes.iter();
    for _ in 0..10 {
        result.push(steps.next().unwrap());
    }

    assert_eq!(result, [2, 3, 5, 7, 11, 13, 17, 19, 23, 29]);
}
