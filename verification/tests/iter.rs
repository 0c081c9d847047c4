use primter::{IntoIter, Iter, Primes};

#[test]
fn into_iter_first_primes() {
    let mut steps: IntoIter = Primes::new().into_iter();
    assert_eq!(steps.next(), Some(2));
    assert_eq!(steps.next(), Some(3));
    assert_eq!(steps.next(), Some(5));
    assert_eq!(steps.next(), Some(7));
}

#[test]
fn into_iter_hundredth_prime() {
    let mut steps = Primes::new().into_iter();
    let mut last = 0;
    for _ in 0..100 {
        last = steps.next().unwrap();
    }
    assert_eq!(last, 541);
}

#[test]
fn into_iter_is_increasing_and_complete() {
    let mut steps = Primes::new().into_iter();
    let mut reference = Primes::new();
    reference.generate_to(8000);
    for expected in reference.primes().iter().take(1000) {
        assert_eq!(steps.next(), Some(*expected));
    }
}

#[test]
fn into_iter_over_a_grown_sieve_starts_at_two() {
    let mut primes = Primes::new();
    primes.generate_to(1000);
    let mut steps = primes.into_iter();
    assert_eq!(steps.next(), Some(2));
    assert_eq!(steps.next(), Some(3));
    assert_eq!(steps.next(), Some(5));
}

#[test]
fn iter_grows_the_borrowed_sieve() {
    let mut primes = Primes::new();
    {
        let mut steps: Iter = primes.iter();
        for expected in [2, 3, 5, 7, 11, 13, 17, 19, 23, 29] {
            assert_eq!(steps.next(), Some(expected));
        }
        assert_eq!(steps.index, 10);
    }
    // The tenth step asked for more than 10 primes: 11 lie below 32.
    assert_eq!(primes.sieve().len(), 32);
    assert_eq!(primes.primes(), [2, 3, 5, 7, 11, 13, 17, 19, 23, 29, 31]);
}

#[test]
fn iter_asks_for_one_prime_more_than_it_hands_out() {
    let mut primes = Primes::new();
    {
        let mut steps = primes.iter();
        assert_eq!(steps.next(), Some(2));
    }
    // After one step more than one prime is listed: the fresh sieve serves.
    assert_eq!(primes.sieve().len(), 4);
    {
        let mut steps = primes.iter();
        assert_eq!(steps.next(), Some(2));
        assert_eq!(steps.next(), Some(3));
    }
    // After two steps more than two primes are listed.
    assert_eq!(primes.sieve().len(), 8);
}

#[test]
fn iter_starts_over_on_each_borrow() {
    let mut primes = Primes::new();
    {
        let mut steps = primes.iter();
        for _ in 0..20 {
            steps.next();
        }
    }
    let mut steps = primes.iter();
    assert_eq!(steps.next(), Some(2));
    assert_eq!(steps.next(), Some(3));
}

#[test]
fn try_next_hands_out_the_primes() {
    let mut owned = Primes::new().into_iter();
    let mut primes = Primes::new();
    let mut borrowed = primes.iter();
    for expected in [2, 3, 5, 7, 11, 13, 17, 19, 23, 29, 31, 37, 41] {
        assert_eq!(owned.try_next(), Some(expected));
        assert_eq!(borrowed.try_next(), Some(expected));
    }
}

#[test]
fn try_next_stops_at_the_end_of_the_cursor() {
    let mut primes = Primes::new();
    let mut steps = Iter { primes: &mut primes, index: usize::MAX };
    assert_eq!(steps.try_next(), None);
    assert_eq!(steps.index, usize::MAX);
}
