//! Divisibility, primality, and the ordered list of the primes below a bound.
//!
//! Everything here is ghost code: the definitions are the mathematical model that the
//! executable sieve is specified against, and the lemmas are the number theory it needs.

use vstd::prelude::*;
use vstd::arithmetic::div_mod::{
    lemma_fundamental_div_mod,
    lemma_mod_multiples_basic,
    lemma_mod_self_0,
};

verus! {

/// `d` divides `n` without remainder.
pub open spec fn divides(d: int, n: int) -> bool {
    n % d == 0
}

/// `n` is prime: it is at least 2 and no number strictly between 1 and `n` divides it.
pub open spec fn is_prime(n: int) -> bool {
    &&& n >= 2
    &&& forall|d: int| 2 <= d < n ==> !#[trigger] divides(d, n)
}

/// The least divisor of `n` that is at least `d` (and `n` itself when the search runs out).
pub open spec fn least_divisor_from(n: int, d: int) -> int
    decreases n - d,
{
    if d >= n {
        n
    } else if divides(d, n) {
        d
    } else {
        least_divisor_from(n, d + 1)
    }
}

/// The least divisor of `n` greater than 1. For `n >= 2` it is the least prime factor of `n`.
pub open spec fn least_factor(n: int) -> int {
    least_divisor_from(n, 2)
}

/// The primes strictly below `n`, in increasing order.
pub open spec fn primes_below(n: nat) -> Seq<nat>
    decreases n,
{
    if n == 0 {
        Seq::empty()
    } else {
        let rest = primes_below((n - 1) as nat);
        if is_prime(n - 1) {
            rest.push((n - 1) as nat)
        } else {
            rest
        }
    }
}

/// The number of primes strictly below `n`.
pub open spec fn prime_count(n: nat) -> nat {
    primes_below(n).len()
}

/// A positive number divides each of its multiples.
pub proof fn lemma_divides_multiple(d: int, k: int)
    requires
        d > 0,
    ensures
        divides(d, d * k),
        divides(d, k * d),
{
    lemma_mod_multiples_basic(k, d);
    assert(d * k == k * d) by (nonlinear_arith);
}

/// A number is its divisor times the quotient.
pub proof fn lemma_divides_quotient(d: int, n: int)
    requires
        d > 0,
        divides(d, n),
    ensures
        n == d * (n / d),
{
    lemma_fundamental_div_mod(n, d);
}

/// Divisibility is transitive.
pub proof fn lemma_divides_transitive(a: int, b: int, c: int)
    requires
        a > 0,
        b > 0,
        divides(a, b),
        divides(b, c),
    ensures
        divides(a, c),
{
    lemma_divides_quotient(a, b);
    lemma_divides_quotient(b, c);
    let x = b / a;
    let y = c / b;
    assert(c == a * (x * y)) by (nonlinear_arith)
        requires
            c == b * y,
            b == a * x,
    ;
    lemma_divides_multiple(a, x * y);
}

proof fn lemma_least_divisor_from(n: int, d: int)
    requires
        2 <= d <= n,
    ensures
        d <= least_divisor_from(n, d) <= n,
        divides(least_divisor_from(n, d), n),
        forall|e: int| d <= e < least_divisor_from(n, d) ==> !#[trigger] divides(e, n),
    decreases n - d,
{
    if d >= n {
        lemma_mod_self_0(n);
    } else if !divides(d, n) {
        lemma_least_divisor_from(n, d + 1);
    }
}

/// The least factor of `n >= 2` is a prime divisor of `n`, no smaller number above 1 divides
/// `n`, and `n` is prime exactly when it is its own least factor.
pub proof fn lemma_least_factor(n: int)
    requires
        n >= 2,
    ensures
        2 <= least_factor(n) <= n,
        divides(least_factor(n), n),
        forall|e: int| 2 <= e < least_factor(n) ==> !#[trigger] divides(e, n),
        is_prime(least_factor(n)),
        is_prime(n) <==> least_factor(n) == n,
{
    lemma_least_divisor_from(n, 2);
    let f = least_factor(n);
    assert forall|e: int| 2 <= e < f implies !#[trigger] divides(e, f) by {
        if divides(e, f) {
            lemma_divides_transitive(e, f, n);
        }
    }
}

/// Every divisor of `n` above 1 is at least the least factor of `n`.
pub proof fn lemma_least_factor_is_least(n: int, d: int)
    requires
        n >= 2,
        d >= 2,
        divides(d, n),
    ensures
        least_factor(n) <= d,
{
    lemma_least_factor(n);
}

/// A number whose least factor is not the number itself is at least the square of that
/// factor: a composite number has a prime factor no larger than its square root.
pub proof fn lemma_composite_exceeds_factor_square(n: int)
    requires
        n >= 2,
        !is_prime(n),
    ensures
        least_factor(n) * least_factor(n) <= n,
{
    lemma_least_factor(n);
    let f = least_factor(n);
    let c = n / f;
    lemma_divides_quotient(f, n);
    assert(c >= 2) by (nonlinear_arith)
        requires
            n == f * c,
            2 <= f < n,
    ;
    lemma_divides_multiple(c, f);
    assert(divides(c, n));
    assert(f * f <= n) by (nonlinear_arith)
        requires
            2 <= f <= c,
            n == f * c,
    ;
}

/// A number at least 2 whose least factor is above its square root is prime.
pub proof fn lemma_prime_by_trial_division(n: int, bound: int)
    requires
        n >= 2,
        bound >= 0,
        bound * bound > n,
        least_factor(n) >= bound,
    ensures
        is_prime(n),
{
    if !is_prime(n) {
        lemma_least_factor(n);
        lemma_composite_exceeds_factor_square(n);
        let f = least_factor(n);
        assert(f < bound) by (nonlinear_arith)
            requires
                f * f <= n,
                bound * bound > n,
                bound >= 0,
                f >= 2,
        ;
    }
}

/// What `primes_below(n)` holds: primes below `n` only, each of them, smaller ones first.
pub proof fn lemma_primes_below(n: nat)
    ensures
        prime_count(n) <= n,
        forall|k: int|
            0 <= k < prime_count(n) ==> is_prime(#[trigger] primes_below(n)[k] as int)
                && primes_below(n)[k] < n,
        forall|i: int, j: int|
            0 <= i < j < prime_count(n) ==> #[trigger] primes_below(n)[i]
                < #[trigger] primes_below(n)[j],
        forall|p: nat| is_prime(p as int) && p < n ==> #[trigger] primes_below(n).contains(p),
    decreases n,
{
    if n > 0 {
        let m = (n - 1) as nat;
        lemma_primes_below(m);
        let rest = primes_below(m);
        let all = primes_below(n);
        assert forall|p: nat| is_prime(p as int) && p < n implies #[trigger] all.contains(
            p,
        ) by {
            if p < m {
                assert(rest.contains(p));
                let k = choose|k: int| 0 <= k < rest.len() && rest[k] == p;
                assert(all[k] == p);
            } else {
                assert(all[rest.len() as int] == p);
            }
        }
    }
}

/// The primes below a smaller bound are an initial part of the primes below a larger one.
pub proof fn lemma_primes_below_prefix(a: nat, b: nat)
    requires
        a <= b,
    ensures
        prime_count(a) <= prime_count(b),
        primes_below(a) == primes_below(b).subrange(0, prime_count(a) as int),
    decreases b,
{
    if a < b {
        lemma_primes_below_prefix(a, (b - 1) as nat);
    }
    assert(primes_below(a) =~= primes_below(b).subrange(0, prime_count(a) as int));
}

/// A prime stands in the list at the position given by the number of primes below it.
pub proof fn lemma_prime_position(p: nat, n: nat)
    requires
        is_prime(p as int),
        p < n,
    ensures
        prime_count(p) < prime_count(n),
        primes_below(n)[prime_count(p) as int] == p,
{
    lemma_primes_below_prefix(p + 1, n);
    assert(primes_below(p + 1) == primes_below(p).push(p));
    assert(primes_below(p + 1)[prime_count(p) as int] == p);
}

/// The entry at position `k` of the list is the prime with exactly `k` primes below it.
pub proof fn lemma_position_counts_smaller_primes(n: nat, k: int)
    requires
        0 <= k < prime_count(n),
    ensures
        is_prime(primes_below(n)[k] as int),
        primes_below(n)[k] < n,
        prime_count(primes_below(n)[k]) == k,
{
    lemma_primes_below(n);
    let p = primes_below(n)[k];
    lemma_prime_position(p, n);
    let c = prime_count(p) as int;
    if c < k {
        assert(primes_below(n)[c] < primes_below(n)[k]);
    } else if k < c {
        assert(primes_below(n)[k] < primes_below(n)[c]);
    }
}

/// If none of the first `k` primes below `limit` divides `n`, the least factor of `n` is
/// at least the next prime in the list, or at least `limit` when the list is used up.
pub proof fn lemma_least_factor_after_trials(n: int, limit: nat, k: int)
    requires
        n >= 2,
        0 <= k <= prime_count(limit),
        forall|j: int| 0 <= j < k ==> !divides(#[trigger] primes_below(limit)[j] as int, n),
    ensures
        k < prime_count(limit) ==> least_factor(n) >= primes_below(limit)[k],
        k == prime_count(limit) ==> least_factor(n) >= limit,
{
    lemma_least_factor(n);
    lemma_primes_below(limit);
    let f = least_factor(n) as nat;
    if f < limit {
        lemma_prime_position(f, limit);
        let j = prime_count(f) as int;
        assert(divides(primes_below(limit)[j] as int, n));
        if k < prime_count(limit) && j > k {
            assert(primes_below(limit)[k] < primes_below(limit)[j]);
        }
    }
}

/// There are at least two primes below any bound from 4 on.
pub proof fn lemma_two_primes_below(n: nat)
    requires
        n >= 4,
    ensures
        prime_count(n) >= 2,
        primes_below(n)[0] == 2,
        primes_below(n)[1] == 3,
{
    assert(!divides(2, 3));
    assert(is_prime(2) && is_prime(3) && !is_prime(0) && !is_prime(1));
    assert(primes_below(4) =~= seq![2nat, 3nat]) by {
        reveal_with_fuel(primes_below, 5);
    }
    lemma_primes_below_prefix(4, n);
    assert(primes_below(4)[0] == primes_below(n)[0]);
    assert(primes_below(4)[1] == primes_below(n)[1]);
}

/// The primes below 32.
pub proof fn lemma_primes_below_32()
    ensures
        primes_below(32) == seq![2nat, 3, 5, 7, 11, 13, 17, 19, 23, 29, 31],
{
    assert forall|n: int| 0 <= n < 32 implies is_prime(n) == (n == 2 || n == 3 || n == 5 || n
        == 7 || n == 11 || n == 13 || n == 17 || n == 19 || n == 23 || n == 29 || n == 31) by {
        if n >= 2 {
            reveal_with_fuel(least_divisor_from, 5);
            lemma_least_factor(n);
            if least_factor(n) >= 6 {
                lemma_prime_by_trial_division(n, 6);
            }
        }
    }
    reveal_with_fuel(primes_below, 33);
    assert(primes_below(32) =~= seq![2nat, 3, 5, 7, 11, 13, 17, 19, 23, 29, 31]);
}

} // verus!
