//! Growing a sieve: new flags are added unset, the multiples of the primes already known
//! are struck from the new range, and a forward scan of the new range then finds the new
//! primes, striking the multiples of each from its square on.
//!
//! The order matters. The forward scan decides an index by looking at its flag alone, and
//! strikes from the square of a prime only; both are right because every multiple of a
//! smaller prime has been struck before the scan reaches it.

use vstd::prelude::*;
use vstd::arithmetic::div_mod::lemma_fundamental_div_mod;
use crate::primality::{
    divides,
    is_prime,
    least_factor,
    lemma_divides_multiple,
    lemma_divides_quotient,
    lemma_least_factor,
    lemma_least_factor_is_least,
    lemma_prime_position,
    lemma_primes_below,
    prime_count,
    primes_below,
};
use crate::sieve::naturals;

verus! {

/// Index `i` is a multiple of one of the first `k` entries of `primes`.
pub open spec fn struck_by(primes: Seq<nat>, k: int, i: int) -> bool
    decreases k,
{
    if k <= 0 {
        false
    } else {
        divides(primes[k - 1] as int, i) || struck_by(primes, k - 1, i)
    }
}

/// Index `i` has a proper factor below `q`: it is a multiple, other than the prime
/// itself, of a prime smaller than `q`.
pub open spec fn struck_before(i: int, q: int) -> bool {
    least_factor(i) < q && least_factor(i) != i
}

/// No multiple of `p` lies strictly between two consecutive multiples of `p`.
pub proof fn lemma_multiple_gap(p: int, a: int, i: int)
    requires
        p > 0,
        divides(p, a),
        a < i < a + p,
    ensures
        !divides(p, i),
{
    if divides(p, i) {
        lemma_divides_quotient(p, a);
        lemma_divides_quotient(p, i);
        let x = a / p;
        let y = i / p;
        assert(false) by (nonlinear_arith)
            requires
                p > 0,
                a == p * x,
                i == p * y,
                a < i < a + p,
        ;
    }
}

/// The multiple of `p` that follows a multiple of `p` is `p` further on.
pub proof fn lemma_next_multiple(p: int, a: int)
    requires
        p > 0,
        divides(p, a),
    ensures
        divides(p, a + p),
{
    lemma_divides_quotient(p, a);
    assert(a + p == p * (a / p + 1)) by (nonlinear_arith)
        requires
            a == p * (a / p),
    ;
    lemma_divides_multiple(p, a / p + 1);
}

/// Rounding `a` up to a multiple of `p` gives the first multiple of `p` that is not
/// below `a`.
pub proof fn lemma_first_multiple(a: int, p: int)
    requires
        a >= 0,
        p > 0,
    ensures
        divides(p, (a + p - 1) / p * p),
        a <= (a + p - 1) / p * p < a + p,
        forall|i: int| a <= i && #[trigger] divides(p, i) ==> (a + p - 1) / p * p <= i,
{
    let x = a + p - 1;
    let s = x / p * p;
    lemma_fundamental_div_mod(x, p);
    assert(s == p * (x / p)) by (nonlinear_arith)
        requires
            s == x / p * p,
    ;
    lemma_divides_multiple(p, x / p);
    assert forall|i: int| a <= i && #[trigger] divides(p, i) implies s <= i by {
        if i < s {
            assert(s - p == p * (x / p - 1)) by (nonlinear_arith)
                requires
                    s == p * (x / p),
            ;
            lemma_divides_multiple(p, x / p - 1);
            lemma_multiple_gap(p, s - p, i);
        }
    }
}

/// Being struck by one of the first `k` primes means having one of them as a divisor.
proof fn lemma_struck_by(primes: Seq<nat>, k: int, i: int)
    requires
        0 <= k <= primes.len(),
    ensures
        struck_by(primes, k, i) <==> exists|j: int| 0 <= j < k && divides(#[trigger] primes[j] as int, i),
    decreases k,
{
    if k > 0 {
        lemma_struck_by(primes, k - 1, i);
        if struck_by(primes, k, i) {
            if divides(primes[k - 1] as int, i) {
                assert(0 <= k - 1 < k && divides(primes[k - 1] as int, i));
            } else {
                let j = choose|j: int| 0 <= j < k - 1 && divides(#[trigger] primes[j] as int, i);
                assert(0 <= j < k && divides(primes[j] as int, i));
            }
        }
    }
}

/// Once the multiples of every prime below `bound` are struck, the indices struck are
/// those whose least factor is below `bound`.
proof fn lemma_struck_by_all(bound: nat, i: int)
    requires
        i >= 2,
    ensures
        struck_by(primes_below(bound), prime_count(bound) as int, i) <==> least_factor(i) < bound,
{
    let known = primes_below(bound);
    let count = prime_count(bound) as int;
    lemma_struck_by(known, count, i);
    lemma_primes_below(bound);
    lemma_least_factor(i);
    if struck_by(known, count, i) {
        let j = choose|j: int| 0 <= j < count && divides(#[trigger] known[j] as int, i);
        lemma_least_factor_is_least(i, known[j] as int);
    }
    if least_factor(i) < bound {
        let f = least_factor(i) as nat;
        lemma_prime_position(f, bound);
        let j = prime_count(f) as int;
        assert(0 <= j < count && divides(known[j] as int, i));
    }
}

/// Striking the multiples of the prime `q` from its square on takes the sieve from
/// "struck before `q`" to "struck before `q + 1`".
proof fn lemma_strike_prime(q: int, i: int)
    requires
        is_prime(q),
        i >= 2,
    ensures
        struck_before(i, q + 1) <==> struck_before(i, q) || (q * q <= i && divides(q, i)),
{
    lemma_least_factor(i);
    let f = least_factor(i);
    if f == q && f != i {
        lemma_divides_quotient(q, i);
        let c = i / q;
        assert(c >= 2) by (nonlinear_arith)
            requires
                i == q * c,
                2 <= q < i,
        ;
        lemma_divides_multiple(c, q);
        lemma_least_factor_is_least(i, c);
        assert(q * q <= i) by (nonlinear_arith)
            requires
                i == q * c,
                2 <= q <= c,
        ;
    }
    if q * q <= i && divides(q, i) {
        lemma_least_factor_is_least(i, q);
        assert(q < q * q) by (nonlinear_arith)
            requires
                q >= 2,
        ;
    }
}

/// Passing over a composite `q` strikes nothing: no least factor is composite.
proof fn lemma_skip_composite(q: int, i: int)
    requires
        q >= 2,
        !is_prime(q),
        i >= 2,
    ensures
        struck_before(i, q + 1) <==> struck_before(i, q),
{
    lemma_least_factor(i);
}

/// Appends unset flags until the sieve has length `len`.
pub(crate) fn extend_flags(sieve: &mut Vec<bool>, len: usize)
    requires
        old(sieve)@.len() <= len,
    ensures
        final(sieve)@.len() == len,
        forall|i: int| 0 <= i < old(sieve)@.len() ==> #[trigger] final(sieve)@[i] == old(sieve)@[i],
        forall|i: int| old(sieve)@.len() <= i < len ==> !#[trigger] final(sieve)@[i],
{
    let additional = len - sieve.len();
    sieve.reserve(additional);
    while sieve.len() < len
        invariant
            old(sieve)@.len() <= sieve@.len() <= len,
            forall|i: int| 0 <= i < old(sieve)@.len() ==> #[trigger] sieve@[i] == old(sieve)@[i],
            forall|i: int| old(sieve)@.len() <= i < sieve@.len() ==> !#[trigger] sieve@[i],
        decreases len - sieve@.len(),
    {
        sieve.push(false);
    }
}

/// Sets the flag of every multiple of `step` from `start` on, `start` being one of them.
pub(crate) fn strike_multiples(sieve: &mut Vec<bool>, start: usize, step: usize)
    requires
        step > 0,
        divides(step as int, start as int),
    ensures
        final(sieve)@.len() == old(sieve)@.len(),
        forall|i: int|
            0 <= i < old(sieve)@.len() ==> #[trigger] final(sieve)@[i] == (old(sieve)@[i] || (
            start <= i && divides(step as int, i))),
{
    let len = sieve.len();
    let mut number = start;
    while number < len
        invariant
            sieve@.len() == len == old(sieve)@.len(),
            step > 0,
            start <= number,
            number < len ==> divides(step as int, number as int),
            forall|i: int|
                0 <= i < len ==> #[trigger] sieve@[i] == (old(sieve)@[i] || (start <= i < number
                    && divides(step as int, i))),
        decreases usize::MAX - number,
    {
        sieve[number] = true;
        proof {
            assert forall|i: int| number < i < number + step implies !divides(
                step as int,
                i,
            ) by {
                lemma_multiple_gap(step as int, number as int, i);
            }
            lemma_next_multiple(step as int, number as int);
        }
        number = match number.checked_add(step) {
            Some(next) => next,
            None => len,
        };
    }
}

/// Strikes, from index `old_len` on, the multiples of every prime below `old_len`.
///
/// `primes` lists those primes, and no flag from `old_len` on is set yet. Afterwards a
/// flag from `old_len` on is set exactly when its index has a prime factor below `old_len`.
pub(crate) fn strike_known(sieve: &mut Vec<bool>, primes: &Vec<usize>, old_len: usize)
    requires
        2 <= old_len <= old(sieve)@.len(),
        old_len + old_len <= usize::MAX,
        naturals(primes@) == primes_below(old_len as nat),
        forall|i: int| old_len <= i < old(sieve)@.len() ==> !#[trigger] old(sieve)@[i],
    ensures
        final(sieve)@.len() == old(sieve)@.len(),
        forall|i: int| 0 <= i < old_len ==> #[trigger] final(sieve)@[i] == old(sieve)@[i],
        forall|i: int|
            old_len <= i < old(sieve)@.len() ==> #[trigger] final(sieve)@[i] == (least_factor(i)
                < old_len),
{
    let ghost known = primes_below(old_len as nat);
    let mut k: usize = 0;
    while k < primes.len()
        invariant
            k <= primes@.len(),
            2 <= old_len <= sieve@.len(),
            old_len + old_len <= usize::MAX,
            sieve@.len() == old(sieve)@.len(),
            known == primes_below(old_len as nat),
            naturals(primes@) == known,
            forall|i: int| 0 <= i < old_len ==> #[trigger] sieve@[i] == old(sieve)@[i],
            forall|i: int|
                old_len <= i < sieve@.len() ==> #[trigger] sieve@[i] == struck_by(
                    known,
                    k as int,
                    i,
                ),
        decreases primes@.len() - k,
    {
        let prime = primes[k];
        proof {
            lemma_primes_below(old_len as nat);
            assert(known[k as int] == prime);
            assert(is_prime(prime as int) && prime < old_len);
            lemma_first_multiple(old_len as int, prime as int);
        }
        let start = (old_len + prime - 1) / prime * prime;
        strike_multiples(sieve, start, prime);
        k += 1;
        proof {
            assert forall|i: int| old_len <= i < sieve@.len() implies #[trigger] sieve@[i]
                == struck_by(known, k as int, i) by {
                assert(divides(prime as int, i) ==> start <= i);
            }
        }
    }
    proof {
        assert forall|i: int| old_len <= i < sieve@.len() implies sieve@[i] == (least_factor(i)
            < old_len) by {
            lemma_struck_by_all(old_len as nat, i);
            assert(prime_count(old_len as nat) == k);
        }
    }
}

/// Scans the indices from `old_len` on in increasing order. An index found unset is a
/// prime: it is appended to `primes`, and its multiples are struck from its square on.
///
/// Before the scan a flag from `old_len` on is set exactly when its index has a prime
/// factor below `old_len`, and `primes` lists the primes below `old_len`. Afterwards a
/// flag from `old_len` on is set exactly when its index is not prime, and `primes` lists
/// the primes below the length of the sieve.
pub(crate) fn discover(sieve: &mut Vec<bool>, primes: &mut Vec<usize>, old_len: usize)
    requires
        2 <= old_len <= old(sieve)@.len(),
        naturals(old(primes)@) == primes_below(old_len as nat),
        forall|i: int|
            old_len <= i < old(sieve)@.len() ==> #[trigger] old(sieve)@[i] == (least_factor(i)
                < old_len),
    ensures
        final(sieve)@.len() == old(sieve)@.len(),
        forall|i: int| 0 <= i < old_len ==> #[trigger] final(sieve)@[i] == old(sieve)@[i],
        forall|i: int|
            old_len <= i < old(sieve)@.len() ==> #[trigger] final(sieve)@[i] == !is_prime(i),
        naturals(final(primes)@) == primes_below(old(sieve)@.len()),
{
    let len = sieve.len();
    let mut q = old_len;
    while q < len
        invariant
            2 <= old_len <= q <= len,
            sieve@.len() == len == old(sieve)@.len(),
            forall|i: int| 0 <= i < old_len ==> #[trigger] sieve@[i] == old(sieve)@[i],
            forall|i: int|
                old_len <= i < len ==> #[trigger] sieve@[i] == struck_before(i, q as int),
            naturals(primes@) == primes_below(q as nat),
        decreases len - q,
    {
        proof {
            lemma_least_factor(q as int);
        }
        if !sieve[q] {
            let ghost found = primes@;
            assert(is_prime(q as int));
            match q.checked_mul(q) {
                Some(square) => {
                    proof {
                        lemma_divides_multiple(q as int, q as int);
                        assert(q * q >= q) by (nonlinear_arith)
                            requires
                                q >= 2,
                        ;
                    }
                    strike_multiples(sieve, square, q);
                },
                None => {},
            }
            primes.push(q);
            proof {
                assert forall|i: int| old_len <= i < len implies sieve@[i] == struck_before(
                    i,
                    q + 1,
                ) by {
                    lemma_strike_prime(q as int, i);
                }
                assert(naturals(primes@) =~= naturals(found).push(q as nat));
            }
        } else {
            proof {
                assert(!is_prime(q as int));
                assert forall|i: int| old_len <= i < len implies sieve@[i] == struck_before(
                    i,
                    q + 1,
                ) by {
                    lemma_skip_composite(q as int, i);
                }
            }
        }
        q += 1;
    }
    proof {
        assert forall|i: int| old_len <= i < len implies sieve@[i] == !is_prime(i) by {
            lemma_least_factor(i);
        }
    }
}

} // verus!
