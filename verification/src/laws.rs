//! What holds of every well-formed sieve and of every way of growing one.

use vstd::prelude::*;
use vstd::arithmetic::power2::is_pow2;
use crate::lengths::{lemma_pow2_above, lemma_pow2_above_is_least, lemma_pow2_gap, pow2_above};
use crate::primality::{
    is_prime,
    lemma_position_counts_smaller_primes,
    lemma_primes_below,
    lemma_primes_below_32,
    lemma_primes_below_prefix,
    lemma_two_primes_below,
    prime_count,
};
use crate::iter::within_reach;
use crate::sieve::{lemma_grows_in_place, Primes};

verus! {

/// A well-formed sieve is determined by its length: two of the same length stand for the
/// same flags and the same primes.
pub proof fn lemma_length_determines_state(a: &Primes, b: &Primes)
    requires
        a.wf(),
        b.wf(),
        a.limit() == b.limit(),
    ensures
        a@ == b@,
{
}

/// Looking a number up in a sieve that covers it gives its primality, which is what
/// `Primes::is_prime` answers on any sieve, whether or not that sieve covers the number:
/// the lookup after growth and the trial division before it agree.
pub proof fn lemma_lookup_is_primality(covering: &Primes, n: nat)
    requires
        covering.wf(),
        n < covering.limit(),
    ensures
        covering@.sieve[n as int] == !is_prime(n as int),
{
}

/// The flags and the list agree: an index below the length of the sieve is unflagged
/// exactly when it stands in the list of primes.
pub proof fn lemma_flags_match_list(sieve: &Primes, i: nat)
    requires
        sieve.wf(),
        i < sieve.limit(),
    ensures
        !sieve@.sieve[i as int] <==> sieve@.primes.contains(i),
{
    lemma_primes_below(sieve.limit());
    if sieve@.primes.contains(i) {
        let k = choose|k: int| 0 <= k < sieve@.primes.len() && sieve@.primes[k] == i;
        assert(is_prime(sieve@.primes[k] as int));
    }
}

/// The list of primes begins with 2 and 3, so it is never empty.
pub proof fn lemma_list_starts_with_two_and_three(sieve: &Primes)
    requires
        sieve.wf(),
    ensures
        sieve@.primes.len() >= 2,
        sieve@.primes[0] == 2,
        sieve@.primes[1] == 3,
{
    lemma_two_primes_below(sieve.limit());
}

/// The list of primes is strictly increasing.
pub proof fn lemma_list_is_increasing(sieve: &Primes, i: int, j: int)
    requires
        sieve.wf(),
        0 <= i < j < sieve@.primes.len(),
    ensures
        sieve@.primes[i] < sieve@.primes[j],
{
    lemma_primes_below(sieve.limit());
}

/// The entry at position `k` of the list is the prime with exactly `k` primes below it,
/// whatever the length of the sieve.
pub proof fn lemma_list_position(sieve: &Primes, k: int)
    requires
        sieve.wf(),
        0 <= k < sieve@.primes.len(),
    ensures
        is_prime(sieve@.primes[k] as int),
        prime_count(sieve@.primes[k]) == k,
{
    lemma_position_counts_smaller_primes(sieve.limit(), k);
}

/// After `generate_to(n)` the sieve covers `n` and its length is a power of two. Where the
/// sieve had to grow, its length is the least power of two above `n`; where it covered `n`
/// before, nothing has changed.
pub proof fn lemma_generate_to_extent(pre: &Primes, post: &Primes, n: nat)
    requires
        pre.wf(),
        pre.grown_to(post, n),
    ensures
        post.limit() > n,
        is_pow2(post.limit() as int),
        pre.limit() <= n ==> forall|m: int| is_pow2(m) && m > n ==> post.limit() <= m,
        pre.limit() > n ==> post@ == pre@,
{
    lemma_pow2_above(n);
    assert forall|m: int| is_pow2(m) && m > n implies pow2_above(n) <= m by {
        lemma_pow2_above_is_least(n, m);
    }
}

/// Calling `generate_to(n)` a second time changes nothing.
pub proof fn lemma_generate_to_idempotent(pre: &Primes, once: &Primes, twice: &Primes, n: nat)
    requires
        pre.wf(),
        pre.grown_to(once, n),
        once.grown_to(twice, n),
    ensures
        twice@ == once@,
{
    lemma_pow2_above(n);
}

/// Growth only appends: after `generate_to` the old flags and the old primes are an
/// initial part of the new ones, in the same order.
pub proof fn lemma_generate_to_appends(pre: &Primes, post: &Primes, n: nat)
    requires
        pre.wf(),
        pre.grown_to(post, n),
    ensures
        pre.limit() <= post.limit(),
        pre@.sieve.is_prefix_of(post@.sieve),
        pre@.primes.is_prefix_of(post@.primes),
{
    lemma_pow2_above(n);
    lemma_grows_in_place(pre, post);
}

/// Growth only appends: after `generate_amount` the old flags and the old primes are an
/// initial part of the new ones, in the same order, and the list holds more than `amount`
/// primes.
pub proof fn lemma_generate_amount_appends(pre: &Primes, post: &Primes, amount: nat)
    requires
        pre.wf(),
        pre.grown_for_amount(post, amount),
    ensures
        post@.primes.len() >= amount + 1,
        pre@.sieve.is_prefix_of(post@.sieve),
        pre@.primes.is_prefix_of(post@.primes),
{
    lemma_grows_in_place(pre, post);
}

/// `generate_amount` has one outcome: two sieves that it may leave behind are the same.
pub proof fn lemma_generate_amount_determined(
    pre: &Primes,
    post: &Primes,
    other: &Primes,
    amount: nat,
)
    requires
        pre.wf(),
        pre.grown_for_amount(post, amount),
        pre.grown_for_amount(other, amount),
    ensures
        post@ == other@,
{
    if post.limit() < other.limit() {
        lemma_pow2_gap(post.limit() as int, other.limit() as int);
        lemma_primes_below_prefix(post.limit(), other.limit() / 2);
    } else if other.limit() < post.limit() {
        lemma_pow2_gap(other.limit() as int, post.limit() as int);
        lemma_primes_below_prefix(other.limit(), post.limit() / 2);
    }
}

/// A longer sieve lists at least as many primes as a shorter one.
pub proof fn lemma_prime_count_grows(a: nat, b: nat)
    requires
        a <= b,
    ensures
        prime_count(a) <= prime_count(b),
{
    lemma_primes_below_prefix(a, b);
}

/// On every machine the first ten primes can be enumerated, and `generate_amount` can be
/// asked for up to ten: eleven primes lie below 32.
pub proof fn lemma_ten_within_reach(index: nat)
    requires
        index < 10,
    ensures
        within_reach(index),
        prime_count((usize::MAX / 2 + 1) as nat) > 10,
{
    lemma_primes_below_32();
    lemma_primes_below_prefix(32, (usize::MAX / 2 + 1) as nat);
}

} // verus!
