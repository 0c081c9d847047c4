//! Enumerating the primes in increasing order, growing the sieve on demand.
//!
//! An enumerator holds a cursor and a sieve, its own or a borrowed one. A step grows the
//! sieve until it lists one prime more than the cursor needs and hands out the prime at the
//! cursor.

use vstd::prelude::*;
use crate::primality::{
    is_prime,
    lemma_position_counts_smaller_primes,
    lemma_primes_below,
    prime_count,
};
use crate::sieve::Primes;

verus! {

/// Enough primes lie below the greatest length a sieve can have for an enumerator to step
/// from position `index`.
pub open spec fn within_reach(index: nat) -> bool {
    prime_count((usize::MAX / 2 + 1) as nat) > index + 1
}

/// A step from position `index` over the sieve `pre` hands out `p` and leaves the sieve
/// `post`: the sieve has grown until it lists more than `index + 1` primes, and `p` is the
/// entry at `index`, which is the prime with exactly `index` primes below it.
pub open spec fn yields(pre: &Primes, index: nat, post: &Primes, p: nat) -> bool {
    &&& pre.grown_for_amount(post, index + 1)
    &&& p == post@.primes[index as int]
    &&& is_prime(p as int)
    &&& prime_count(p) == index
}

/// Owned iterator for `Primes`.
pub struct IntoIter {
    primes: Primes,
    index: usize,
}

/// Borrowed iterator for `Primes`.
///
/// The fields are public so that contracts can say what becomes of the borrowed sieve.
pub struct Iter<'a> {
    /// The sieve that the enumeration grows.
    pub primes: &'a mut Primes,
    /// The number of primes handed out so far.
    pub index: usize,
}

impl Primes {
    /// Constructs a borrowed iterator. It starts at the first prime, and the sieve is
    /// what the iterator leaves behind.
    pub fn iter(&mut self) -> (it: Iter<'_>)
        ensures
            it.index == 0,
            *it.primes == *old(self),
            *final(it.primes) == *final(self),
    {
        Iter { primes: self, index: 0 }
    }

    /// Constructs an owned iterator. It starts at the first prime.
    pub fn into_iter(self) -> (it: IntoIter)
        ensures
            it.cursor() == 0,
            it.engine() == self,
    {
        IntoIter { primes: self, index: 0 }
    }
}

/// One step of an enumerator that stands at `index` over the sieve `primes`.
///
/// Hands out the next prime and moves the cursor on, if the sieve can grow far enough to
/// list that prime and its successor; else `None`, with the cursor where it was.
fn advance(primes: &mut Primes, index: &mut usize) -> (r: Option<usize>)
    requires
        old(primes).wf(),
    ensures
        final(primes).wf(),
        final(primes).limit() >= old(primes).limit(),
        r is Some <==> within_reach(*old(index) as nat),
        match r {
            Some(p) => yields(old(primes), *old(index) as nat, final(primes), p as nat)
                && *final(index) == *old(index) + 1,
            None => *final(index) == *old(index),
        },
{
    proof {
        lemma_primes_below((usize::MAX / 2 + 1) as nat);
    }
    let next = match index.checked_add(1) {
        Some(next) => next,
        None => { return None; },
    };
    if !primes.try_generate_amount(next) {
        return None;
    }
    *index = next;
    proof {
        lemma_position_counts_smaller_primes(primes.limit(), next - 1);
    }
    Some(primes.primes()[next - 1])
}

impl IntoIter {
    /// The sieve that the enumeration grows.
    pub closed spec fn engine(&self) -> Primes {
        self.primes
    }

    /// The number of primes handed out so far.
    pub closed spec fn cursor(&self) -> nat {
        self.index as nat
    }

    /// Hands out the next prime and moves the cursor on, if the sieve can grow far enough
    /// to list that prime and its successor; else `None`, with the cursor where it was.
    pub fn try_next(&mut self) -> (r: Option<usize>)
        requires
            old(self).engine().wf(),
        ensures
            final(self).engine().wf(),
            final(self).engine().limit() >= old(self).engine().limit(),
            r is Some <==> within_reach(old(self).cursor()),
            match r {
                Some(p) => yields(
                    &old(self).engine(),
                    old(self).cursor(),
                    &final(self).engine(),
                    p as nat,
                ) && final(self).cursor() == old(self).cursor() + 1,
                None => final(self).cursor() == old(self).cursor(),
            },
    {
        advance(&mut self.primes, &mut self.index)
    }

    /// Hands out the next prime: the first call gives 2, and each call the prime that
    /// follows the one before. Enough primes must lie within reach of the sieve; a caller
    /// that cannot tell calls `try_next`.
    pub fn next(&mut self) -> (r: Option<usize>)
        requires
            old(self).engine().wf(),
            within_reach(old(self).cursor()),
        ensures
            r matches Some(p) && yields(
                &old(self).engine(),
                old(self).cursor(),
                &final(self).engine(),
                p as nat,
            ),
            final(self).cursor() == old(self).cursor() + 1,
    {
        advance(&mut self.primes, &mut self.index)
    }
}

impl<'a> Iter<'a> {
    /// Hands out the next prime and moves the cursor on, if the sieve can grow far enough
    /// to list that prime and its successor; else `None`, with the cursor where it was.
    pub fn try_next(&mut self) -> (r: Option<usize>)
        requires
            old(self).primes.wf(),
        ensures
            final(self).primes.wf(),
            final(self).primes.limit() >= old(self).primes.limit(),
            *final(final(self).primes) == *final(old(self).primes),
            r is Some <==> within_reach(old(self).index as nat),
            match r {
                Some(p) => yields(
                    old(self).primes,
                    old(self).index as nat,
                    final(self).primes,
                    p as nat,
                ) && final(self).index == old(self).index + 1,
                None => final(self).index == old(self).index,
            },
    {
        advance(self.primes, &mut self.index)
    }

    /// Hands out the next prime: the first call gives 2, and each call the prime that
    /// follows the one before. Enough primes must lie within reach of the sieve; a caller
    /// that cannot tell calls `try_next`.
    pub fn next(&mut self) -> (r: Option<usize>)
        requires
            old(self).primes.wf(),
            within_reach(old(self).index as nat),
        ensures
            r matches Some(p) && yields(
                old(self).primes,
                old(self).index as nat,
                final(self).primes,
                p as nat,
            ),
            final(self).index == old(self).index + 1,
            *final(final(self).primes) == *final(old(self).primes),
    {
        advance(self.primes, &mut self.index)
    }
}

} // verus!
