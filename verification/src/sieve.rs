//! The growable sieve: composite flags for every index below a power-of-two length, and
//! the primes below that length in increasing order.

use vstd::prelude::*;
use vstd::arithmetic::power2::is_pow2;
use crate::growth::{discover, extend_flags, strike_known};
use crate::lengths::{
    grown_len,
    lemma_pow2_above_unique,
    lemma_pow2_doubles,
    lemma_pow2_fits,
    lemma_pow2_gap,
};
use crate::primality::{
    divides,
    is_prime,
    least_factor,
    lemma_least_factor,
    lemma_least_factor_after_trials,
    lemma_prime_by_trial_division,
    lemma_primes_below,
    lemma_primes_below_prefix,
    lemma_two_primes_below,
    prime_count,
    primes_below,
};
use crate::trial::{square, start_after, wheel_division};

verus! {

/// The composite flags of a sieve of length `len`: entry `i` is set unless `i` is prime.
pub open spec fn composite_flags(len: nat) -> Seq<bool> {
    Seq::new(len, |i: int| !is_prime(i))
}

/// A list of machine integers read as natural numbers.
pub open spec fn naturals(s: Seq<usize>) -> Seq<nat> {
    Seq::new(s.len(), |k: int| s[k] as nat)
}

/// What a `Primes` value stands for.
pub struct PrimesView {
    /// `sieve[i]` is set when `i` is known not to be prime.
    pub sieve: Seq<bool>,
    /// The primes found so far, in the order in which they were found.
    pub primes: Seq<nat>,
}

/// Collection of generated prime numbers.
pub struct Primes {
    sieve: Vec<bool>,
    primes: Vec<usize>,
}

impl View for Primes {
    type V = PrimesView;

    closed spec fn view(&self) -> PrimesView {
        PrimesView { sieve: self.sieve@, primes: naturals(self.primes@) }
    }
}

/// A longer well-formed sieve holds a shorter one as its initial part.
pub proof fn lemma_grows_in_place(pre: &Primes, post: &Primes)
    requires
        pre.wf(),
        post.wf(),
        pre.limit() <= post.limit(),
    ensures
        pre@.sieve.is_prefix_of(post@.sieve),
        pre@.primes.is_prefix_of(post@.primes),
{
    lemma_primes_below_prefix(pre.limit(), post.limit());
}

impl Primes {
    /// The length of the sieve: every index below it has been decided.
    pub open spec fn limit(&self) -> nat {
        self@.sieve.len()
    }

    /// The sieve has a power-of-two length of at least 4, flags exactly the non-primes
    /// below that length, and lists exactly the primes below it in increasing order.
    pub open spec fn wf(&self) -> bool {
        &&& self.limit() >= 4
        &&& is_pow2(self.limit() as int)
        &&& self@.sieve == composite_flags(self.limit())
        &&& self@.primes == primes_below(self.limit())
    }

    /// `post` is this sieve grown to cover index `n`: left at its length if that exceeds
    /// `n` already, else of the least power-of-two length above `n`.
    pub open spec fn grown_to(&self, post: &Primes, n: nat) -> bool {
        &&& post.wf()
        &&& post.limit() == grown_len(self.limit(), n)
    }

    /// `post` is this sieve grown until it lists more than `amount` primes: its length is
    /// the least, among this length and its doublings, below which that many primes lie.
    pub open spec fn grown_for_amount(&self, post: &Primes, amount: nat) -> bool {
        &&& post.wf()
        &&& post@.primes.len() > amount
        &&& post.limit() >= self.limit()
        &&& post.limit() == self.limit() || prime_count(post.limit() / 2) <= amount
    }

    /// Constructs a new `Primes` that contains numbers generated up to 3 (inclusive).
    pub fn new() -> (r: Self)
        ensures
            r.wf(),
            r@.sieve == seq![true, true, false, false],
            r@.primes == seq![2nat, 3nat],
    {
        let r = Primes { sieve: vec![true, true, false, false], primes: vec![2, 3] };
        proof {
            assert(is_pow2(4)) by {
                reveal_with_fuel(is_pow2, 3);
            }
            assert(!divides(2, 3));
            assert(is_prime(2) && is_prime(3) && !is_prime(0) && !is_prime(1));
            assert(r@.sieve =~= composite_flags(4));
            assert(primes_below(4) =~= seq![2nat, 3nat]) by {
                reveal_with_fuel(primes_below, 5);
            }
            assert(r@.primes =~= seq![2nat, 3nat]);
        }
        r
    }

    /// Generates primes up to at least `n`.
    ///
    /// A sieve that covers index `n` already is left as it is. Otherwise the sieve grows
    /// to the least power of two above `n`, which must fit in a `usize`. What was known
    /// before stays in place: the old flags and the old primes are an initial part of the
    /// new ones.
    pub fn generate_to(&mut self, n: usize)
        requires
            old(self).wf(),
            n <= usize::MAX / 2,
        ensures
            old(self).grown_to(final(self), n as nat),
            old(self).limit() > n ==> final(self)@ == old(self)@,
            old(self)@.sieve.is_prefix_of(final(self)@.sieve),
            old(self)@.primes.is_prefix_of(final(self)@.primes),
    {
        if self.sieve.len() > n {
            return;
        }
        let old_len = self.sieve.len();
        let mut len = old_len;
        while len <= n
            invariant
                n <= usize::MAX / 2,
                4 <= old_len <= n,
                old_len <= len,
                is_pow2(len as int),
                len == old_len || len / 2 <= n,
            decreases usize::MAX - len,
        {
            proof {
                lemma_pow2_doubles(len as int);
            }
            len = len * 2;
        }
        proof {
            lemma_pow2_above_unique(n as nat, len as int);
            lemma_pow2_gap(old_len as int, len as int);
        }
        extend_flags(&mut self.sieve, len);
        strike_known(&mut self.sieve, &self.primes, old_len);
        discover(&mut self.sieve, &mut self.primes, old_len);
        proof {
            assert(self@.sieve =~= composite_flags(len as nat));
            lemma_primes_below_prefix(old_len as nat, len as nat);
        }
    }

    /// Generates primes so that the total amount is more than `amount`, as far as the
    /// sieve can grow: its length is doubled until the list is long enough or a further
    /// doubling would not fit in a `usize`.
    ///
    /// Returns whether the list now holds more than `amount` primes. It does exactly
    /// when that many primes exist below the greatest length a sieve can have; if not,
    /// the sieve is left at that length.
    pub fn try_generate_amount(&mut self, amount: usize) -> (reached: bool)
        requires
            old(self).wf(),
        ensures
            final(self).wf(),
            reached <==> prime_count((usize::MAX / 2 + 1) as nat) > amount,
            reached <==> final(self)@.primes.len() > amount,
            !reached ==> final(self).limit() == usize::MAX / 2 + 1,
            final(self).limit() >= old(self).limit(),
            final(self).limit() == old(self).limit() || prime_count(final(self).limit() / 2)
                <= amount,
            old(self)@.sieve.is_prefix_of(final(self)@.sieve),
            old(self)@.primes.is_prefix_of(final(self)@.primes),
    {
        while self.primes.len() <= amount
            invariant
                old(self).wf(),
                self.wf(),
                self.limit() >= old(self).limit(),
                self.limit() == old(self).limit() || prime_count(self.limit() / 2) <= amount,
            decreases usize::MAX - self.sieve@.len(),
        {
            let len = self.sieve.len();
            if len > usize::MAX / 2 {
                proof {
                    lemma_pow2_fits(len as int);
                    lemma_grows_in_place(old(self), self);
                }
                return false;
            }
            proof {
                lemma_pow2_doubles(len as int);
                lemma_pow2_above_unique(len as nat, 2 * len);
            }
            self.generate_to(len);
        }
        proof {
            assert(self.sieve@.len() == self.sieve.len());
            lemma_pow2_fits(self.sieve@.len() as int);
            lemma_primes_below_prefix(self.limit(), (usize::MAX / 2 + 1) as nat);
            lemma_grows_in_place(old(self), self);
        }
        true
    }

    /// Generates primes so that the total amount is more than `amount`.
    ///
    /// The length of the sieve is doubled until the list is long enough, so it ends as
    /// the least length, among the present one and its doublings, below which more than
    /// `amount` primes lie. That many primes must exist below the greatest length a sieve
    /// can have; a caller that cannot tell calls `try_generate_amount`.
    pub fn generate_amount(&mut self, amount: usize)
        requires
            old(self).wf(),
            prime_count((usize::MAX / 2 + 1) as nat) > amount,
        ensures
            old(self).grown_for_amount(final(self), amount as nat),
            old(self)@.sieve.is_prefix_of(final(self)@.sieve),
            old(self)@.primes.is_prefix_of(final(self)@.primes),
    {
        self.try_generate_amount(amount);
    }

    /// Divides `n`, which lies beyond the sieve, by the known primes in increasing order.
    ///
    /// The answer is `Some(true)` at the first prime whose square exceeds `n`, and
    /// `Some(false)` at the first prime that divides `n`. It is `None` when the list runs
    /// out first: then nothing below the length of the sieve divides `n`.
    fn divide_by_known(&self, n: usize) -> (r: Option<bool>)
        requires
            self.wf(),
            n >= self.limit(),
        ensures
            match r {
                Some(answer) => answer == is_prime(n as int),
                None => least_factor(n as int) >= self.limit(),
            },
    {
        let ghost limit = self.limit();
        let mut k: usize = 0;
        while k < self.primes.len()
            invariant
                self.wf(),
                limit == self.limit(),
                n >= limit,
                k <= self.primes@.len(),
                forall|j: int|
                    0 <= j < k ==> !divides(#[trigger] primes_below(limit)[j] as int, n as int),
            decreases self.primes@.len() - k,
        {
            let prime = self.primes[k];
            proof {
                lemma_primes_below(limit);
                lemma_least_factor_after_trials(n as int, limit, k as int);
                assert(primes_below(limit)[k as int] == prime);
            }
            if square(prime) > n as u128 {
                proof {
                    lemma_prime_by_trial_division(n as int, prime as int);
                }
                return Some(true);
            }
            if n % prime == 0 {
                assert(divides(prime as int, n as int));
                return Some(false);
            }
            k += 1;
        }
        proof {
            lemma_least_factor_after_trials(n as int, limit, k as int);
        }
        None
    }

    /// Checks whether a number is prime.
    ///
    /// A number that the sieve covers is looked up. Any other is decided without growing
    /// the sieve: by division by 2 and 3, then by the known primes, then by the numbers
    /// next to the multiples of 6 beyond them, up to the square root of `n`. The squares
    /// are computed in 128 bits, so the answer is right for every `usize`.
    ///
    /// This method works faster the more primes are generated.
    pub fn is_prime(&self, n: usize) -> (r: bool)
        requires
            self.wf(),
        ensures
            r == is_prime(n as int),
            n < self.limit() ==> r == !self@.sieve[n as int],
    {
        if self.sieve.len() > n {
            !self.sieve[n]
        } else if n % 2 == 0 || n % 3 == 0 {
            assert(divides(2, n as int) || divides(3, n as int));
            false
        } else {
            match self.divide_by_known(n) {
                Some(answer) => answer,
                None => {
                    proof {
                        lemma_two_primes_below(self.limit());
                        lemma_primes_below(self.limit());
                        lemma_least_factor(n as int);
                        assert(divides(2, 4));
                    }
                    let last = self.primes[self.primes.len() - 1];
                    assert(self@.primes[self.primes@.len() - 1] == last);
                    wheel_division(n, start_after(last))
                },
            }
        }
    }

    /// Returns an immutable reference to the underlying sieve of Eratosthenes.
    ///
    /// To check if number is in the sieve, simply use it as the index.
    pub fn sieve(&self) -> (r: &[bool])
        ensures
            r@ == self@.sieve,
    {
        self.sieve.as_slice()
    }

    /// Returns an immutable reference to the underlying list of generated primes.
    pub fn primes(&self) -> (r: &[usize])
        ensures
            naturals(r@) == self@.primes,
    {
        self.primes.as_slice()
    }
}

} // verus!
