//! Trial division by the candidates `6k - 1` and `6k + 1`, which are the only numbers
//! above 3 that can be prime.

use vstd::prelude::*;
use crate::primality::{
    divides,
    is_prime,
    least_factor,
    lemma_least_factor,
    lemma_prime_by_trial_division,
};

verus! {

/// The multiple of 6 at which the candidates are taken up after the known prime `last`:
/// the one next to `last` when `last` is itself a candidate, else 6.
pub open spec fn wheel_start(last: nat) -> nat {
    if last % 6 == 1 {
        (last - 1) as nat
    } else if last % 6 == 5 {
        last + 1
    } else {
        6
    }
}

/// If the least factor of `n` is at least `6k - 1` and neither `6k - 1` nor `6k + 1`
/// divides `n`, the least factor of `n` is at least `6(k + 1) - 1`: the four numbers in
/// between are multiples of 2 or of 3.
pub proof fn lemma_wheel_step(n: int, number: int)
    requires
        n >= 2,
        number >= 6,
        number % 6 == 0,
        least_factor(n) >= number - 1,
        !divides(number - 1, n),
        !divides(number + 1, n),
    ensures
        least_factor(n) >= number + 5,
{
    lemma_least_factor(n);
    let f = least_factor(n);
    if f == number || f == number + 2 || f == number + 4 {
        assert(divides(2, f));
    }
    if f == number + 3 {
        assert(divides(3, f));
    }
}

/// The square of `x`, computed in a width that holds the square of every `usize`.
pub(crate) fn square(x: usize) -> (r: u128)
    ensures
        r == x * x,
{
    proof {
        assert(x * x <= 0xffff_ffff_ffff_ffff * 0xffff_ffff_ffff_ffff) by (nonlinear_arith)
            requires
                0 <= x <= 0xffff_ffff_ffff_ffff,
        ;
    }
    (x as u128) * (x as u128)
}

/// Computes the multiple of 6 next to the known prime `last`.
pub(crate) fn start_after(last: usize) -> (start: usize)
    requires
        is_prime(last as int),
        last < usize::MAX,
    ensures
        start == wheel_start(last as nat),
        start >= 6,
        start % 6 == 0,
        start - 1 <= last || start == 6,
{
    if last % 6 == 1 {
        last - 1
    } else if last % 6 == 5 {
        last + 1
    } else {
        6
    }
}

/// Decides whether `n` is prime by dividing it by `number - 1` and `number + 1` for
/// `number` running from `start` on in steps of 6, until the square of `number - 1`
/// exceeds `n`. Nothing below `start - 1` divides `n`.
pub(crate) fn wheel_division(n: usize, start: usize) -> (r: bool)
    requires
        n >= 2,
        start >= 6,
        start % 6 == 0,
        least_factor(n as int) >= start - 1,
    ensures
        r == is_prime(n as int),
{
    let mut number = start;
    proof {
        lemma_least_factor(n as int);
    }
    while square(number - 1) <= n as u128
        invariant
            n >= 2,
            number >= 6,
            number % 6 == 0,
            number - 1 <= n,
            least_factor(n as int) >= number - 1,
        decreases n + 7 - number,
    {
        proof {
            assert(5 * (number - 1) <= (number - 1) * (number - 1)) by (nonlinear_arith)
                requires
                    number >= 6,
            ;
        }
        if n % (number - 1) == 0 || n % (number + 1) == 0 {
            assert(divides(number - 1, n as int) || divides(number + 1, n as int));
            return false;
        }
        proof {
            lemma_wheel_step(n as int, number as int);
            lemma_least_factor(n as int);
        }
        number += 6;
    }
    proof {
        lemma_prime_by_trial_division(n as int, number - 1);
    }
    true
}

} // verus!
