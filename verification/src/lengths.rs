//! Sieve lengths: powers of two, and the least power of two above a bound.

use vstd::prelude::*;
use vstd::arithmetic::power2::is_pow2;

verus! {

/// The least power of two strictly greater than `n`.
pub open spec fn pow2_above(n: nat) -> nat
    decreases n,
{
    if n == 0 {
        1
    } else {
        2 * pow2_above(n / 2)
    }
}

/// The length of a sieve of length `len` once it has been asked to cover index `n`:
/// unchanged if it covers `n` already, else the least power of two above `n`.
pub open spec fn grown_len(len: nat, n: nat) -> nat {
    if len > n {
        len
    } else {
        pow2_above(n)
    }
}

/// A power of two is positive, and beyond 1 it is twice a power of two.
pub proof fn lemma_pow2_halves(m: int)
    requires
        is_pow2(m),
    ensures
        m >= 1,
        m > 1 ==> m % 2 == 0 && is_pow2(m / 2),
{
    reveal(is_pow2);
}

/// Twice a power of two is a power of two.
pub proof fn lemma_pow2_doubles(m: int)
    requires
        is_pow2(m),
    ensures
        is_pow2(2 * m),
{
    reveal(is_pow2);
}

/// `pow2_above(n)` is a power of two, exceeds `n`, and its half does not.
pub proof fn lemma_pow2_above(n: nat)
    ensures
        is_pow2(pow2_above(n) as int),
        pow2_above(n) > n,
        pow2_above(n) / 2 <= n,
    decreases n,
{
    reveal(is_pow2);
    if n > 0 {
        lemma_pow2_above(n / 2);
    }
}

/// No power of two above `n` is smaller than `pow2_above(n)`.
pub proof fn lemma_pow2_above_is_least(n: nat, m: int)
    requires
        is_pow2(m),
        m > n,
    ensures
        pow2_above(n) <= m,
    decreases n,
{
    lemma_pow2_halves(m);
    if n > 0 {
        lemma_pow2_above_is_least(n / 2, m / 2);
    }
}

/// A power of two that exceeds `n` while its half does not is `pow2_above(n)`.
pub proof fn lemma_pow2_above_unique(n: nat, m: int)
    requires
        is_pow2(m),
        m > n,
        m / 2 <= n,
    ensures
        m == pow2_above(n),
    decreases n,
{
    lemma_pow2_halves(m);
    if n > 0 {
        lemma_pow2_above_unique(n / 2, m / 2);
    }
}

/// Of two powers of two, the larger is at least twice the smaller.
pub proof fn lemma_pow2_gap(a: int, b: int)
    requires
        is_pow2(a),
        is_pow2(b),
        a < b,
    ensures
        2 * a <= b,
    decreases b,
{
    lemma_pow2_halves(a);
    lemma_pow2_halves(b);
    if a > 1 {
        lemma_pow2_gap(a / 2, b / 2);
    }
}

/// The greatest power of two that a `usize` holds is half of `usize::MAX`, rounded up.
pub proof fn lemma_greatest_pow2()
    ensures
        is_pow2(usize::MAX / 2 + 1),
{
    assert(usize::MAX == 0xffff_ffff || usize::MAX == 0xffff_ffff_ffff_ffff);
    assert(is_pow2(0x8000_0000)) by {
        reveal_with_fuel(is_pow2, 33);
    }
    assert(is_pow2(0x8000_0000_0000_0000)) by {
        reveal_with_fuel(is_pow2, 65);
    }
}

/// No power of two that a `usize` holds exceeds half of `usize::MAX`, rounded up.
pub proof fn lemma_pow2_fits(m: int)
    requires
        is_pow2(m),
        m <= usize::MAX,
    ensures
        m <= usize::MAX / 2 + 1,
{
    lemma_greatest_pow2();
    if m > usize::MAX / 2 + 1 {
        lemma_pow2_gap(usize::MAX / 2 + 1, m);
    }
}

} // verus!
