//! An incremental sieve of Eratosthenes that caches the primes it has found.
//!
//! [`Primes`] holds a sieve of power-of-two length and the list of the primes below that
//! length. It grows on demand, to cover an index ([`Primes::generate_to`]) or to list a
//! number of primes ([`Primes::generate_amount`]), and never computes anything twice. It
//! answers whether a number is prime ([`Primes::is_prime`]) by lookup where the sieve
//! covers the number and by trial division where it does not, and it hands out the primes
//! in increasing order ([`Primes::iter`], [`Primes::into_iter`]).
//!
//! Every function is verified against a mathematical model: [`primality::is_prime`] says
//! what a prime is, [`primality::primes_below`] what the list holds, and
//! [`Primes::wf`] ties a sieve to both. The module [`laws`] states what follows for every
//! sieve and every way of growing one.

pub mod growth;
pub mod iter;
pub mod laws;
pub mod lengths;
pub mod primality;
pub mod sieve;
pub mod trial;

pub use crate::iter::{IntoIter, Iter};
pub use crate::sieve::Primes;
