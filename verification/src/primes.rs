//! Primality, and the sieve that decides it.

use primal::Sieve;
use vstd::prelude::*;

verus! {

/// `k` is prime: at least two, and divisible by nothing strictly between one
/// and itself.
pub open spec fn is_prime(k: int) -> bool {
    k >= 2 && forall|d: int| 2 <= d < k ==> #[trigger] (k % d) != 0
}

/// `primal::Sieve`, a sieve of Eratosthenes over a range of numbers that
/// starts at zero. The verifier does not look inside.
#[verifier::external_type_specification]
#[verifier::external_body]
pub struct ExSieve(Sieve);

/// The largest number that a sieve can be asked about: what
/// `Sieve::upper_bound` returns.
pub uninterp spec fn sieve_upper_bound(sieve: Sieve) -> nat;

/// `Sieve::new`: a sieve that knows every number up to `limit`, and perhaps a
/// few more. Only limits that fit 32 bits are asked for.
#[verifier::external_body]
pub(crate) fn sieve_new(limit: usize) -> (sieve: Sieve)
    requires
        limit <= u32::MAX,
    ensures
        sieve_upper_bound(sieve) >= limit,
{
    Sieve::new(limit)
}

/// `Sieve::is_prime`: whether `k` is prime. The sieve must reach `k`.
#[verifier::external_body]
pub(crate) fn sieve_is_prime(sieve: &Sieve, k: usize) -> (prime: bool)
    requires
        k <= sieve_upper_bound(*sieve),
    ensures
        prime == is_prime(k as int),
{
    sieve.is_prime(k)
}

} // verus!
