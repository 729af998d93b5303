//! Randomness: the caller supplies a thread-local cryptographically secure
//! generator; the library states of each draw only what holds of every
//! outcome.

use vstd::prelude::*;
use crate::bignum::BigNum;
use vstd::arithmetic::div_mod::lemma_mod_bound;
use rand::Rng;

verus! {

#[verifier::external_type_specification]
#[verifier::external_body]
pub struct ExThreadRng(rand::rngs::ThreadRng);

/// Relies on `rand::rng`: a handle to the thread-local CSPRNG.
#[verifier::external_body]
pub fn new_rng() -> rand::rngs::ThreadRng {
    rand::rng()
}

/// Relies on `rand_core::Rng::fill_bytes` on `ThreadRng`: fills the buffer
/// with random bytes; nothing is promised of their values.
#[verifier::external_body]
pub fn fill_random_bytes(rng: &mut rand::rngs::ThreadRng, n: usize) -> (r: Vec<u8>)
    ensures
        r@.len() == n,
{
    let mut buf = vec![0u8; n];
    rng.fill_bytes(&mut buf);
    buf
}

/// Draws a number in `[1, bound)`.  The draw is random; the contract states
/// only the range, which holds of every outcome.
pub fn sample_in_range(rng: &mut rand::rngs::ThreadRng, bound: &BigNum) -> (r: BigNum)
    requires
        bound.wf(),
        bound@ >= 3,
        bound.bytes@.len() + 16 < usize::MAX,
    ensures
        r.wf(),
        1 <= r@ < bound@,
{
    let bytes = fill_random_bytes(rng, bound.bytes.len() + 16);
    let x = BigNum::from_bytes_le(&bytes);
    let one = BigNum::from_u64(1);
    let bm1 = bound.sub(&one);
    proof {
        x.lemma_nonneg();
    }
    let r = x.rem(&bm1).add(&one);
    proof {
        lemma_mod_bound(x@, bm1@);
    }
    r
}

} // verus!
