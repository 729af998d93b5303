//! The cryptographic core of a sealed-bid auction over timed commitments:
//! hidden-order groups over an RSA modulus, a deterministic hash-to-prime
//! with Pocklington certificates, Wesolowski proofs of exponentiation, a
//! time-lock commitment with an authenticated ciphertext, and a lazy timed
//! commitment that pairs it with a Pedersen commitment so bids can be
//! self-opened cheaply or forced open after a prescribed amount of
//! sequential computation.

use vstd::prelude::*;

pub mod bignum;
pub mod hog;
pub mod rsa_hidden_order_group;
pub mod unsigned_rsa_hidden_order_group;
pub mod hashing;
pub mod hash_to_prime;
pub mod poe;
pub mod rng;
pub mod aead;
pub mod encode;
pub mod basic_tc;
pub mod pedersen;
pub mod lazy_tc;

verus! {

/// Failures of the commitment stack, by kind.
#[derive(Clone, Copy, PartialEq, Eq, Debug)]
pub enum TcError {
    /// No prime certificate found within the search bounds.
    HashToPrimeExhausted,
    /// A value does not fit the scalar field.
    ArgumentOutOfRange,
}

/// The value of a little-endian byte string: byte `i` carries weight 256^i.
pub open spec fn le_bytes_value(s: Seq<u8>) -> int
    decreases s.len(),
{
    if s.len() == 0 {
        0
    } else {
        s[0] + 256 * le_bytes_value(s.subrange(1, s.len() as int))
    }
}

} // verus!
