//! Hashing: SHA3-256 behind a trusted wrapper, and a verified streaming
//! extension that produces any number of deterministic bytes by hashing
//! `input || i` for i = 0, 1, 2, ... and concatenating the digests.

use vstd::prelude::*;
use sha3::{Digest, Sha3_256};

verus! {

/// The SHA3-256 digest of a byte string; 32 bytes, a function of the input
/// alone.
pub uninterp spec fn sha3_256_of(input: Seq<u8>) -> Seq<u8>;

/// Relies on `sha3::Sha3_256` (through the `digest::Digest` trait): the
/// digest is 32 bytes and depends on the input bytes alone.
#[verifier::external_body]
pub(crate) fn sha3_256(input: &Vec<u8>) -> (r: Vec<u8>)
    ensures
        r@ == sha3_256_of(input@),
        r@.len() == 32,
{
    Sha3_256::digest(input.as_slice()).to_vec()
}

/// The digest, adjusted to be 32 bytes long at the specification level as
/// well: the wrapper's contract makes the two branches coincide on every
/// value the executable code ever sees.
pub open spec fn digest32(input: Seq<u8>) -> Seq<u8> {
    let d = sha3_256_of(input);
    if d.len() == 32 {
        d
    } else {
        Seq::new(32, |i: int| 0u8)
    }
}

/// The eight little-endian bytes of a 64-bit counter.
pub open spec fn u64_le_bytes(x: u64) -> Seq<u8> {
    seq![
        (x & 0xff) as u8,
        ((x >> 8) & 0xff) as u8,
        ((x >> 16) & 0xff) as u8,
        ((x >> 24) & 0xff) as u8,
        ((x >> 32) & 0xff) as u8,
        ((x >> 40) & 0xff) as u8,
        ((x >> 48) & 0xff) as u8,
        ((x >> 56) & 0xff) as u8,
    ]
}

/// Digest of the input with the block counter appended.
pub open spec fn htv_block(input: Seq<u8>, i: u64) -> Seq<u8> {
    sha3_256_of(input + u64_le_bytes(i))
}

/// The first `k` digest blocks, concatenated.
pub open spec fn htv_stream(input: Seq<u8>, k: nat) -> Seq<u8>
    decreases k,
{
    if k == 0 {
        Seq::empty()
    } else {
        htv_stream(input, (k - 1) as nat) + htv_block(input, (k - 1) as u64)
    }
}

/// `l` deterministic bytes derived from `input`: the digest stream cut to
/// length `l`.
pub open spec fn htv_spec(input: Seq<u8>, l: nat) -> Seq<u8> {
    htv_stream(input, ((l + 31) / 32) as nat).take(l as int)
}

/// Appends the eight little-endian counter bytes.
pub fn push_u64_le(v: &mut Vec<u8>, x: u64)
    ensures
        final(v)@ == old(v)@ + u64_le_bytes(x),
{
    v.push((x & 0xff) as u8);
    v.push(((x >> 8) & 0xff) as u8);
    v.push(((x >> 16) & 0xff) as u8);
    v.push(((x >> 24) & 0xff) as u8);
    v.push(((x >> 32) & 0xff) as u8);
    v.push(((x >> 40) & 0xff) as u8);
    v.push(((x >> 48) & 0xff) as u8);
    v.push(((x >> 56) & 0xff) as u8);
    proof {
        assert(v@ =~= old(v)@ + u64_le_bytes(x));
    }
}

/// Appends a copy of `src`.
pub fn push_bytes(dst: &mut Vec<u8>, src: &Vec<u8>)
    ensures
        final(dst)@ == old(dst)@ + src@,
{
    let n = src.len();
    let mut i: usize = 0;
    while i < n
        invariant
            0 <= i <= n,
            n == src@.len(),
            dst@ == old(dst)@ + src@.subrange(0, i as int),
        decreases n - i,
    {
        proof {
            assert(old(dst)@ + src@.subrange(0, i + 1)
                =~= (old(dst)@ + src@.subrange(0, i as int)).push(src@[i as int]));
        }
        dst.push(src[i]);
        i += 1;
    }
    proof {
        assert(src@.subrange(0, n as int) =~= src@);
    }
}

/// Produces `l` deterministic bytes from `input` by concatenating the
/// digests of `input || 0`, `input || 1`, ... and truncating.
pub fn hash_to_variable_output_length(input: &Vec<u8>, l: usize) -> (r: Vec<u8>)
    requires
        l + 31 < usize::MAX,
    ensures
        r@.len() == l,
        r@ == htv_spec(input@, l as nat),
{
    let mut acc: Vec<u8> = Vec::new();
    let mut i: usize = 0;
    while acc.len() < l
        invariant
            acc@.len() == 32 * i,
            i > 0 ==> 32 * (i - 1) < l,
            l + 31 < usize::MAX,
            acc@ == htv_stream(input@, i as nat),
        decreases l + 32 - acc@.len(),
    {
        let mut buf: Vec<u8> = Vec::new();
        push_bytes(&mut buf, input);
        proof {
            assert(buf@ =~= input@);
        }
        push_u64_le(&mut buf, i as u64);
        let block = sha3_256(&buf);
        push_bytes(&mut acc, &block);
        proof {
            assert(htv_stream(input@, (i + 1) as nat)
                == htv_stream(input@, i as nat) + htv_block(input@, i as u64));
        }
        i += 1;
    }
    proof {
        // i is exactly the number of 32-byte blocks that covers l.
        if i == 0 {
            assert(l == 0);
            assert((l + 31) / 32 == 0);
        } else {
            assert(32 * (i - 1) < l && l <= 32 * i);
            assert((l + 31) / 32 == i) by (nonlinear_arith)
                requires 32 * (i - 1) < l && l <= 32 * i && i >= 1;
        }
    }
    let mut out: Vec<u8> = Vec::new();
    let mut j: usize = 0;
    while j < l
        invariant
            0 <= j <= l,
            l <= acc@.len(),
            out@.len() == j,
            forall|k: int| 0 <= k < j ==> out@[k] == acc@[k],
        decreases l - j,
    {
        out.push(acc[j]);
        j += 1;
    }
    proof {
        assert(out@ =~= acc@.take(l as int));
    }
    out
}

} // verus!
