//! Authenticated encryption with associated data, built from SHA3-256 in an
//! encrypt-then-MAC shape: the keystream is the variable-length hash of the
//! key with a domain byte, the ciphertext body is the plaintext XORed with
//! it, and the tag is the digest of the key, the associated data (length
//! prefixed), and the body.  Decryption recomputes the tag and rejects any
//! mismatch, which binds the associated data into the ciphertext.

use vstd::prelude::*;
use crate::hashing::{htv_spec, u64_le_bytes, digest32, sha3_256,
    hash_to_variable_output_length, push_bytes};
use crate::bignum::bytes_eq;

verus! {

/// The keystream: `l` bytes derived from the key under domain byte 1.
pub open spec fn aead_keystream(k: Seq<u8>, l: nat) -> Seq<u8> {
    htv_spec(k + seq![1u8], l)
}

/// The tag over the key (domain byte 2), the length-prefixed associated
/// data, and the ciphertext body.
pub open spec fn aead_tag(k: Seq<u8>, ad: Seq<u8>, body: Seq<u8>) -> Seq<u8> {
    digest32(k + seq![2u8] + u64_le_bytes(ad.len() as u64) + ad + body)
}

/// Pointwise XOR of `a` against a stream at least as long.
pub open spec fn xor_bytes(a: Seq<u8>, b: Seq<u8>) -> Seq<u8> {
    Seq::new(a.len(), |i: int| a[i] ^ b[i])
}

/// The ciphertext: XORed body followed by the 32-byte tag.
pub open spec fn aead_enc(k: Seq<u8>, ad: Seq<u8>, m: Seq<u8>) -> Seq<u8> {
    let body = xor_bytes(m, aead_keystream(k, m.len()));
    body + aead_tag(k, ad, body)
}

/// Decryption: split off the tag, reject a mismatch, undo the keystream.
pub open spec fn aead_dec(k: Seq<u8>, ad: Seq<u8>, ct: Seq<u8>) -> Option<Seq<u8>> {
    if ct.len() < 32 {
        None
    } else {
        let body = ct.take(ct.len() - 32);
        let tag = ct.skip(ct.len() - 32);
        if tag == aead_tag(k, ad, body) {
            Some(xor_bytes(body, aead_keystream(k, body.len())))
        } else {
            None
        }
    }
}

/// XOR undoes itself.
pub proof fn lemma_xor_involution(a: Seq<u8>, b: Seq<u8>)
    ensures
        xor_bytes(xor_bytes(a, b), b) == a,
{
    let x = xor_bytes(xor_bytes(a, b), b);
    assert forall|i: int| 0 <= i < a.len() implies x[i] == a[i] by {
        let u = a[i];
        let v = b[i];
        assert((u ^ v) ^ v == u) by (bit_vector);
    }
    assert(x =~= a);
}

/// Decryption recovers exactly what was encrypted under the same key and
/// associated data.
pub proof fn lemma_aead_round_trip(k: Seq<u8>, ad: Seq<u8>, m: Seq<u8>)
    ensures
        aead_dec(k, ad, aead_enc(k, ad, m)) == Some(m),
{
    let body = xor_bytes(m, aead_keystream(k, m.len()));
    let ct = aead_enc(k, ad, m);
    assert(ct.take(ct.len() - 32) =~= body);
    assert(ct.skip(ct.len() - 32) =~= aead_tag(k, ad, body));
    lemma_xor_involution(m, aead_keystream(k, m.len()));
}

/// XOR of a buffer against a stream of at least its length.
fn xor_into(m: &Vec<u8>, ks: &Vec<u8>) -> (r: Vec<u8>)
    requires
        m@.len() <= ks@.len(),
    ensures
        r@ == xor_bytes(m@, ks@),
{
    let n = m.len();
    let mut out: Vec<u8> = Vec::new();
    let mut i: usize = 0;
    while i < n
        invariant
            0 <= i <= n,
            n == m@.len() <= ks@.len(),
            out@.len() == i,
            forall|j: int| 0 <= j < i ==> out@[j] == (m@[j] ^ ks@[j]),
        decreases n - i,
    {
        out.push(m[i] ^ ks[i]);
        i += 1;
    }
    proof {
        assert(out@ =~= xor_bytes(m@, ks@));
    }
    out
}

/// Builds the tag input and hashes it.
fn compute_tag(k: &Vec<u8>, ad: &Vec<u8>, body: &Vec<u8>) -> (r: Vec<u8>)
    ensures
        r@ == aead_tag(k@, ad@, body@),
        r@.len() == 32,
{
    let mut buf: Vec<u8> = Vec::new();
    push_bytes(&mut buf, k);
    buf.push(2u8);
    proof {
        assert(buf@ =~= k@ + seq![2u8]);
    }
    crate::hashing::push_u64_le(&mut buf, ad.len() as u64);
    push_bytes(&mut buf, ad);
    push_bytes(&mut buf, body);
    proof {
        assert(buf@ =~= k@ + seq![2u8] + u64_le_bytes(ad@.len() as u64) + ad@ + body@);
    }
    sha3_256(&buf)
}

/// Encrypts `m`, binding `ad` into the tag.
pub fn aead_encrypt(k: &Vec<u8>, ad: &Vec<u8>, m: &Vec<u8>) -> (r: Vec<u8>)
    requires
        m@.len() + 32 < usize::MAX,
        k@.len() + 1 + 8 + ad@.len() + m@.len() < usize::MAX,
    ensures
        r@ == aead_enc(k@, ad@, m@),
{
    let mut kbuf: Vec<u8> = Vec::new();
    push_bytes(&mut kbuf, k);
    kbuf.push(1u8);
    proof {
        assert(kbuf@ =~= k@ + seq![1u8]);
    }
    let ks = hash_to_variable_output_length(&kbuf, m.len());
    let body = xor_into(m, &ks);
    let tag = compute_tag(k, ad, &body);
    let mut out = body;
    push_bytes(&mut out, &tag);
    proof {
        assert(out@ =~= aead_enc(k@, ad@, m@));
    }
    out
}

/// Decrypts and authenticates; `None` on any tag mismatch, including a
/// changed associated-data string.
pub fn aead_decrypt(k: &Vec<u8>, ad: &Vec<u8>, ct: &Vec<u8>) -> (r: Option<Vec<u8>>)
    requires
        k@.len() + 9 + ad@.len() + ct@.len() < usize::MAX,
    ensures
        match r {
            Some(m) => aead_dec(k@, ad@, ct@) == Some(m@),
            None => aead_dec(k@, ad@, ct@) is None,
        },
{
    let n = ct.len();
    if n < 32 {
        return None;
    }
    let body_len = n - 32;
    let mut body: Vec<u8> = Vec::new();
    let mut i: usize = 0;
    while i < body_len
        invariant
            0 <= i <= body_len,
            body_len <= n == ct@.len(),
            body@.len() == i,
            forall|j: int| 0 <= j < i ==> body@[j] == ct@[j],
        decreases body_len - i,
    {
        body.push(ct[i]);
        i += 1;
    }
    let mut tag: Vec<u8> = Vec::new();
    let mut i: usize = body_len;
    while i < n
        invariant
            body_len <= i <= n,
            n == ct@.len(),
            tag@.len() == i - body_len,
            forall|j: int| body_len <= j < i ==> tag@[j - body_len] == ct@[j],
        decreases n - i,
    {
        tag.push(ct[i]);
        i += 1;
    }
    proof {
        assert(body@ =~= ct@.take(ct@.len() - 32));
        assert(tag@ =~= ct@.skip(ct@.len() - 32));
    }
    let expected = compute_tag(k, ad, &body);
    if !bytes_eq(&tag, &expected) {
        return None;
    }
    let mut kbuf: Vec<u8> = Vec::new();
    push_bytes(&mut kbuf, k);
    kbuf.push(1u8);
    proof {
        assert(kbuf@ =~= k@ + seq![1u8]);
    }
    let ks = hash_to_variable_output_length(&kbuf, body_len);
    let m = xor_into(&body, &ks);
    Some(m)
}

} // verus!
