//! Serialization for on-chain verification: numbers as big-endian byte
//! strings left-padded with zeros to a multiple of 32 bytes, plus a sign
//! flag, and certificates and proofs as field-by-field records of such
//! strings.  Turning these plain records into a contract ABI's token tree is
//! the caller's affair.

use vstd::prelude::*;
use crate::bignum::BigNum;
use crate::rsa_hidden_order_group::RsaHiddenOrderGroup;
use crate::hash_to_prime::{StepCert, PocklingtonCert};
use crate::poe::PoEProof;

verus! {

/// A big-endian byte string, left-padded with zeros to the next multiple of
/// 32 bytes.
pub open spec fn pad32_spec(b: Seq<u8>) -> Seq<u8> {
    let padlen = 32 * ((b.len() - 1) / 32 + 1);
    Seq::new((padlen - b.len()) as nat, |i: int| 0u8) + b
}

/// Left-pads a big-endian byte string with zeros to a multiple of 32 bytes.
pub fn pad_to_32_byte_offset(bytes: Vec<u8>) -> (r: Vec<u8>)
    requires
        bytes@.len() >= 1,
        bytes@.len() + 32 < usize::MAX,
    ensures
        r@ == pad32_spec(bytes@),
        r@.len() % 32 == 0,
{
    let len = bytes.len();
    let pad_len = 32 * ((len - 1) / 32 + 1);
    proof {
        assert(32 * ((len - 1) / 32 + 1) >= len && 32 * ((len - 1) / 32 + 1) < len + 32)
            by (nonlinear_arith)
            requires len >= 1;
    }
    let zeros = pad_len - len;
    let mut out: Vec<u8> = Vec::new();
    let mut i: usize = 0;
    while i < zeros
        invariant
            0 <= i <= zeros,
            out@.len() == i,
            forall|j: int| 0 <= j < i ==> out@[j] == 0u8,
        decreases zeros - i,
    {
        out.push(0);
        i += 1;
    }
    crate::hashing::push_bytes(&mut out, &bytes);
    proof {
        assert(out@ =~= pad32_spec(bytes@));
        assert(32 * ((len - 1) / 32 + 1) % 32 == 0) by (nonlinear_arith);
    }
    out
}

/// A serialized integer: padded big-endian magnitude and a sign flag.
#[derive(Clone, PartialEq, Eq, Debug)]
pub struct EncodedBigNum {
    pub bytes: Vec<u8>,
    pub negative: bool,
}

/// The serialized form of a natural number: its big-endian bytes padded, and
/// a sign flag that is never set.
pub fn encode_bigint(n: &BigNum) -> (r: EncodedBigNum)
    requires
        n.bytes@.len() >= 1,
        n.bytes@.len() + 32 < usize::MAX,
    ensures
        r.bytes@ == pad32_spec(n.bytes@.reverse()),
        r.negative == false,
{
    let be = n.to_bytes_be();
    proof {
        assert(be@.len() == n.bytes@.len());
    }
    EncodedBigNum { bytes: pad_to_32_byte_offset(be), negative: false }
}

/// A group element serializes as its representative.
pub fn encode_rsa_element(elmt: &RsaHiddenOrderGroup) -> (r: EncodedBigNum)
    requires
        elmt.n.bytes@.len() >= 1,
        elmt.n.bytes@.len() + 32 < usize::MAX,
    ensures
        r.bytes@ == pad32_spec(elmt.n.bytes@.reverse()),
        r.negative == false,
{
    encode_bigint(&elmt.n)
}

/// A step certificate, serialized field by field.
#[derive(Clone, PartialEq, Eq, Debug)]
pub struct EncodedStepCert {
    pub f: EncodedBigNum,
    pub n: u32,
    pub n2: u32,
    pub a: EncodedBigNum,
    pub bu: EncodedBigNum,
    pub bv: EncodedBigNum,
    pub v: EncodedBigNum,
    pub s: EncodedBigNum,
    pub expr_sqrt: EncodedBigNum,
    pub p_less_one_div_f: EncodedBigNum,
    pub p_less_one_div_two: EncodedBigNum,
    pub b_p_div_f1: EncodedBigNum,
    pub b_p_div_f2: EncodedBigNum,
    pub b_p_div_two1: EncodedBigNum,
    pub b_p_div_two2: EncodedBigNum,
}

/// Every byte string of a step certificate is in bounds for serialization.
pub open spec fn step_cert_encodable(c: StepCert) -> bool {
    &&& c.f.bytes@.len() >= 1 && c.f.bytes@.len() + 32 < usize::MAX
    &&& c.a.bytes@.len() >= 1 && c.a.bytes@.len() + 32 < usize::MAX
    &&& c.bu.bytes@.len() >= 1 && c.bu.bytes@.len() + 32 < usize::MAX
    &&& c.bv.bytes@.len() >= 1 && c.bv.bytes@.len() + 32 < usize::MAX
    &&& c.v.bytes@.len() >= 1 && c.v.bytes@.len() + 32 < usize::MAX
    &&& c.s.bytes@.len() >= 1 && c.s.bytes@.len() + 32 < usize::MAX
    &&& c.expr_sqrt.bytes@.len() >= 1 && c.expr_sqrt.bytes@.len() + 32 < usize::MAX
    &&& c.p_less_one_div_f.bytes@.len() >= 1 && c.p_less_one_div_f.bytes@.len() + 32 < usize::MAX
    &&& c.p_less_one_div_two.bytes@.len() >= 1 && c.p_less_one_div_two.bytes@.len() + 32
        < usize::MAX
    &&& c.b_p_div_f1.bytes@.len() >= 1 && c.b_p_div_f1.bytes@.len() + 32 < usize::MAX
    &&& c.b_p_div_f2.bytes@.len() >= 1 && c.b_p_div_f2.bytes@.len() + 32 < usize::MAX
    &&& c.b_p_div_two1.bytes@.len() >= 1 && c.b_p_div_two1.bytes@.len() + 32 < usize::MAX
    &&& c.b_p_div_two2.bytes@.len() >= 1 && c.b_p_div_two2.bytes@.len() + 32 < usize::MAX
}

/// The padded big-endian form of one field.
pub open spec fn enc_of(b: BigNum) -> Seq<u8> {
    pad32_spec(b.bytes@.reverse())
}

/// Serializes the fifteen fields of a step certificate in order.
pub fn encode_pocklington_step_certificate(cert: &StepCert) -> (r: EncodedStepCert)
    requires
        step_cert_encodable(*cert),
    ensures
        r.f.bytes@ == enc_of(cert.f) && !r.f.negative,
        r.n == cert.n,
        r.n2 == cert.n2,
        r.a.bytes@ == enc_of(cert.a) && !r.a.negative,
        r.bu.bytes@ == enc_of(cert.bu) && !r.bu.negative,
        r.bv.bytes@ == enc_of(cert.bv) && !r.bv.negative,
        r.v.bytes@ == enc_of(cert.v) && !r.v.negative,
        r.s.bytes@ == enc_of(cert.s) && !r.s.negative,
        r.expr_sqrt.bytes@ == enc_of(cert.expr_sqrt) && !r.expr_sqrt.negative,
        r.p_less_one_div_f.bytes@ == enc_of(cert.p_less_one_div_f) && !r.p_less_one_div_f.negative,
        r.p_less_one_div_two.bytes@ == enc_of(cert.p_less_one_div_two)
            && !r.p_less_one_div_two.negative,
        r.b_p_div_f1.bytes@ == enc_of(cert.b_p_div_f1) && !r.b_p_div_f1.negative,
        r.b_p_div_f2.bytes@ == enc_of(cert.b_p_div_f2) && !r.b_p_div_f2.negative,
        r.b_p_div_two1.bytes@ == enc_of(cert.b_p_div_two1) && !r.b_p_div_two1.negative,
        r.b_p_div_two2.bytes@ == enc_of(cert.b_p_div_two2) && !r.b_p_div_two2.negative,
{
    EncodedStepCert {
        f: encode_bigint(&cert.f),
        n: cert.n,
        n2: cert.n2,
        a: encode_bigint(&cert.a),
        bu: encode_bigint(&cert.bu),
        bv: encode_bigint(&cert.bv),
        v: encode_bigint(&cert.v),
        s: encode_bigint(&cert.s),
        expr_sqrt: encode_bigint(&cert.expr_sqrt),
        p_less_one_div_f: encode_bigint(&cert.p_less_one_div_f),
        p_less_one_div_two: encode_bigint(&cert.p_less_one_div_two),
        b_p_div_f1: encode_bigint(&cert.b_p_div_f1),
        b_p_div_f2: encode_bigint(&cert.b_p_div_f2),
        b_p_div_two1: encode_bigint(&cert.b_p_div_two1),
        b_p_div_two2: encode_bigint(&cert.b_p_div_two2),
    }
}

/// A serialized certificate chain.
#[derive(Clone, PartialEq, Eq, Debug)]
pub struct EncodedPocklingtonCert {
    pub step_certificates: Vec<EncodedStepCert>,
    pub nonce: u32,
}

/// Serializes a certificate: each step in order, and the nonce.
pub fn encode_pocklington_certificate(cert: &PocklingtonCert) -> (r: EncodedPocklingtonCert)
    requires
        forall|i: int|
            0 <= i < cert.step_certificates@.len() ==> step_cert_encodable(
                #[trigger] cert.step_certificates@[i],
            ),
    ensures
        r.step_certificates@.len() == cert.step_certificates@.len(),
        r.nonce == cert.nonce,
        forall|i: int|
            0 <= i < cert.step_certificates@.len() ==> (#[trigger] r.step_certificates@[i]).n
                == cert.step_certificates@[i].n && r.step_certificates@[i].f.bytes@ == enc_of(
                cert.step_certificates@[i].f,
            ),
{
    let n = cert.step_certificates.len();
    let mut out: Vec<EncodedStepCert> = Vec::new();
    let mut i: usize = 0;
    while i < n
        invariant
            0 <= i <= n,
            n == cert.step_certificates@.len(),
            out@.len() == i,
            forall|j: int|
                0 <= j < n ==> step_cert_encodable(#[trigger] cert.step_certificates@[j]),
            forall|j: int|
                0 <= j < i ==> (#[trigger] out@[j]).n == cert.step_certificates@[j].n
                    && out@[j].f.bytes@ == enc_of(cert.step_certificates@[j].f),
        decreases n - i,
    {
        out.push(encode_pocklington_step_certificate(&cert.step_certificates[i]));
        i += 1;
    }
    EncodedPocklingtonCert { step_certificates: out, nonce: cert.nonce }
}

/// A serialized proof of exponentiation.
#[derive(Clone, PartialEq, Eq, Debug)]
pub struct EncodedPoEProof {
    pub q: EncodedBigNum,
    pub cert: EncodedPocklingtonCert,
}

/// Serializes a proof of exponentiation: the quotient element, then the
/// certificate.
pub fn encode_poe_proof(proof: &PoEProof) -> (r: EncodedPoEProof)
    requires
        proof.q.n.bytes@.len() >= 1,
        proof.q.n.bytes@.len() + 32 < usize::MAX,
        forall|i: int|
            0 <= i < proof.cert.step_certificates@.len() ==> step_cert_encodable(
                #[trigger] proof.cert.step_certificates@[i],
            ),
    ensures
        r.q.bytes@ == enc_of(proof.q.n) && !r.q.negative,
        r.cert.nonce == proof.cert.nonce,
        r.cert.step_certificates@.len() == proof.cert.step_certificates@.len(),
{
    EncodedPoEProof {
        q: encode_rsa_element(&proof.q),
        cert: encode_pocklington_certificate(&proof.cert),
    }
}

} // verus!
