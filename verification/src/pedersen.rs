//! Pedersen commitments over the BN254 curve: `Com(m; r) = g^s * h^r`, where
//! `s` is the message read as a scalar and `r` is fresh randomness.  Points
//! are carried in canonical compressed form (32 bytes), and the curve
//! arithmetic is done by the `ark` crates behind trusted wrappers whose
//! results are named functions of the serialized operands.

use vstd::prelude::*;
use vstd::arithmetic::power::pow;
use crate::le_bytes_value;
use crate::bignum::{BigNum, bytes_eq, lemma_le_value_zero_pad};
use crate::hash_to_prime::{lemma_byte_len_canon, lemma_byte_len_mono, byte_len};
use crate::TcError;
use ark_serialize::{CanonicalSerialize, CanonicalDeserialize};
use ark_ec::{CurveGroup, PrimeGroup};
use ark_ff::PrimeField;

verus! {

/// Whether 32 bytes are the canonical compressed form of a valid BN254 G1
/// point: named after the success of `deserialize_compressed`.
pub uninterp spec fn ec_ok(p: Seq<u8>) -> bool;

/// The compressed form of the product of the point `p` with the scalar read
/// from `s` in little-endian order (reduced into the field).
pub uninterp spec fn ec_mul_of(p: Seq<u8>, s: Seq<u8>) -> Seq<u8>;

/// The compressed form of the sum of the points `p` and `q`.
pub uninterp spec fn ec_add_of(p: Seq<u8>, q: Seq<u8>) -> Seq<u8>;

/// Relies on `ark_ec::PrimeGroup::generator` and
/// `ark_serialize::CanonicalSerialize::serialize_compressed` for
/// `ark_bn254::G1Projective`: the fixed generator, in canonical 32-byte
/// compressed form, which deserializes back.
#[verifier::external_body]
pub(crate) fn ec_generator() -> (r: Vec<u8>)
    ensures
        ec_ok(r@),
        r@.len() == 32,
{
    let g = ark_bn254::G1Projective::generator();
    let mut buf: Vec<u8> = Vec::new();
    g.into_affine().serialize_compressed(&mut buf).unwrap();
    buf
}

/// Relies on `ark_serialize::CanonicalDeserialize::deserialize_compressed`,
/// `ark_ff::PrimeField::from_le_bytes_mod_order` and the scalar
/// multiplication of `ark_bn254::G1Projective`: the result is a function of
/// the operand bytes alone, and serializes back to a canonical 32-byte
/// compressed point.
#[verifier::external_body]
pub(crate) fn ec_mul(p: &Vec<u8>, s: &Vec<u8>) -> (r: Vec<u8>)
    requires
        ec_ok(p@),
    ensures
        r@ == ec_mul_of(p@, s@),
        ec_ok(r@),
        r@.len() == 32,
{
    let point = ark_bn254::G1Affine::deserialize_compressed(p.as_slice()).unwrap();
    let scalar = ark_bn254::Fr::from_le_bytes_mod_order(s.as_slice());
    let out = ark_bn254::G1Projective::from(point) * scalar;
    let mut buf: Vec<u8> = Vec::new();
    out.into_affine().serialize_compressed(&mut buf).unwrap();
    buf
}

/// Relies on `ark_serialize::CanonicalDeserialize::deserialize_compressed`
/// and the addition of `ark_bn254::G1Projective`: the result is a function
/// of the operand bytes alone, and serializes back to a canonical 32-byte
/// compressed point.
#[verifier::external_body]
pub(crate) fn ec_add(p: &Vec<u8>, q: &Vec<u8>) -> (r: Vec<u8>)
    requires
        ec_ok(p@),
        ec_ok(q@),
    ensures
        r@ == ec_add_of(p@, q@),
        ec_ok(r@),
        r@.len() == 32,
{
    let a = ark_bn254::G1Affine::deserialize_compressed(p.as_slice()).unwrap();
    let b = ark_bn254::G1Affine::deserialize_compressed(q.as_slice()).unwrap();
    let out = ark_bn254::G1Projective::from(a) + ark_bn254::G1Projective::from(b);
    let mut buf: Vec<u8> = Vec::new();
    out.into_affine().serialize_compressed(&mut buf).unwrap();
    buf
}

/// The little-endian bytes of the BN254 scalar field order,
/// 21888242871839275222246405745257275088548364400416034343698204186575808495617.
pub open spec fn fr_mod_bytes() -> Seq<u8> {
    seq![
        1u8, 0, 0, 240, 147, 245, 225, 67, 145, 112, 185, 121, 72, 232, 51, 40,
        93, 88, 129, 129, 182, 69, 80, 184, 41, 160, 49, 225, 114, 78, 100, 48,
    ]
}

/// The BN254 scalar field order.
pub open spec fn fr_modulus() -> int {
    le_bytes_value(fr_mod_bytes())
}

/// The scalar field order as a number.
pub fn fr_modulus_num() -> (r: BigNum)
    ensures
        r.wf(),
        r@ == fr_modulus(),
        r@ >= 3,
        r.bytes@.len() == 32,
{
    let mut v: Vec<u8> = Vec::new();
    v.push(1);
    v.push(0);
    v.push(0);
    v.push(240);
    v.push(147);
    v.push(245);
    v.push(225);
    v.push(67);
    v.push(145);
    v.push(112);
    v.push(185);
    v.push(121);
    v.push(72);
    v.push(232);
    v.push(51);
    v.push(40);
    v.push(93);
    v.push(88);
    v.push(129);
    v.push(129);
    v.push(182);
    v.push(69);
    v.push(80);
    v.push(184);
    v.push(41);
    v.push(160);
    v.push(49);
    v.push(225);
    v.push(114);
    v.push(78);
    v.push(100);
    v.push(48);
    proof {
        assert(v@ =~= fr_mod_bytes());
        crate::bignum::lemma_le_value_lower(fr_mod_bytes());
        vstd::arithmetic::power::lemma_pow_positive(256, 31);
        assert(48 * pow(256, 31) >= 3) by (nonlinear_arith)
            requires pow(256, 31) >= 1;
    }
    BigNum { bytes: v }
}

/// The Pedersen base points, in compressed form.
pub struct PedersenParams {
    pub g: Vec<u8>,
    pub h: Vec<u8>,
}

impl PedersenParams {
    pub open spec fn wf(&self) -> bool {
        &&& ec_ok(self.g@)
        &&& ec_ok(self.h@)
    }
}

/// The shape of freshly drawn parameters: both base points are scalar
/// multiples of one valid base point by two independently drawn 32-byte
/// scalars.
pub open spec fn ped_params_shape(r: PedersenParams) -> bool {
    exists|gb: Seq<u8>, s1: Seq<u8>, s2: Seq<u8>|
        ec_ok(gb) && gb.len() == 32 && s1.len() == 32 && s2.len() == 32 && r.g@
            == #[trigger] ec_mul_of(gb, s1) && r.h@ == #[trigger] ec_mul_of(gb, s2)
}

/// Fresh Pedersen parameters: two multiples of the curve generator by two
/// independently drawn 32-byte scalars.  The scalars are random, so the
/// contract states what holds of every draw: the shape above, and validity.
pub fn gen_pedersen_params(rng: &mut rand::rngs::ThreadRng) -> (r: PedersenParams)
    ensures
        r.wf(),
        ped_params_shape(r),
{
    let base = ec_generator();
    let s1 = crate::rng::fill_random_bytes(rng, 32);
    let s2 = crate::rng::fill_random_bytes(rng, 32);
    let g = ec_mul(&base, &s1);
    let h = ec_mul(&base, &s2);
    let r = PedersenParams { g, h };
    proof {
        assert(ec_ok(base@) && base@.len() == 32 && s1@.len() == 32 && s2@.len() == 32 && r.g@
            == ec_mul_of(base@, s1@) && r.h@ == ec_mul_of(base@, s2@));
    }
    r
}

/// A message of at most 32 bytes, zero-extended to a full scalar encoding.
pub open spec fn msg_scalar_bytes(m: Seq<u8>) -> Seq<u8> {
    m + Seq::new((32 - m.len()) as nat, |i: int| 0u8)
}

/// A message fits the scalar field.
pub open spec fn msg_ok(m: Seq<u8>) -> bool {
    &&& m.len() <= 32
    &&& le_bytes_value(m) < fr_modulus()
}

/// The commitment point for message scalar bytes `s` and randomness bytes
/// `r`.
pub open spec fn ped_point(g: Seq<u8>, h: Seq<u8>, s: Seq<u8>, r: Seq<u8>) -> Seq<u8> {
    ec_add_of(ec_mul_of(g, s), ec_mul_of(h, r))
}

/// What the opening verifier accepts: both scalars in range, and the
/// recomputed point equal to the commitment.
pub open spec fn ped_ver_spec(g: Seq<u8>, h: Seq<u8>, comm: Seq<u8>, m: Seq<u8>, r: Seq<u8>)
    -> bool {
    &&& msg_ok(m)
    &&& r.len() == 32
    &&& le_bytes_value(r) < fr_modulus()
    &&& ped_point(g, h, msg_scalar_bytes(m), r) == comm
}

/// Zero-extends to 32 bytes.
fn pad_scalar(b: &Vec<u8>) -> (r: Vec<u8>)
    requires
        b@.len() <= 32,
    ensures
        r@ == b@ + Seq::new((32 - b@.len()) as nat, |i: int| 0u8),
        r@.len() == 32,
{
    let mut out: Vec<u8> = Vec::new();
    crate::hashing::push_bytes(&mut out, b);
    let n = b.len();
    let mut i: usize = n;
    while i < 32
        invariant
            n <= i <= 32,
            out@.len() == i,
            out@.subrange(0, n as int) == b@,
            forall|j: int| n <= j < i ==> out@[j] == 0u8,
        decreases 32 - i,
    {
        proof {
            assert(out@.push(0u8).subrange(0, n as int) =~= out@.subrange(0, n as int));
        }
        out.push(0);
        i += 1;
    }
    proof {
        assert(out@ =~= b@ + Seq::new((32 - b@.len()) as nat, |i: int| 0u8));
    }
    out
}

/// Commits to `m`: returns the commitment point and the randomness bytes.
/// Fails with `ArgumentOutOfRange` exactly when the message does not fit the
/// scalar field.
pub fn ped_commit(
    rng: &mut rand::rngs::ThreadRng,
    pp: &PedersenParams,
    m: &Vec<u8>,
) -> (res: Result<(Vec<u8>, Vec<u8>), TcError>)
    requires
        pp.wf(),
    ensures
        match res {
            Ok((comm, r)) => {
                &&& msg_ok(m@)
                &&& comm@ == ped_point(pp.g@, pp.h@, msg_scalar_bytes(m@), r@)
                &&& ped_ver_spec(pp.g@, pp.h@, comm@, m@, r@)
                &&& r@.len() == 32
                &&& le_bytes_value(r@) < fr_modulus()
            },
            Err(e) => !msg_ok(m@) && e == TcError::ArgumentOutOfRange,
        },
{
    if m.len() > 32 {
        return Err(TcError::ArgumentOutOfRange);
    }
    let frn = fr_modulus_num();
    let s_val = BigNum::from_bytes_le(m);
    if !s_val.lt(&frn) {
        return Err(TcError::ArgumentOutOfRange);
    }
    let r_num = crate::rng::sample_in_range(rng, &frn);
    proof {
        lemma_byte_len_canon(r_num.bytes@);
        lemma_byte_len_canon(frn.bytes@);
        lemma_byte_len_mono(r_num@, frn@);
        lemma_le_value_zero_pad(r_num.bytes@, (32 - r_num.bytes@.len()) as nat);
    }
    let r_bytes = pad_scalar(&r_num.bytes);
    let s_bytes = pad_scalar(m);
    let comm = ec_add(&ec_mul(&pp.g, &s_bytes), &ec_mul(&pp.h, &r_bytes));
    Ok((comm, r_bytes))
}

/// Verifies an opening: recomputes the point and compares, accepting exactly
/// when both scalars are in range and the point matches.
pub fn ped_ver_open(pp: &PedersenParams, comm: &Vec<u8>, m: &Vec<u8>, r: &Vec<u8>) -> (res: bool)
    requires
        pp.wf(),
    ensures
        res == ped_ver_spec(pp.g@, pp.h@, comm@, m@, r@),
{
    if m.len() > 32 {
        return false;
    }
    let frn = fr_modulus_num();
    let s_val = BigNum::from_bytes_le(m);
    if !s_val.lt(&frn) {
        return false;
    }
    if r.len() != 32 {
        return false;
    }
    let r_val = BigNum::from_bytes_le(r);
    if !r_val.lt(&frn) {
        return false;
    }
    let s_bytes = pad_scalar(m);
    let recomputed = ec_add(&ec_mul(&pp.g, &s_bytes), &ec_mul(&pp.h, r));
    bytes_eq(&recomputed, comm)
}

} // verus!
