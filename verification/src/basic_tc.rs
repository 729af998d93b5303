//! The basic time-lock commitment: a committer raises the public puzzle base
//! to a fresh exponent, derives a symmetric key from the matching power of
//! the puzzle target, and encrypts the message under it with the associated
//! data bound in.  The committer can self-open by revealing the exponent;
//! anyone else can force the commitment open by redoing the `t` sequential
//! squarings, and a proof of exponentiation certifies the solved puzzle.

use vstd::prelude::*;
use vstd::arithmetic::power2::pow2;
use vstd::arithmetic::power::pow;
use crate::bignum::{BigNum, canon_bytes, lemma_canon_bytes_roundtrip, bytes_eq};
use crate::hog::{RsaGroupParams, hog_pow_val};
use crate::rsa_hidden_order_group::{RsaHiddenOrderGroup, lemma_signed_pow_one,
    lemma_signed_pow_op, lemma_signed_pow_pow};
use crate::hashing::digest32;
use crate::aead::{aead_enc, aead_dec, aead_encrypt, aead_decrypt, lemma_aead_round_trip};
use crate::poe::{PoEProof, poe_prove, poe_verify, poe_proof_valid, poe_search_succeeds,
    poe_cert_deterministic};
use crate::hash_to_prime::{lemma_byte_len_canon, lemma_byte_len_mono};
use crate::encode::pad32_spec;
use crate::TcError;

verus! {

/// Public puzzle parameters: `y` is meant to be `x^(2^t)`.
pub struct TimeParams {
    pub t: u64,
    pub x: RsaHiddenOrderGroup,
    pub y: RsaHiddenOrderGroup,
}

impl TimeParams {
    pub open spec fn wf(&self, m: int) -> bool {
        &&& self.x.wf(m)
        &&& self.y.wf(m)
    }
}

/// The target really is the base raised to `2^t` squarings.
pub open spec fn time_params_honest(pp: RsaGroupParams, tpp: TimeParams) -> bool {
    tpp.y.n@ == hog_pow_val(tpp.x.n@, pow2(tpp.t as nat), pp.m@)
}

/// A commitment: the committer's puzzle instance and the authenticated
/// ciphertext.
pub struct Comm {
    pub x: RsaHiddenOrderGroup,
    pub ct: Vec<u8>,
}

/// An opening: either the committer's exponent, or the solved puzzle with
/// its proof of exponentiation.
pub enum Opening {
    SelfOpen(BigNum),
    Force(RsaHiddenOrderGroup, PoEProof),
}

/// The symmetric key a group element yields: the digest of its serialized
/// form (big-endian, padded to a multiple of 32 bytes).
pub open spec fn tc_key(w: int) -> Seq<u8> {
    digest32(pad32_spec(canon_bytes(w).reverse()))
}

/// The view of an optional byte buffer.
pub open spec fn opt_bytes_view(o: Option<Vec<u8>>) -> Option<Seq<u8>> {
    match o {
        Some(v) => Some(v@),
        None => None,
    }
}

/// What an honest commitment to `msg` under exponent `alpha` looks like.
pub open spec fn tc_comm_honest(
    tpp: TimeParams,
    m: int,
    msg: Seq<u8>,
    ad: Seq<u8>,
    comm: Comm,
    alpha: int,
) -> bool {
    &&& 1 <= alpha < m
    &&& comm.x.wf(m)
    &&& comm.x.n@ == hog_pow_val(tpp.x.n@, alpha as nat, m)
    &&& comm.ct@ == aead_enc(tc_key(hog_pow_val(tpp.y.n@, alpha as nat, m)), ad, msg)
}

/// What the opening verifier accepts.
pub open spec fn tc_ver_spec(
    pp: RsaGroupParams,
    tpp: TimeParams,
    comm: Comm,
    ad: Seq<u8>,
    mo: Option<Seq<u8>>,
    op: Opening,
) -> bool {
    match op {
        Opening::SelfOpen(alpha) => {
            &&& alpha.wf()
            &&& 1 <= alpha@ < pp.m@
            &&& hog_pow_val(tpp.x.n@, alpha@ as nat, pp.m@) == comm.x.n@
            &&& aead_dec(tc_key(hog_pow_val(tpp.y.n@, alpha@ as nat, pp.m@)), ad, comm.ct@) == mo
        },
        Opening::Force(y, pr) => {
            &&& y.wf(pp.m@)
            &&& poe_proof_valid(pp, comm.x.n@, y.n@, tpp.t, pr)
            &&& aead_dec(tc_key(y.n@), ad, comm.ct@) == mo
        },
    }
}

/// Compares two optional byte buffers by value.
pub fn opt_bytes_eq(a: &Option<Vec<u8>>, b: &Option<Vec<u8>>) -> (r: bool)
    ensures
        r <==> opt_bytes_view(*a) == opt_bytes_view(*b),
{
    match (a, b) {
        (Some(x), Some(y)) => bytes_eq(x, y),
        (None, None) => true,
        _ => false,
    }
}

/// An exact copy of a group element.
pub fn dup_elem(x: &RsaHiddenOrderGroup) -> (r: RsaHiddenOrderGroup)
    ensures
        r.n.bytes@ == x.n.bytes@,
        r.n@ == x.n@,
{
    RsaHiddenOrderGroup { n: x.n.dup() }
}

/// `x^(2^t)` by `t` sequential squarings.
pub fn square_chain(pp: &RsaGroupParams, x: &RsaHiddenOrderGroup, t: u64) -> (r:
    RsaHiddenOrderGroup)
    requires
        pp.wf(),
        x.wf(pp.m@),
    ensures
        r.wf(pp.m@),
        r.n@ == hog_pow_val(x.n@, pow2(t as nat), pp.m@),
{
    let mut cur = dup_elem(x);
    proof {
        vstd::arithmetic::power2::lemma_pow2(0);
        vstd::arithmetic::power::lemma_pow0(2);
        lemma_signed_pow_one(x.n@, pp.m@);
        assert(cur.n@ == hog_pow_val(x.n@, pow2(0), pp.m@));
    }
    let mut i: u64 = 0;
    while i < t
        invariant
            0 <= i <= t,
            pp.wf(),
            x.wf(pp.m@),
            cur.wf(pp.m@),
            cur.n@ == hog_pow_val(x.n@, pow2(i as nat), pp.m@),
        decreases t - i,
    {
        proof {
            lemma_signed_pow_op(x.n@, pow2(i as nat), pow2(i as nat), pp.m@);
            vstd::arithmetic::power2::lemma_pow2(i as nat);
            vstd::arithmetic::power2::lemma_pow2((i + 1) as nat);
            crate::bignum::lemma_pow_succ(2, i as nat);
            assert(pow2(i as nat) + pow2(i as nat) == pow2((i + 1) as nat));
        }
        cur = cur.op(pp, &cur);
        i += 1;
    }
    cur
}

/// The symmetric key of a group element.
pub fn derive_key(pp: &RsaGroupParams, w: &RsaHiddenOrderGroup) -> (r: Vec<u8>)
    requires
        pp.wf(),
        w.wf(pp.m@),
    ensures
        r@ == tc_key(w.n@),
        r@.len() == 32,
{
    proof {
        lemma_byte_len_canon(w.n.bytes@);
        lemma_byte_len_canon(pp.m.bytes@);
        lemma_byte_len_mono(w.n@, pp.m@);
        lemma_canon_bytes_roundtrip(w.n.bytes@);
    }
    let be = w.n.to_bytes_be();
    let padded = crate::encode::pad_to_32_byte_offset(be);
    crate::hashing::sha3_256(&padded)
}

/// Produces time parameters for hardness `t`: the generator, its `2^t`-th
/// power by `t` squarings, and a proof of exponentiation over the pair.
/// Fails exactly when the proof's prime search is exhausted.
pub fn tc_gen_time_params(pp: &RsaGroupParams, t: u64) -> (r: Result<
    (TimeParams, PoEProof),
    TcError,
>)
    requires
        pp.wf(),
    ensures
        match r {
            Ok((tpp, pr)) => {
                &&& tpp.t == t
                &&& tpp.wf(pp.m@)
                &&& tpp.x.n@ == pp.g@
                &&& time_params_honest(*pp, tpp)
                &&& poe_proof_valid(*pp, tpp.x.n@, tpp.y.n@, t, pr)
                &&& poe_cert_deterministic(*pp, tpp.x.n@, tpp.y.n@, t, pr)
            },
            Err(e) => {
                &&& e == TcError::HashToPrimeExhausted
                &&& !poe_search_succeeds(
                    pp.g@,
                    hog_pow_val(pp.g@, pow2(t as nat), pp.m@),
                    t,
                )
            },
        },
{
    let x = RsaHiddenOrderGroup::generator(pp);
    let y = square_chain(pp, &x, t);
    match poe_prove(pp, &x, &y, t) {
        Ok(pr) => Ok((TimeParams { t, x, y }, pr)),
        Err(_) => Err(TcError::HashToPrimeExhausted),
    }
}

/// Produces time parameters in one modular exponentiation using a known
/// multiple of the group order, for test and benchmark setups where the
/// factorization of the modulus is known.  The target equals `x^(2^t)` only
/// when `order` really is such a multiple; the contract states only what is
/// computed, and no proof of exponentiation is produced here.  Never expose
/// this to production callers.
pub fn tc_gen_time_params_cheating(pp: &RsaGroupParams, t: u64, order: &BigNum) -> (r: TimeParams)
    requires
        pp.wf(),
        order.wf(),
        order@ > 0,
    ensures
        r.t == t,
        r.wf(pp.m@),
        r.x.n@ == pp.g@,
        r.y.n@ == hog_pow_val(r.x.n@, (pow(2, t as nat) % order@) as nat, pp.m@),
{
    let x = RsaHiddenOrderGroup::generator(pp);
    let two = BigNum::from_u64(2);
    let t_bn = BigNum::from_u64(t);
    let e = two.modpow(&t_bn, order);
    proof {
        vstd::arithmetic::div_mod::lemma_mod_bound(pow(2, t as nat), order@);
    }
    let y = x.power(pp, &e);
    TimeParams { t, x, y }
}

/// Checks the proof of exponentiation over published time parameters.
pub fn tc_ver_time_params(pp: &RsaGroupParams, tpp: &TimeParams, pr: &PoEProof) -> (r: bool)
    requires
        pp.wf(),
        tpp.wf(pp.m@),
    ensures
        r == poe_proof_valid(*pp, tpp.x.n@, tpp.y.n@, tpp.t, *pr),
{
    poe_verify(pp, &tpp.x, &tpp.y, tpp.t, pr)
}

/// Commits to `msg` under associated data `ad`: the contract promises that
/// the commitment is honest for the returned exponent and that the
/// self-opening verifies against the message committed to.
pub fn tc_commit(
    rng: &mut rand::rngs::ThreadRng,
    pp: &RsaGroupParams,
    tpp: &TimeParams,
    msg: &Vec<u8>,
    ad: &Vec<u8>,
) -> (r: (Comm, Opening))
    requires
        pp.wf(),
        tpp.wf(pp.m@),
        msg@.len() + ad@.len() + 128 < usize::MAX,
    ensures
        ({
            let (comm, op) = r;
            &&& comm.x.wf(pp.m@)
            &&& op matches Opening::SelfOpen(alpha) && tc_comm_honest(
                *tpp,
                pp.m@,
                msg@,
                ad@,
                comm,
                alpha@,
            )
            &&& tc_ver_spec(*pp, *tpp, comm, ad@, Some(msg@), op)
        }),
{
    let alpha = crate::rng::sample_in_range(rng, &pp.m);
    let u = tpp.x.power(pp, &alpha);
    let w = tpp.y.power(pp, &alpha);
    let k = derive_key(pp, &w);
    let ct = aead_encrypt(&k, ad, msg);
    proof {
        lemma_aead_round_trip(k@, ad@, msg@);
    }
    (Comm { x: u, ct }, Opening::SelfOpen(alpha))
}

/// Opens a commitment by redoing the `t` squarings: decrypts under the key
/// of the solved puzzle and returns a proof of the solution.  The message is
/// `None` exactly when the ciphertext does not authenticate under that key,
/// and the returned opening always verifies against the returned message.
pub fn tc_force_open(
    pp: &RsaGroupParams,
    tpp: &TimeParams,
    comm: &Comm,
    ad: &Vec<u8>,
) -> (r: Result<(Option<Vec<u8>>, Opening), TcError>)
    requires
        pp.wf(),
        tpp.wf(pp.m@),
        comm.x.wf(pp.m@),
        ad@.len() + comm.ct@.len() + 128 < usize::MAX,
    ensures
        match r {
            Ok((mo, op)) => {
                let wv = hog_pow_val(comm.x.n@, pow2(tpp.t as nat), pp.m@);
                &&& opt_bytes_view(mo) == aead_dec(tc_key(wv), ad@, comm.ct@)
                &&& op matches Opening::Force(y, pr) && y.n@ == wv && y.wf(pp.m@)
                    && poe_proof_valid(*pp, comm.x.n@, wv, tpp.t, pr)
                    && poe_cert_deterministic(*pp, comm.x.n@, wv, tpp.t, pr)
                &&& tc_ver_spec(*pp, *tpp, *comm, ad@, opt_bytes_view(mo), op)
            },
            Err(e) => {
                &&& e == TcError::HashToPrimeExhausted
                &&& !poe_search_succeeds(
                    comm.x.n@,
                    hog_pow_val(comm.x.n@, pow2(tpp.t as nat), pp.m@),
                    tpp.t,
                )
            },
        },
{
    let w = square_chain(pp, &comm.x, tpp.t);
    let pr = match poe_prove(pp, &comm.x, &w, tpp.t) {
        Ok(pr) => pr,
        Err(_) => {
            return Err(TcError::HashToPrimeExhausted);
        },
    };
    let k = derive_key(pp, &w);
    let mo = aead_decrypt(&k, ad, &comm.ct);
    Ok((mo, Opening::Force(w, pr)))
}

/// Verifies an opening: a self-opening must reproduce the puzzle instance
/// and the ciphertext must authenticate to the claimed message; a forced
/// opening must carry a valid proof of the solved puzzle instead.
pub fn tc_ver_open(
    pp: &RsaGroupParams,
    tpp: &TimeParams,
    comm: &Comm,
    ad: &Vec<u8>,
    mo: &Option<Vec<u8>>,
    op: &Opening,
) -> (r: bool)
    requires
        pp.wf(),
        tpp.wf(pp.m@),
        comm.x.wf(pp.m@),
        ad@.len() + comm.ct@.len() + 128 < usize::MAX,
    ensures
        r == tc_ver_spec(*pp, *tpp, *comm, ad@, opt_bytes_view(*mo), *op),
{
    match op {
        Opening::SelfOpen(alpha) => {
            if !crate::hash_to_prime::bn_canon(alpha) {
                return false;
            }
            let one = BigNum::from_u64(1);
            proof {
                alpha.lemma_nonneg();
            }
            if alpha.lt(&one) || !alpha.lt(&pp.m) {
                return false;
            }
            let u2 = tpp.x.power(pp, alpha);
            if !u2.n.eq_value(&comm.x.n) {
                return false;
            }
            let w = tpp.y.power(pp, alpha);
            let k = derive_key(pp, &w);
            let dec = aead_decrypt(&k, ad, &comm.ct);
            opt_bytes_eq(&dec, mo)
        },
        Opening::Force(y, pr) => {
            if !crate::hash_to_prime::bn_canon(&y.n) {
                return false;
            }
            proof {
                y.n.lemma_nonneg();
            }
            let yy = y.n.add(&y.n);
            if pp.m.lt(&yy) {
                return false;
            }
            if !poe_verify(pp, &comm.x, y, tpp.t, pr) {
                return false;
            }
            let k = derive_key(pp, y);
            let dec = aead_decrypt(&k, ad, &comm.ct);
            opt_bytes_eq(&dec, mo)
        },
    }
}

/// Force-open agreement: forcing open an honest commitment under honest time
/// parameters recovers exactly the committed message, because the solved
/// puzzle equals the power the committer derived the key from.
pub proof fn lemma_force_open_agreement(
    pp: RsaGroupParams,
    tpp: TimeParams,
    msg: Seq<u8>,
    ad: Seq<u8>,
    comm: Comm,
    alpha: int,
)
    requires
        pp.wf(),
        tpp.wf(pp.m@),
        time_params_honest(pp, tpp),
        tc_comm_honest(tpp, pp.m@, msg, ad, comm, alpha),
    ensures
        aead_dec(tc_key(hog_pow_val(comm.x.n@, pow2(tpp.t as nat), pp.m@)), ad, comm.ct@)
            == Some(msg),
{
    let m = pp.m@;
    let xv = tpp.x.n@;
    let a = alpha as nat;
    let e = pow2(tpp.t as nat);
    lemma_signed_pow_pow(xv, a, e, m);
    lemma_signed_pow_pow(xv, e, a, m);
    assert(a * e == e * a) by (nonlinear_arith);
    assert(hog_pow_val(comm.x.n@, e, m) == hog_pow_val(tpp.y.n@, a, m));
    lemma_aead_round_trip(tc_key(hog_pow_val(tpp.y.n@, a, m)), ad, msg);
}

} // verus!
