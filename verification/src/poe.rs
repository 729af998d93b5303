//! Proof of Exponentiation over the signed hidden-order group, after
//! Wesolowski: to show `y == x^(2^t)`, hash `(x, y, t)` to a prime `l`,
//! publish `q = x^(2^t / l)` with the prime's certificate, and let the
//! verifier check `q^l * x^r == y` for `r = 2^t mod l`.

use vstd::prelude::*;
use vstd::arithmetic::power::pow;
use vstd::arithmetic::power2::pow2;
use vstd::arithmetic::div_mod::{lemma_fundamental_div_mod, lemma_mod_bound};
use crate::bignum::BigNum;
use crate::hashing::u64_le_bytes;
use crate::hog::{RsaGroupParams, hog_op_val, hog_pow_val};
use crate::rsa_hidden_order_group::{RsaHiddenOrderGroup, lemma_signed_pow_pow,
    lemma_signed_pow_op};
use crate::hash_to_prime::{PocklingtonCert, HashToPrimeError, hash_to_prime, pock_chain_run,
    pock_cert_valid, chain_prime, search_succeeds, nonces_minimal, length_minimal,
    lemma_prime_deterministic};

verus! {

/// Bits of entropy the challenge prime carries.
pub const POE_HASH_TO_PRIME_ENTROPY: usize = 128;

#[derive(Clone, PartialEq, Eq, Debug)]
pub struct PoEProof {
    pub q: RsaHiddenOrderGroup,
    pub cert: PocklingtonCert,
}

/// The challenge input: the canonical bytes of `x` and `y` with the
/// exponent count appended.
pub open spec fn poe_input(xv: int, yv: int, t: u64) -> Seq<u8> {
    crate::bignum::canon_bytes(xv) + crate::bignum::canon_bytes(yv) + u64_le_bytes(t)
}

/// What the verifier accepts: a valid certificate for the challenge prime
/// `l`, a well-formed quotient element, and the group equation
/// `q^l * x^r == y` with `r = 2^t mod l`.
pub open spec fn poe_proof_valid(
    pp: RsaGroupParams,
    xv: int,
    yv: int,
    t: u64,
    pr: PoEProof,
) -> bool {
    let input = poe_input(xv, yv, t);
    let l = chain_prime(input, pr.cert.step_certificates@);
    let r = pow(2, t as nat) % l;
    &&& pock_cert_valid(input, pr.cert, l, POE_HASH_TO_PRIME_ENTROPY as nat)
    &&& pr.q.wf(pp.m@)
    &&& hog_op_val(
        hog_pow_val(pr.q.n@, l as nat, pp.m@),
        hog_pow_val(xv, r as nat, pp.m@),
        pp.m@,
    ) == yv
}

/// Builds the challenge bytes.
fn build_poe_input(x: &RsaHiddenOrderGroup, y: &RsaHiddenOrderGroup, t: u64) -> (r: Vec<u8>)
    requires
        x.n.wf(),
        y.n.wf(),
    ensures
        r@ == poe_input(x.n@, y.n@, t),
{
    proof {
        crate::bignum::lemma_canon_bytes_roundtrip(x.n.bytes@);
        crate::bignum::lemma_canon_bytes_roundtrip(y.n.bytes@);
    }
    let mut buf: Vec<u8> = Vec::new();
    crate::hashing::push_bytes(&mut buf, &x.n.bytes);
    crate::hashing::push_bytes(&mut buf, &y.n.bytes);
    crate::hashing::push_u64_le(&mut buf, t);
    proof {
        assert(buf@ =~= poe_input(x.n@, y.n@, t));
    }
    buf
}

/// Whether the prime search over the challenge input goes through; proving
/// fails exactly when it does not.
pub open spec fn poe_search_succeeds(xv: int, yv: int, t: u64) -> bool {
    search_succeeds(poe_input(xv, yv, t), POE_HASH_TO_PRIME_ENTROPY as nat)
}

/// The proof is the deterministic one for its challenge: every certificate
/// step uses the first passing nonce, the chain stops at the first prime of
/// sufficient size, and the quotient element is the challenge base raised to
/// `2^t` divided by that prime.
pub open spec fn poe_cert_deterministic(
    pp: RsaGroupParams,
    xv: int,
    yv: int,
    t: u64,
    pr: PoEProof,
) -> bool {
    let input = poe_input(xv, yv, t);
    let l = chain_prime(input, pr.cert.step_certificates@);
    &&& nonces_minimal(input, pr.cert.step_certificates@)
    &&& length_minimal(input, pr.cert.step_certificates@, POE_HASH_TO_PRIME_ENTROPY as nat)
    &&& pr.q.n@ == hog_pow_val(xv, (pow(2, t as nat) / l) as nat, pp.m@)
}

/// The challenge prime is a function of the challenge alone: two valid,
/// deterministic proofs for the same `(x, y, t)` name the same prime.
pub proof fn lemma_poe_prime_deterministic(
    pp: RsaGroupParams,
    xv: int,
    yv: int,
    t: u64,
    pr1: PoEProof,
    pr2: PoEProof,
)
    requires
        poe_proof_valid(pp, xv, yv, t, pr1),
        poe_proof_valid(pp, xv, yv, t, pr2),
        poe_cert_deterministic(pp, xv, yv, t, pr1),
        poe_cert_deterministic(pp, xv, yv, t, pr2),
    ensures
        chain_prime(poe_input(xv, yv, t), pr1.cert.step_certificates@) == chain_prime(
            poe_input(xv, yv, t),
            pr2.cert.step_certificates@,
        ),
        pr1.q.n@ == pr2.q.n@,
{
    lemma_prime_deterministic(
        poe_input(xv, yv, t),
        pr1.cert.step_certificates@,
        pr2.cert.step_certificates@,
        POE_HASH_TO_PRIME_ENTROPY as nat,
    );
}

/// Produces a proof that `y == x^(2^t)`; the contract promises that the
/// verifier's acceptance predicate holds of it, so an honest proof always
/// verifies.  Fails exactly when the prime search over the challenge input
/// is exhausted.
pub fn poe_prove(
    pp: &RsaGroupParams,
    x: &RsaHiddenOrderGroup,
    y: &RsaHiddenOrderGroup,
    t: u64,
) -> (r: Result<PoEProof, HashToPrimeError>)
    requires
        pp.wf(),
        x.wf(pp.m@),
        y.wf(pp.m@),
        y.n@ == hog_pow_val(x.n@, pow2(t as nat), pp.m@),
    ensures
        match r {
            Ok(pr) => {
                &&& poe_proof_valid(*pp, x.n@, y.n@, t, pr)
                &&& poe_cert_deterministic(*pp, x.n@, y.n@, t, pr)
                &&& poe_search_succeeds(x.n@, y.n@, t)
            },
            Err(e) => e == HashToPrimeError::Exhausted && !poe_search_succeeds(x.n@, y.n@, t),
        },
{
    let input = build_poe_input(x, y, t);
    let (l, cert) = match hash_to_prime(&input, POE_HASH_TO_PRIME_ENTROPY) {
        Ok(ok) => ok,
        Err(e) => {
            return Err(e);
        },
    };
    let two = BigNum::from_u64(2);
    let big = two.pow_u64(t);
    let d = big.div(&l);
    let q = x.power(pp, &d);
    proof {
        let m = pp.m@;
        let lv = l@ as nat;
        let dv = d@ as nat;
        let rv = (pow(2, t as nat) % l@) as nat;
        vstd::arithmetic::power2::lemma_pow2(t as nat);
        vstd::arithmetic::power::lemma_pow_positive(2, t as nat);
        lemma_fundamental_div_mod(pow(2, t as nat), l@);
        lemma_mod_bound(pow(2, t as nat), l@);
        vstd::arithmetic::div_mod::lemma_div_pos_is_pos(pow(2, t as nat), l@);
        // q^l == x^(d*l), and x^(d*l) * x^r == x^(d*l + r) == x^(2^t) == y.
        lemma_signed_pow_pow(x.n@, dv, lv, m);
        lemma_signed_pow_op(x.n@, (dv * lv) as nat, rv, m);
        assert(l@ * (pow(2, t as nat) / l@) == (pow(2, t as nat) / l@) * l@) by (nonlinear_arith);
        assert(dv * lv + rv == pow2(t as nat));
        assert(hog_pow_val(q.n@, lv, m) == hog_pow_val(x.n@, dv * lv, m));
        assert(hog_op_val(
            hog_pow_val(q.n@, lv, m),
            hog_pow_val(x.n@, rv, m),
            m,
        ) == y.n@);
    }
    Ok(PoEProof { q, cert })
}

/// Checks a proof that `y == x^(2^t)`: verifies the certificate for the
/// challenge prime and the group equation, and accepts exactly when both
/// hold.
pub fn poe_verify(
    pp: &RsaGroupParams,
    x: &RsaHiddenOrderGroup,
    y: &RsaHiddenOrderGroup,
    t: u64,
    pr: &PoEProof,
) -> (r: bool)
    requires
        pp.wf(),
        x.wf(pp.m@),
        y.wf(pp.m@),
    ensures
        r == poe_proof_valid(*pp, x.n@, y.n@, t, *pr),
{
    let input = build_poe_input(x, y, t);
    let l = match pock_chain_run(&input, &pr.cert) {
        Some(l) => l,
        None => {
            return false;
        },
    };
    let two = BigNum::from_u64(2);
    let threshold = two.pow_u64(POE_HASH_TO_PRIME_ENTROPY as u64);
    let ld = l.add(&l);
    if ld.lt(&threshold) {
        return false;
    }
    // Well-formedness of the quotient element: canonical and folded.
    if !crate::hash_to_prime::bn_canon(&pr.q.n) {
        return false;
    }
    proof {
        pr.q.n.lemma_nonneg();
    }
    let qq = pr.q.n.add(&pr.q.n);
    if pp.m.lt(&qq) {
        return false;
    }
    let r_bn = two_pow_mod(t, &l);
    let lhs = pr.q.power(pp, &l).op(pp, &x.power(pp, &r_bn));
    lhs.n.eq_value(&y.n)
}

/// `2^t mod l` without materializing `2^t`.
fn two_pow_mod(t: u64, l: &BigNum) -> (r: BigNum)
    requires
        l.wf(),
        l@ > 0,
    ensures
        r.wf(),
        r@ == pow(2, t as nat) % l@,
        0 <= r@ < l@,
{
    let two = BigNum::from_u64(2);
    let t_bn = BigNum::from_u64(t);
    let r = two.modpow(&t_bn, l);
    proof {
        lemma_mod_bound(pow(2, t as nat), l@);
    }
    r
}

} // verus!
