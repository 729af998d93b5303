//! Deterministic hash-to-prime with Pocklington certificates.
//!
//! A prime is grown from a small fixed base prime: at step `i` an extension
//! `e` is derived from `hash(input || i || nonce)` and reduced below the
//! prior prime `q`, and the candidate is `p = 2 * e * q + 1`.  The step is
//! accepted when a Pocklington witness `a` satisfies `a^(p-1) == 1 (mod p)`
//! and `a^((p-1)/q) - 1` and `a^((p-1)/2) - 1` are both invertible modulo
//! `p`; since the certified divisor `f = 2 * q` of `p - 1` exceeds the
//! square root of `p` (witnessed by `v = f^2 > p`), Pocklington's theorem
//! then makes `p` prime.  Each step records the witnesses, the precomputed
//! quotients of `p - 1`, and the modular inverses with their quotients, so
//! the conditions can be confirmed without divisions or searches.
//!
//! The verifier recomputes each step from the input and the recorded nonces
//! and accepts exactly the certificates for which every condition holds;
//! that acceptance predicate, `pock_cert_valid`, is the contract of both the
//! prover and the verifier.

use vstd::prelude::*;
use vstd::arithmetic::power::pow;
use vstd::arithmetic::div_mod::{lemma_small_mod, lemma_mod_bound,
    lemma_fundamental_div_mod_converse};
use crate::le_bytes_value;
use crate::bignum::{BigNum, is_canon_le, lemma_le_value_nonneg, lemma_le_value_lower, gcd_nat};
use crate::hashing::{htv_spec, u64_le_bytes, hash_to_variable_output_length};

verus! {

/// The fixed prime the chain starts from.
pub const POCKLINGTON_BASE_PRIME: u64 = 65537;

/// The prover gives up after this many steps.
pub const MAX_STEPS: usize = 64;

/// Nonces are searched in `[0, NONCE_LIMIT)`.
pub const NONCE_LIMIT: u32 = 65536;

#[derive(Clone, PartialEq, Eq, Debug)]
pub enum HashToPrimeError {
    /// No certificate was found within `MAX_STEPS` x `NONCE_LIMIT` attempts.
    Exhausted,
}

/// One inductive step: all values a verifier needs to confirm that
/// `p = 2 * e * q + 1` is prime given the prior prime `q`.
#[derive(Clone, PartialEq, Eq, Debug)]
pub struct StepCert {
    /// The certified divisor of `p - 1`: twice the prior prime.
    pub f: BigNum,
    /// The nonce this step was found at.
    pub n: u32,
    /// The byte length of `p`.
    pub n2: u32,
    /// The Pocklington witness base.
    pub a: BigNum,
    /// Quotient of `(b_p_div_f1 - 1) * b_p_div_f2` by `p`.
    pub bu: BigNum,
    /// Quotient of `(b_p_div_two1 - 1) * b_p_div_two2` by `p`.
    pub bv: BigNum,
    /// `f * f`, which must exceed `p`: `f` is above the square root of `p`.
    pub v: BigNum,
    /// `f * f - p`, positive by construction.
    pub s: BigNum,
    /// The claimed bound above the square root of `p`, namely `f`.
    pub expr_sqrt: BigNum,
    /// The hash-derived extension `e = (p - 1) / f`.
    pub p_less_one_div_f: BigNum,
    /// `(p - 1) / 2 == e * q`.
    pub p_less_one_div_two: BigNum,
    /// `a^((p-1)/q) mod p`.
    pub b_p_div_f1: BigNum,
    /// The inverse of `b_p_div_f1 - 1` modulo `p`.
    pub b_p_div_f2: BigNum,
    /// `a^((p-1)/2) mod p`.
    pub b_p_div_two1: BigNum,
    /// The inverse of `b_p_div_two1 - 1` modulo `p`.
    pub b_p_div_two2: BigNum,
}

/// A chain of steps from the base prime to the output prime.  `nonce`
/// mirrors the nonce of the final step.
#[derive(Clone, PartialEq, Eq, Debug)]
pub struct PocklingtonCert {
    pub step_certificates: Vec<StepCert>,
    pub nonce: u32,
}

/// The number of base-256 digits of a non-negative value.
pub open spec fn byte_len(v: int) -> nat
    decreases v,
{
    if v < 256 {
        1
    } else {
        1 + byte_len(v / 256)
    }
}

/// A canonical representation has exactly `byte_len` bytes.
pub proof fn lemma_byte_len_canon(s: Seq<u8>)
    requires
        is_canon_le(s),
    ensures
        byte_len(le_bytes_value(s)) == s.len(),
    decreases s.len(),
{
    let v = le_bytes_value(s);
    let t = s.subrange(1, s.len() as int);
    lemma_le_value_nonneg(t);
    assert(v == s[0] + 256 * le_bytes_value(t));
    if s.len() == 1 {
        assert(le_bytes_value(t) == 0);
        assert(v < 256);
    } else {
        assert(is_canon_le(t));
        assert(t[t.len() - 1] != 0);
        lemma_le_value_lower(t);
        vstd::arithmetic::power::lemma_pow_positive(256, (t.len() - 1) as nat);
        assert(t[t.len() - 1] * pow(256, (t.len() - 1) as nat) >= 1 * pow(256, (t.len() - 1) as nat))
            by (nonlinear_arith)
            requires t[t.len() - 1] >= 1, pow(256, (t.len() - 1) as nat) > 0;
        assert(le_bytes_value(t) >= 1);
        assert(v >= 256);
        lemma_fundamental_div_mod_converse(v, 256, le_bytes_value(t), s[0] as int);
        assert(v / 256 == le_bytes_value(t));
        lemma_byte_len_canon(t);
    }
}

/// Byte length is monotone in the value.
pub proof fn lemma_byte_len_mono(a: int, b: int)
    requires
        0 <= a <= b,
    ensures
        byte_len(a) <= byte_len(b),
    decreases b,
{
    if b >= 256 {
        if a >= 256 {
            vstd::arithmetic::div_mod::lemma_div_is_ordered(a, b, 256);
            vstd::arithmetic::div_mod::lemma_div_pos_is_pos(a, 256);
            lemma_byte_len_mono(a / 256, b / 256);
        }
    }
}

/// The extension value at one step: the hash of `input || idx || nonce`,
/// stretched to the byte length of the prior prime and reduced below it.
pub open spec fn ext_val(input: Seq<u8>, idx: u64, nonce: u32, q: int) -> int {
    le_bytes_value(htv_spec(input + u64_le_bytes(idx) + u64_le_bytes(nonce as u64), byte_len(q)))
        % q
}

/// The candidate prime at one step.
pub open spec fn step_prime(input: Seq<u8>, idx: u64, nonce: u32, q: int) -> int {
    2 * ext_val(input, idx, nonce, q) * q + 1
}

/// All conditions a verifier confirms for one step, `q` being the prior
/// certified prime.  Opaque: only `check_step` looks inside.
#[verifier::opaque]
pub open spec fn pock_step_ok(input: Seq<u8>, idx: u64, q: int, st: StepCert) -> bool {
    let e = ext_val(input, idx, st.n, q);
    let p = 2 * e * q + 1;
    let d1 = (st.b_p_div_f1@ + p - 1) % p;
    let d2 = (st.b_p_div_two1@ + p - 1) % p;
    &&& byte_len(q) <= 0xffff
    &&& st.f.wf() && st.a.wf() && st.bu.wf() && st.bv.wf() && st.v.wf() && st.s.wf()
    &&& st.expr_sqrt.wf() && st.p_less_one_div_f.wf() && st.p_less_one_div_two.wf()
    &&& st.b_p_div_f1.wf() && st.b_p_div_f2.wf() && st.b_p_div_two1.wf() && st.b_p_div_two2.wf()
    &&& e >= 1
    &&& st.p_less_one_div_f@ == e
    &&& st.f@ == 2 * q
    &&& st.p_less_one_div_two@ == e * q
    &&& st.n2 as nat == byte_len(p)
    &&& 1 < st.a@ < p
    &&& pow(st.a@, (p - 1) as nat) % p == 1
    &&& st.b_p_div_f1@ == pow(st.a@, (2 * e) as nat) % p
    &&& st.b_p_div_two1@ == pow(st.a@, (e * q) as nat) % p
    &&& 0 <= st.b_p_div_f2@ < p
    &&& (d1 * st.b_p_div_f2@) % p == 1
    &&& st.bu@ == (d1 * st.b_p_div_f2@) / p
    &&& 0 <= st.b_p_div_two2@ < p
    &&& (d2 * st.b_p_div_two2@) % p == 1
    &&& st.bv@ == (d2 * st.b_p_div_two2@) / p
    &&& st.expr_sqrt@ == st.f@
    &&& st.v@ == st.f@ * st.f@
    &&& st.v@ > p
    &&& st.s@ == st.v@ - p
}

/// The prime reached after all steps, as recomputed from the input and the
/// recorded nonces.
pub open spec fn chain_prime(input: Seq<u8>, steps: Seq<StepCert>) -> int
    decreases steps.len(),
{
    if steps.len() == 0 {
        POCKLINGTON_BASE_PRIME as int
    } else {
        step_prime(
            input,
            (steps.len() - 1) as u64,
            steps.last().n,
            chain_prime(input, steps.drop_last()),
        )
    }
}

/// Every step of the chain checks out against its predecessor.
pub open spec fn chain_ok(input: Seq<u8>, steps: Seq<StepCert>) -> bool
    decreases steps.len(),
{
    if steps.len() == 0 {
        true
    } else {
        chain_ok(input, steps.drop_last()) && pock_step_ok(
            input,
            (steps.len() - 1) as u64,
            chain_prime(input, steps.drop_last()),
            steps.last(),
        )
    }
}

/// What the certificate verifier accepts: a non-empty valid chain whose
/// final prime is `p` and reaches the requested entropy.
pub open spec fn pock_cert_valid(
    input: Seq<u8>,
    cert: PocklingtonCert,
    p: int,
    entropy_bits: nat,
) -> bool {
    &&& cert.step_certificates@.len() >= 1
    &&& cert.nonce == cert.step_certificates@.last().n
    &&& chain_ok(input, cert.step_certificates@)
    &&& p == chain_prime(input, cert.step_certificates@)
    &&& 2 * p >= pow(2, entropy_bits)
}

/// A valid chain stays valid when cut short.
pub proof fn lemma_chain_ok_prefix(input: Seq<u8>, steps: Seq<StepCert>, k: int)
    requires
        chain_ok(input, steps),
        0 <= k <= steps.len(),
    ensures
        chain_ok(input, steps.subrange(0, k)),
    decreases steps.len() - k,
{
    if k == steps.len() {
        assert(steps.subrange(0, k) =~= steps);
    } else {
        assert(steps.subrange(0, steps.len() as int) =~= steps);
        let s1 = steps.subrange(0, steps.len() - 1);
        assert(s1 =~= steps.drop_last());
        lemma_chain_ok_prefix(input, s1, k);
        assert(s1.subrange(0, k) =~= steps.subrange(0, k));
    }
}

/// A failing step condemns the whole chain.
proof fn lemma_step_fail(input: Seq<u8>, steps: Seq<StepCert>, i: int)
    requires
        0 <= i < steps.len(),
        !pock_step_ok(
            input,
            i as u64,
            chain_prime(input, steps.subrange(0, i)),
            steps[i],
        ),
    ensures
        !chain_ok(input, steps),
{
    if chain_ok(input, steps) {
        lemma_chain_ok_prefix(input, steps, i + 1);
        assert(steps.subrange(0, i + 1).drop_last() =~= steps.subrange(0, i));
        assert(steps.subrange(0, i + 1).last() == steps[i]);
    }
}

/// Canonical-form check on a byte representation.
pub fn bn_canon(x: &BigNum) -> (r: bool)
    ensures
        r == x.wf(),
{
    let n = x.bytes.len();
    if n == 0 {
        return false;
    }
    if n == 1 {
        return true;
    }
    x.bytes[n - 1] != 0
}

/// Derives the extension for one step from the hash stream.
fn derive_extension(input: &Vec<u8>, idx: u64, nonce: u32, q: &BigNum) -> (r: BigNum)
    requires
        q.wf(),
        q@ >= 3,
        q.bytes@.len() <= 0xffff,
    ensures
        r.wf(),
        r@ == ext_val(input@, idx, nonce, q@),
        0 <= r@ < q@,
{
    let stream_len = q.bytes.len();
    proof {
        lemma_byte_len_canon(q.bytes@);
    }
    let mut buf: Vec<u8> = Vec::new();
    crate::hashing::push_bytes(&mut buf, input);
    crate::hashing::push_u64_le(&mut buf, idx);
    crate::hashing::push_u64_le(&mut buf, nonce as u64);
    proof {
        assert(buf@ =~= input@ + u64_le_bytes(idx) + u64_le_bytes(nonce as u64));
    }
    let stretched = hash_to_variable_output_length(&buf, stream_len);
    let x = BigNum::from_bytes_le(&stretched);
    let r = x.rem(q);
    proof {
        lemma_mod_bound(x@, q@);
    }
    r
}

/// Checks one step certificate against the prior prime: returns the step's
/// prime exactly when every Pocklington condition holds.
pub fn check_step(input: &Vec<u8>, idx: u64, q: &BigNum, st: &StepCert) -> (r: Option<BigNum>)
    requires
        q.wf(),
        q@ >= 3,
        q.bytes@.len() <= 0xffff,
    ensures
        match r {
            Some(p2) => {
                &&& pock_step_ok(input@, idx, q@, *st)
                &&& p2.wf()
                &&& p2@ == step_prime(input@, idx, st.n, q@)
                &&& p2@ > q@
                &&& p2@ >= 7
            },
            None => !pock_step_ok(input@, idx, q@, *st),
        },
{
    proof {
        reveal(pock_step_ok);
        lemma_byte_len_canon(q.bytes@);
    }
    if !(bn_canon(&st.f) && bn_canon(&st.a) && bn_canon(&st.bu) && bn_canon(&st.bv)
        && bn_canon(&st.v) && bn_canon(&st.s) && bn_canon(&st.expr_sqrt)
        && bn_canon(&st.p_less_one_div_f) && bn_canon(&st.p_less_one_div_two)
        && bn_canon(&st.b_p_div_f1) && bn_canon(&st.b_p_div_f2)
        && bn_canon(&st.b_p_div_two1) && bn_canon(&st.b_p_div_two2)) {
        return None;
    }
    let one = BigNum::from_u64(1);
    let e = derive_extension(input, idx, st.n, q);
    if e.lt(&one) {
        return None;
    }
    if !st.p_less_one_div_f.eq_value(&e) {
        return None;
    }
    let f2 = q.add(q);
    if !st.f.eq_value(&f2) {
        return None;
    }
    let e_q = e.mul(q);
    if !st.p_less_one_div_two.eq_value(&e_q) {
        return None;
    }
    let two_e = e.add(&e);
    let p2 = two_e.mul(q).add(&one);
    proof {
        assert((e@ + e@) * q@ == 2 * e@ * q@) by (nonlinear_arith);
        assert(2 * e@ * q@ >= 2 * 1 * 3) by (nonlinear_arith)
            requires e@ >= 1, q@ >= 3;
        assert(2 * e@ * q@ > q@) by (nonlinear_arith)
            requires e@ >= 1, q@ >= 3;
    }
    if !((st.n2 as usize) == p2.bytes.len()) {
        proof {
            lemma_byte_len_canon(p2.bytes@);
        }
        return None;
    }
    proof {
        lemma_byte_len_canon(p2.bytes@);
    }
    if !(one.lt(&st.a) && st.a.lt(&p2)) {
        return None;
    }
    let p_m1 = p2.sub(&one);
    let x1 = st.a.modpow(&p_m1, &p2);
    if !x1.eq_value(&one) {
        return None;
    }
    let c1 = st.a.modpow(&two_e, &p2);
    if !st.b_p_div_f1.eq_value(&c1) {
        return None;
    }
    let c2 = st.a.modpow(&e_q, &p2);
    if !st.b_p_div_two1.eq_value(&c2) {
        return None;
    }
    if !st.b_p_div_f2.lt(&p2) {
        proof {
            st.b_p_div_f2.lemma_nonneg();
        }
        return None;
    }
    let d1 = st.b_p_div_f1.add(&p_m1).rem(&p2);
    let t1 = d1.mul(&st.b_p_div_f2);
    let r1 = t1.rem(&p2);
    if !r1.eq_value(&one) {
        return None;
    }
    let q1 = t1.div(&p2);
    if !st.bu.eq_value(&q1) {
        return None;
    }
    if !st.b_p_div_two2.lt(&p2) {
        proof {
            st.b_p_div_two2.lemma_nonneg();
        }
        return None;
    }
    let d2 = st.b_p_div_two1.add(&p_m1).rem(&p2);
    let t2 = d2.mul(&st.b_p_div_two2);
    let r2 = t2.rem(&p2);
    if !r2.eq_value(&one) {
        return None;
    }
    let q2 = t2.div(&p2);
    if !st.bv.eq_value(&q2) {
        return None;
    }
    if !st.expr_sqrt.eq_value(&st.f) {
        return None;
    }
    let vc = st.f.mul(&st.f);
    if !st.v.eq_value(&vc) {
        return None;
    }
    if !p2.lt(&st.v) {
        return None;
    }
    let sc = st.v.sub(&p2);
    if !st.s.eq_value(&sc) {
        return None;
    }
    proof {
        st.b_p_div_f2.lemma_nonneg();
        st.b_p_div_two2.lemma_nonneg();
    }
    Some(p2)
}

/// What the prover's nonce search tests, with the fixed witness base 2: the
/// conditions on values derived from the hash alone.  A nonce is taken
/// exactly when they all hold.  Opaque: only `build_step` looks inside.
#[verifier::opaque]
pub open spec fn candidate_ok(input: Seq<u8>, idx: u64, nonce: u32, q: int) -> bool {
    let e = ext_val(input, idx, nonce, q);
    let p = 2 * e * q + 1;
    let b1 = pow(2, (2 * e) as nat) % p;
    let b2 = pow(2, (e * q) as nat) % p;
    &&& e >= 1
    &&& byte_len(p) <= u32::MAX as nat
    &&& pow(2, (p - 1) as nat) % p == 1
    &&& gcd_nat(((b1 + p - 1) % p) as nat, p as nat) == 1
    &&& gcd_nat(((b2 + p - 1) % p) as nat, p as nat) == 1
}

/// Tries one nonce: derives the candidate and records its witnesses exactly
/// when the search conditions hold.
#[verifier::rlimit(100)]
fn build_step(input: &Vec<u8>, idx: u64, nonce: u32, q: &BigNum) -> (r: Option<(StepCert, BigNum)>)
    requires
        q.wf(),
        q@ >= 3,
        q.bytes@.len() <= 0xffff,
    ensures
        match r {
            Some((st, p2)) => {
                &&& st.n == nonce
                &&& candidate_ok(input@, idx, nonce, q@)
                &&& pock_step_ok(input@, idx, q@, st)
                &&& p2.wf()
                &&& p2@ == step_prime(input@, idx, st.n, q@)
                &&& p2@ > q@
                &&& p2@ >= 7
            },
            None => !candidate_ok(input@, idx, nonce, q@),
        },
{
    proof {
        reveal(pock_step_ok);
        reveal(candidate_ok);
        lemma_byte_len_canon(q.bytes@);
    }
    let one = BigNum::from_u64(1);
    let e = derive_extension(input, idx, nonce, q);
    if e.lt(&one) {
        return None;
    }
    let two_e = e.add(&e);
    let p2 = two_e.mul(q).add(&one);
    let ghost p = 2 * e@ * q@ + 1;
    proof {
        assert((e@ + e@) * q@ == 2 * e@ * q@) by (nonlinear_arith);
        assert(2 * e@ * q@ >= 2 * 1 * 3) by (nonlinear_arith)
            requires e@ >= 1, q@ >= 3;
        assert(2 * e@ * q@ > q@) by (nonlinear_arith)
            requires e@ >= 1, q@ >= 3;
        lemma_byte_len_canon(p2.bytes@);
    }
    if p2.bytes.len() > (u32::MAX as usize) {
        return None;
    }
    let a = BigNum::from_u64(2);
    let p_m1 = p2.sub(&one);
    let x1 = a.modpow(&p_m1, &p2);
    if !x1.eq_value(&one) {
        return None;
    }
    let b1 = a.modpow(&two_e, &p2);
    let d1 = b1.add(&p_m1).rem(&p2);
    let inv1 = match d1.modinv(&p2) {
        Some(x) => x,
        None => {
            return None;
        },
    };
    let t1 = d1.mul(&inv1);
    let bu = t1.div(&p2);
    let e_q = e.mul(q);
    let b3 = a.modpow(&e_q, &p2);
    let d2 = b3.add(&p_m1).rem(&p2);
    let inv2 = match d2.modinv(&p2) {
        Some(x) => x,
        None => {
            return None;
        },
    };
    let t2 = d2.mul(&inv2);
    let bv = t2.div(&p2);
    let f = q.add(q);
    let v = f.mul(&f);
    proof {
        // f^2 = 4q^2 always exceeds p = 2eq + 1, because e < q.
        assert((q@ + q@) * (q@ + q@) > 2 * e@ * q@ + 1) by (nonlinear_arith)
            requires 1 <= e@ < q@, q@ >= 3;
    }
    let s = v.sub(&p2);
    let st = StepCert {
        expr_sqrt: f.dup(),
        f,
        n: nonce,
        n2: p2.bytes.len() as u32,
        a,
        bu,
        bv,
        s,
        v,
        p_less_one_div_f: e,
        p_less_one_div_two: e_q,
        b_p_div_f1: b1,
        b_p_div_f2: inv1,
        b_p_div_two1: b3,
        b_p_div_two2: inv2,
    };
    proof {
        lemma_small_mod(1, p2@ as nat);
        assert(pock_step_ok(input@, idx, q@, st));
        assert(candidate_ok(input@, idx, nonce, q@));
    }
    Some((st, p2))
}

/// Searches the nonce space in order and takes the first nonce whose
/// candidate passes, which makes the whole search deterministic.
fn find_step(input: &Vec<u8>, idx: u64, q: &BigNum) -> (r: Option<(StepCert, BigNum)>)
    requires
        q.wf(),
        q@ >= 3,
        q.bytes@.len() <= 0xffff,
    ensures
        match r {
            Some((st, p2)) => {
                &&& pock_step_ok(input@, idx, q@, st)
                &&& candidate_ok(input@, idx, st.n, q@)
                &&& forall|n: u32| n < st.n ==> !candidate_ok(input@, idx, n, q@)
                &&& st.n < NONCE_LIMIT
                &&& st.n == least_nonce(input@, idx, q@)
                &&& step_found(input@, idx, q@)
                &&& p2.wf()
                &&& p2@ == step_prime(input@, idx, st.n, q@)
                &&& p2@ > q@
                &&& p2@ >= 7
            },
            None => !step_found(input@, idx, q@),
        },
{
    let mut nonce: u32 = 0;
    while nonce < NONCE_LIMIT
        invariant
            q.wf(),
            q@ >= 3,
            q.bytes@.len() <= 0xffff,
            forall|n: u32| n < nonce ==> !candidate_ok(input@, idx, n, q@),
        decreases NONCE_LIMIT - nonce,
    {
        match build_step(input, idx, nonce, q) {
            Some(found) => {
                proof {
                    lemma_least_nonce_pins(input@, idx, q@, nonce);
                }
                return Some(found);
            },
            None => {},
        }
        nonce += 1;
    }
    proof {
        assert(!step_found(input@, idx, q@)) by {
            if step_found(input@, idx, q@) {
                let n = choose|n: u32| n < NONCE_LIMIT && #[trigger] candidate_ok(
                    input@,
                    idx,
                    n,
                    q@,
                );
                assert(!candidate_ok(input@, idx, n, q@));
            }
        };
    }
    None
}

/// Some nonce within the search bound passes.
pub open spec fn step_found(input: Seq<u8>, idx: u64, q: int) -> bool {
    exists|n: u32| n < NONCE_LIMIT && #[trigger] candidate_ok(input, idx, n, q)
}

/// The first passing nonce.
pub open spec fn least_nonce(input: Seq<u8>, idx: u64, q: int) -> u32 {
    choose|n: u32|
        candidate_ok(input, idx, n, q) && (forall|m: u32|
            m < n ==> !(#[trigger] candidate_ok(input, idx, m, q)))
}

/// A nonce that passes while all below it fail is the first passing nonce.
proof fn lemma_least_nonce_pins(input: Seq<u8>, idx: u64, q: int, n: u32)
    requires
        candidate_ok(input, idx, n, q),
        forall|m: u32| m < n ==> !(#[trigger] candidate_ok(input, idx, m, q)),
    ensures
        least_nonce(input, idx, q) == n,
{
    assert(candidate_ok(input, idx, n, q) && (forall|m: u32|
        m < n ==> !(#[trigger] candidate_ok(input, idx, m, q))));
    let c = least_nonce(input, idx, q);
    assert(candidate_ok(input, idx, c, q) && (forall|m: u32|
        m < c ==> !(#[trigger] candidate_ok(input, idx, m, q)))) by {
        assert(exists|x: u32|
            candidate_ok(input, idx, x, q) && (forall|m: u32|
                m < x ==> !(#[trigger] candidate_ok(input, idx, m, q))));
    };
    if c < n {
        assert(!candidate_ok(input, idx, c, q));
    }
    if n < c {
        assert(!candidate_ok(input, idx, n, q));
    }
}

/// The prime the deterministic search names after `k` steps, when it gets
/// that far: each step takes the first passing nonce against the prior
/// prime, and the search is stuck for good once no nonce passes or the
/// prime outgrows the supported size.  Opaque: revealed only where one step
/// of the search is unfolded.
#[verifier::opaque]
pub open spec fn search_state(input: Seq<u8>, k: nat) -> Option<int>
    decreases k,
{
    if k == 0 {
        Some(POCKLINGTON_BASE_PRIME as int)
    } else {
        match search_state(input, (k - 1) as nat) {
            None => None,
            Some(q) => {
                if byte_len(q) <= 0xffff && step_found(input, (k - 1) as u64, q) {
                    Some(step_prime(input, (k - 1) as u64, least_nonce(input, (k - 1) as u64, q), q))
                } else {
                    None
                }
            },
        }
    }
}

/// A stuck search stays stuck.
proof fn lemma_search_stuck(input: Seq<u8>, k: nat, k2: nat)
    requires
        search_state(input, k) is None,
        k <= k2,
    ensures
        search_state(input, k2) is None,
    decreases k2,
{
    reveal(search_state);
    if k2 > k {
        lemma_search_stuck(input, k, (k2 - 1) as nat);
    }
}

/// The deterministic search reaches a prime of the requested size within the
/// step bound.
pub open spec fn search_succeeds(input: Seq<u8>, entropy_bits: nat) -> bool {
    exists|k: int|
        1 <= k <= MAX_STEPS && (#[trigger] search_state(input, k as nat)) is Some && 2
            * search_state(input, k as nat).unwrap() >= pow(2, entropy_bits)
}

/// Every step of a chain uses the first nonce that passes the prover's
/// search conditions against its predecessor.
pub open spec fn nonces_minimal(input: Seq<u8>, steps: Seq<StepCert>) -> bool {
    forall|i: int|
        0 <= i < steps.len() ==> {
            let q = chain_prime(input, steps.subrange(0, i));
            &&& candidate_ok(input, i as u64, (#[trigger] steps[i]).n, q)
            &&& forall|n: u32| n < steps[i].n ==> !#[trigger] candidate_ok(input, i as u64, n, q)
        }
}

/// The chain stops at the first step whose prime reaches the requested
/// size.
pub open spec fn length_minimal(input: Seq<u8>, steps: Seq<StepCert>, entropy_bits: nat) -> bool {
    forall|j: int|
        1 <= j < steps.len() ==> 2 * chain_prime(input, #[trigger] steps.subrange(0, j)) < pow(
            2,
            entropy_bits,
        )
}

/// Determinism of the prover's output: two certificate chains for the same
/// input that both use first-passing nonces and both stop at the first
/// sufficient prime name the same primes throughout; in particular the
/// final prime is a function of the input alone.
pub proof fn lemma_prime_deterministic(
    input: Seq<u8>,
    s1: Seq<StepCert>,
    s2: Seq<StepCert>,
    entropy_bits: nat,
)
    requires
        s1.len() >= 1,
        s2.len() >= 1,
        nonces_minimal(input, s1),
        nonces_minimal(input, s2),
        length_minimal(input, s1, entropy_bits),
        length_minimal(input, s2, entropy_bits),
        2 * chain_prime(input, s1) >= pow(2, entropy_bits),
        2 * chain_prime(input, s2) >= pow(2, entropy_bits),
    ensures
        chain_prime(input, s1) == chain_prime(input, s2),
{
    if s1.len() <= s2.len() {
        lemma_chain_prefix_agrees(input, s1, s2, s1.len() as int);
        if s1.len() < s2.len() {
            // s2 would have gone past a prime that was already large enough.
            assert(s2.subrange(0, s1.len() as int) =~= s2.subrange(0, s1.len() as int));
            assert(2 * chain_prime(input, s2.subrange(0, s1.len() as int)) < pow(2, entropy_bits));
            assert(s1.subrange(0, s1.len() as int) =~= s1);
            assert(false);
        } else {
            assert(s1.subrange(0, s1.len() as int) =~= s1);
            assert(s2.subrange(0, s2.len() as int) =~= s2);
        }
    } else {
        lemma_chain_prefix_agrees(input, s2, s1, s2.len() as int);
        assert(2 * chain_prime(input, s1.subrange(0, s2.len() as int)) < pow(2, entropy_bits));
        assert(s2.subrange(0, s2.len() as int) =~= s2);
        assert(false);
    }
}

/// Two chains with first-passing nonces agree on every common prefix: the
/// nonces, and with them the primes, coincide step by step.
proof fn lemma_chain_prefix_agrees(input: Seq<u8>, s1: Seq<StepCert>, s2: Seq<StepCert>, k: int)
    requires
        nonces_minimal(input, s1),
        nonces_minimal(input, s2),
        0 <= k <= s1.len(),
        k <= s2.len(),
    ensures
        chain_prime(input, s1.subrange(0, k)) == chain_prime(input, s2.subrange(0, k)),
    decreases k,
{
    if k == 0 {
        assert(s1.subrange(0, 0) =~= Seq::<StepCert>::empty());
        assert(s2.subrange(0, 0) =~= Seq::<StepCert>::empty());
    } else {
        lemma_chain_prefix_agrees(input, s1, s2, k - 1);
        let q = chain_prime(input, s1.subrange(0, k - 1));
        // The nonces at position k - 1 are both the least passing one.
        let n1 = s1[k - 1].n;
        let n2 = s2[k - 1].n;
        assert(candidate_ok(input, (k - 1) as u64, n1, q));
        assert(candidate_ok(input, (k - 1) as u64, n2, q));
        if n1 < n2 {
            assert(!candidate_ok(input, (k - 1) as u64, n1, q));
        }
        if n2 < n1 {
            assert(!candidate_ok(input, (k - 1) as u64, n2, q));
        }
        assert(n1 == n2);
        assert(s1.subrange(0, k).drop_last() =~= s1.subrange(0, k - 1));
        assert(s2.subrange(0, k).drop_last() =~= s2.subrange(0, k - 1));
        assert(s1.subrange(0, k).last() == s1[k - 1]);
        assert(s2.subrange(0, k).last() == s2[k - 1]);
    }
}

/// Appending a checked step keeps the chain valid and moves its prime one
/// step on.
proof fn lemma_push_chain(input: Seq<u8>, old_steps: Seq<StepCert>, st: StepCert, pv: int)
    requires
        chain_ok(input, old_steps),
        pock_step_ok(input, old_steps.len() as u64, chain_prime(input, old_steps), st),
        pv == step_prime(input, old_steps.len() as u64, st.n, chain_prime(input, old_steps)),
    ensures
        chain_ok(input, old_steps.push(st)),
        chain_prime(input, old_steps.push(st)) == pv,
{
    let steps = old_steps.push(st);
    assert(steps.drop_last() =~= old_steps);
    assert(steps.last() == st);
}

/// Appending a first-passing step keeps every nonce minimal.
proof fn lemma_push_minimal(input: Seq<u8>, old_steps: Seq<StepCert>, st: StepCert)
    requires
        nonces_minimal(input, old_steps),
        candidate_ok(input, old_steps.len() as u64, st.n, chain_prime(input, old_steps)),
        forall|n: u32|
            n < st.n ==> !#[trigger] candidate_ok(
                input,
                old_steps.len() as u64,
                n,
                chain_prime(input, old_steps),
            ),
    ensures
        nonces_minimal(input, old_steps.push(st)),
{
    let steps = old_steps.push(st);
    let old_len = old_steps.len() as int;
    assert forall|i: int| 0 <= i < steps.len() implies {
        let qv = chain_prime(input, steps.subrange(0, i));
        candidate_ok(input, i as u64, (#[trigger] steps[i]).n, qv) && forall|n: u32|
            n < steps[i].n ==> !#[trigger] candidate_ok(input, i as u64, n, qv)
    } by {
        assert(steps.subrange(0, i) =~= old_steps.subrange(0, i));
        if i < old_len {
            assert(steps[i] == old_steps[i]);
        } else {
            assert(steps[i] == st);
            assert(old_steps.subrange(0, i) =~= old_steps);
        }
    }
}

/// Appending a step while the prime is still too small keeps the stop point
/// minimal.
proof fn lemma_push_length_minimal(
    input: Seq<u8>,
    old_steps: Seq<StepCert>,
    st: StepCert,
    entropy_bits: nat,
)
    requires
        length_minimal(input, old_steps, entropy_bits),
        old_steps.len() > 0 ==> 2 * chain_prime(input, old_steps) < pow(2, entropy_bits),
    ensures
        length_minimal(input, old_steps.push(st), entropy_bits),
{
    let steps = old_steps.push(st);
    let old_len = old_steps.len() as int;
    assert forall|j: int| 1 <= j < steps.len() implies 2 * chain_prime(
        input,
        #[trigger] steps.subrange(0, j),
    ) < pow(2, entropy_bits) by {
        assert(steps.subrange(0, j) =~= old_steps.subrange(0, j));
        if j == old_len {
            assert(old_steps.subrange(0, j) =~= old_steps);
        }
    }
}

/// The search mirror names the chain prime at every prefix length.
spec fn states_match(input: Seq<u8>, steps: Seq<StepCert>) -> bool
    decreases steps.len(),
{
    if steps.len() == 0 {
        true
    } else {
        states_match(input, steps.drop_last()) && search_state(input, steps.len()) == Some(
            chain_prime(input, steps),
        )
    }
}

/// Reading the search mirror at any prefix length.
proof fn lemma_states_match_at(input: Seq<u8>, steps: Seq<StepCert>, k: int)
    requires
        states_match(input, steps),
        0 <= k <= steps.len(),
    ensures
        search_state(input, k as nat) == Some(chain_prime(input, steps.subrange(0, k))),
    decreases steps.len(),
{
    if k == steps.len() {
        assert(steps.subrange(0, k) =~= steps);
        if steps.len() == 0 {
            reveal(search_state);
        }
    } else {
        let s1 = steps.drop_last();
        lemma_states_match_at(input, s1, k);
        assert(s1.subrange(0, k) =~= steps.subrange(0, k));
    }
}

/// Appending a first-passing step extends the search mirror by one.
proof fn lemma_push_states_match(input: Seq<u8>, old_steps: Seq<StepCert>, st: StepCert)
    requires
        states_match(input, old_steps),
        byte_len(chain_prime(input, old_steps)) <= 0xffff,
        step_found(input, old_steps.len() as u64, chain_prime(input, old_steps)),
        st.n == least_nonce(input, old_steps.len() as u64, chain_prime(input, old_steps)),
    ensures
        states_match(input, old_steps.push(st)),
{
    let steps = old_steps.push(st);
    assert(steps.drop_last() =~= old_steps);
    lemma_push_chain_prime_only(input, old_steps, st);
    lemma_states_match_at(input, old_steps, old_steps.len() as int);
    assert(old_steps.subrange(0, old_steps.len() as int) =~= old_steps);
    reveal(search_state);
    assert(search_state(input, steps.len()) == Some(chain_prime(input, steps)));
}

/// A search stuck one step past a matching prefix.
proof fn lemma_stuck_after(input: Seq<u8>, steps: Seq<StepCert>, pv: int)
    requires
        states_match(input, steps),
        pv == chain_prime(input, steps),
        byte_len(pv) > 0xffff || !step_found(input, steps.len() as u64, pv),
    ensures
        search_state(input, (steps.len() + 1) as nat) is None,
{
    lemma_states_match_at(input, steps, steps.len() as int);
    assert(steps.subrange(0, steps.len() as int) =~= steps);
    reveal(search_state);
}

/// The prime after a push is the step prime of the appended step.
proof fn lemma_push_chain_prime_only(input: Seq<u8>, old_steps: Seq<StepCert>, st: StepCert)
    ensures
        chain_prime(input, old_steps.push(st)) == step_prime(
            input,
            old_steps.len() as u64,
            st.n,
            chain_prime(input, old_steps),
        ),
{
    let steps = old_steps.push(st);
    assert(steps.drop_last() =~= old_steps);
    assert(steps.last() == st);
}

/// Maps an input to a deterministic prime of at least `entropy_bits` bits,
/// together with the certificate chain that proves it; fails with
/// `Exhausted` when no chain is found within the search bounds.  The
/// contract pins the search: every step uses the first passing nonce and
/// the chain stops at the first sufficient prime, so the prime is a
/// function of the input alone (`lemma_prime_deterministic`).
#[verifier::rlimit(100)]
pub fn hash_to_prime(input: &Vec<u8>, entropy_bits: usize) -> (r: Result<
    (BigNum, PocklingtonCert),
    HashToPrimeError,
>)
    requires
        entropy_bits <= 0x7fff0,
    ensures
        match r {
            Ok((p, cert)) => {
                &&& p.wf()
                &&& p@ >= 3
                &&& pock_cert_valid(input@, cert, p@, entropy_bits as nat)
                &&& nonces_minimal(input@, cert.step_certificates@)
                &&& length_minimal(input@, cert.step_certificates@, entropy_bits as nat)
                &&& search_succeeds(input@, entropy_bits as nat)
            },
            Err(e) => {
                &&& e == HashToPrimeError::Exhausted
                &&& !search_succeeds(input@, entropy_bits as nat)
            },
        },
{
    let two = BigNum::from_u64(2);
    let threshold = two.pow_u64(entropy_bits as u64);
    let mut p = BigNum::from_u64(POCKLINGTON_BASE_PRIME);
    let mut steps: Vec<StepCert> = Vec::new();
    let mut done = false;
    proof {
        lemma_byte_len_canon(p.bytes@);
    }
    while steps.len() < MAX_STEPS && !done
        invariant
            p.wf(),
            p@ >= 3,
            threshold.wf(),
            threshold@ == pow(2, entropy_bits as nat),
            chain_ok(input@, steps@),
            p@ == chain_prime(input@, steps@),
            nonces_minimal(input@, steps@),
            length_minimal(input@, steps@, entropy_bits as nat),
            steps@.len() <= MAX_STEPS,
            done <==> (steps@.len() > 0 && 2 * p@ >= pow(2, entropy_bits as nat)),
            states_match(input@, steps@),
        decreases MAX_STEPS - steps@.len(),
    {
        if p.bytes.len() > 0xffff {
            proof {
                lemma_byte_len_canon(p.bytes@);
                lemma_stuck_after(input@, steps@, p@);
                lemma_search_no_success(input@, steps@, entropy_bits as nat, p@);
            }
            return Err(HashToPrimeError::Exhausted);
        }
        proof {
            lemma_byte_len_canon(p.bytes@);
        }
        let idx = steps.len() as u64;
        match find_step(input, idx, &p) {
            Some((st, p2)) => {
                let ghost old_steps = steps@;
                proof {
                    lemma_push_chain(input@, old_steps, st, p2@);
                    lemma_push_minimal(input@, old_steps, st);
                    lemma_push_length_minimal(input@, old_steps, st, entropy_bits as nat);
                    lemma_push_states_match(input@, old_steps, st);
                }
                steps.push(st);
                p = p2;
                let pd = p.add(&p);
                done = !pd.lt(&threshold);
            },
            None => {
                proof {
                    lemma_byte_len_canon(p.bytes@);
                    lemma_stuck_after(input@, steps@, p@);
                    lemma_search_no_success(input@, steps@, entropy_bits as nat, p@);
                }
                return Err(HashToPrimeError::Exhausted);
            },
        }
    }
    if !done {
        proof {
            assert(steps@.len() == MAX_STEPS);
            assert forall|k: int| 1 <= k <= MAX_STEPS implies !((#[trigger] search_state(
                input@,
                k as nat,
            )) is Some && 2 * search_state(input@, k as nat).unwrap() >= pow(
                2,
                entropy_bits as nat,
            )) by {
                lemma_states_match_at(input@, steps@, k);
                if k < MAX_STEPS {
                    assert(2 * chain_prime(input@, steps@.subrange(0, k)) < pow(
                        2,
                        entropy_bits as nat,
                    ));
                } else {
                    assert(steps@.subrange(0, k) =~= steps@);
                }
            }
        }
        return Err(HashToPrimeError::Exhausted);
    }
    let nonce = steps[steps.len() - 1].n;
    proof {
        let ghost len = steps@.len() as int;
        lemma_states_match_at(input@, steps@, len);
        assert(steps@.subrange(0, len) =~= steps@);
        assert(1 <= len <= MAX_STEPS && (#[trigger] search_state(input@, len as nat)) is Some
            && 2 * search_state(input@, len as nat).unwrap() >= pow(2, entropy_bits as nat));
    }
    Ok((p, PocklingtonCert { step_certificates: steps, nonce }))
}

/// When the search is stuck right after a prefix whose primes are all too
/// small, no step count succeeds.
#[verifier::rlimit(100)]
proof fn lemma_search_no_success(input: Seq<u8>, steps: Seq<StepCert>, entropy_bits: nat, pv: int)
    requires
        pv == chain_prime(input, steps),
        length_minimal(input, steps, entropy_bits),
        steps.len() > 0 ==> 2 * pv < pow(2, entropy_bits),
        states_match(input, steps),
        search_state(input, (steps.len() + 1) as nat) is None,
    ensures
        !search_succeeds(input, entropy_bits),
{
    let len = steps.len() as int;
    assert forall|k: int| 1 <= k <= MAX_STEPS implies !((#[trigger] search_state(input, k as nat))
        is Some && 2 * search_state(input, k as nat).unwrap() >= pow(2, entropy_bits)) by {
        if k <= len {
            lemma_states_match_at(input, steps, k);
            if k < len {
                assert(2 * chain_prime(input, steps.subrange(0, k)) < pow(2, entropy_bits));
            } else {
                assert(steps.subrange(0, k) =~= steps);
            }
        } else {
            lemma_search_stuck(input, (len + 1) as nat, k as nat);
        }
    }
}

/// Walks a certificate chain from the base prime, checking every step:
/// returns the final prime exactly when the chain is well-formed and valid.
#[verifier::rlimit(100)]
pub fn pock_chain_run(input: &Vec<u8>, cert: &PocklingtonCert) -> (r: Option<BigNum>)
    ensures
        match r {
            Some(l) => {
                &&& l.wf()
                &&& l@ >= 3
                &&& cert.step_certificates@.len() >= 1
                &&& cert.nonce == cert.step_certificates@.last().n
                &&& chain_ok(input@, cert.step_certificates@)
                &&& l@ == chain_prime(input@, cert.step_certificates@)
            },
            None => !{
                &&& cert.step_certificates@.len() >= 1
                &&& cert.nonce == cert.step_certificates@.last().n
                &&& chain_ok(input@, cert.step_certificates@)
            },
        },
{
    let steps = &cert.step_certificates;
    let len = steps.len();
    if len == 0 {
        return None;
    }
    if cert.nonce != steps[len - 1].n {
        return None;
    }
    let mut cur = BigNum::from_u64(POCKLINGTON_BASE_PRIME);
    let mut i: usize = 0;
    while i < len
        invariant
            0 <= i <= len,
            len == steps@.len(),
            steps@ == cert.step_certificates@,
            cur.wf(),
            cur@ >= 3,
            chain_ok(input@, steps@.subrange(0, i as int)),
            cur@ == chain_prime(input@, steps@.subrange(0, i as int)),
        decreases len - i,
    {
        if cur.bytes.len() > 0xffff {
            proof {
                reveal(pock_step_ok);
                lemma_byte_len_canon(cur.bytes@);
                assert(!pock_step_ok(
                    input@,
                    i as u64,
                    chain_prime(input@, steps@.subrange(0, i as int)),
                    steps@[i as int],
                ));
                lemma_step_fail(input@, steps@, i as int);
            }
            return None;
        }
        match check_step(input, i as u64, &cur, &steps[i]) {
            Some(p2) => {
                proof {
                    assert(steps@.subrange(0, i + 1).drop_last() =~= steps@.subrange(0, i as int));
                    assert(steps@.subrange(0, i + 1).last() == steps@[i as int]);
                }
                cur = p2;
            },
            None => {
                proof {
                    lemma_step_fail(input@, steps@, i as int);
                }
                return None;
            },
        }
        i += 1;
    }
    proof {
        assert(steps@.subrange(0, len as int) =~= steps@);
    }
    Some(cur)
}

/// Checks a certificate chain against the input: accepts exactly when every
/// step checks out, the final prime is `p`, and the entropy target is met.
pub fn pock_verify(input: &Vec<u8>, p: &BigNum, cert: &PocklingtonCert, entropy_bits: usize) -> (r:
    bool)
    requires
        p.wf(),
        entropy_bits <= 0x7fff0,
    ensures
        r == pock_cert_valid(input@, *cert, p@, entropy_bits as nat),
{
    match pock_chain_run(input, cert) {
        Some(l) => {
            if !l.eq_value(p) {
                return false;
            }
            let two = BigNum::from_u64(2);
            let threshold = two.pow_u64(entropy_bits as u64);
            let ld = l.add(&l);
            !ld.lt(&threshold)
        },
        None => false,
    }
}

} // verus!
