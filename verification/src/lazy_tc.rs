//! The lazy timed commitment: a Pedersen commitment for the cheap
//! self-opening path, composed with a basic time-lock commitment whose
//! plaintext is the message followed by the Pedersen randomness, so that a
//! defaulting committer's bid can be forced open and checked against the
//! same Pedersen point.

use vstd::prelude::*;
use vstd::arithmetic::power2::pow2;
use crate::bignum::bytes_eq;
use crate::hog::{RsaGroupParams, hog_pow_val};
use crate::basic_tc::{TimeParams, Opening as TCOpening, Comm as TCComm, tc_ver_spec, tc_key,
    tc_comm_honest, time_params_honest, opt_bytes_view, tc_commit, tc_force_open, tc_ver_open,
    tc_gen_time_params, tc_ver_time_params, lemma_force_open_agreement};
use crate::pedersen::{PedersenParams, ped_ver_spec, ped_commit, ped_ver_open,
    gen_pedersen_params as ped_gen_params, msg_ok};
use crate::poe::{PoEProof, poe_proof_valid, poe_search_succeeds, poe_cert_deterministic};
use crate::aead::aead_dec;
use crate::TcError;

verus! {

/// A lazy timed commitment: the Pedersen point and the time-lock part.
pub struct Comm {
    pub ped_comm: Vec<u8>,
    pub tc_comm: TCComm,
}

impl Comm {
    pub open spec fn wf(&self, m: int) -> bool {
        self.tc_comm.x.wf(m)
    }
}

/// An opening: the time-lock opening, and the time-locked plaintext (the
/// message with the Pedersen randomness appended) when it is known.
pub struct Opening {
    pub tc_opening: TCOpening,
    pub tc_m: Option<Vec<u8>>,
}

pub struct LazyTC;

/// What the opening verifier accepts: the time-lock opening must verify
/// against the carried plaintext; when that plaintext is present, it splits
/// into message and randomness, and the claimed message must be exactly the
/// prefix when the Pedersen check passes, or absent when it fails.
pub open spec fn lazy_ver_spec(
    pp: RsaGroupParams,
    tpp: TimeParams,
    ped_pp: PedersenParams,
    comm: Comm,
    ad: Seq<u8>,
    mo: Option<Seq<u8>>,
    op: Opening,
) -> bool {
    let tcv = tc_ver_spec(pp, tpp, comm.tc_comm, ad, opt_bytes_view(op.tc_m), op.tc_opening);
    match op.tc_m {
        Some(tcm) => {
            let pedv = tcm@.len() >= 32 && ped_ver_spec(
                ped_pp.g@,
                ped_pp.h@,
                comm.ped_comm@,
                tcm@.take(tcm@.len() - 32),
                tcm@.skip(tcm@.len() - 32),
            );
            match mo {
                Some(mv) => tcv && pedv && tcm@.take(tcm@.len() - 32) == mv,
                None => tcv && !pedv,
            }
        },
        None => tcv && mo is None,
    }
}

/// What a forced opening yields: the plaintext prefix when decryption
/// succeeded and the Pedersen check passes, nothing otherwise.
pub open spec fn force_msg(ped_pp: PedersenParams, comm: Comm, dec: Option<Seq<u8>>) -> Option<
    Seq<u8>,
> {
    match dec {
        Some(tcm) => {
            if tcm.len() >= 32 && ped_ver_spec(
                ped_pp.g@,
                ped_pp.h@,
                comm.ped_comm@,
                tcm.take(tcm.len() - 32),
                tcm.skip(tcm.len() - 32),
            ) {
                Some(tcm.take(tcm.len() - 32))
            } else {
                None
            }
        },
        None => None,
    }
}

/// Splits off the trailing 32 bytes.
fn split_tail32(v: &Vec<u8>) -> (r: (Vec<u8>, Vec<u8>))
    requires
        v@.len() >= 32,
    ensures
        r.0@ == v@.take(v@.len() - 32),
        r.1@ == v@.skip(v@.len() - 32),
{
    let n = v.len();
    let head_len = n - 32;
    let mut head: Vec<u8> = Vec::new();
    let mut i: usize = 0;
    while i < head_len
        invariant
            0 <= i <= head_len,
            head_len <= n == v@.len(),
            head@.len() == i,
            forall|j: int| 0 <= j < i ==> head@[j] == v@[j],
        decreases head_len - i,
    {
        head.push(v[i]);
        i += 1;
    }
    let mut tail: Vec<u8> = Vec::new();
    let mut i: usize = head_len;
    while i < n
        invariant
            head_len <= i <= n,
            n == v@.len(),
            tail@.len() == i - head_len,
            forall|j: int| head_len <= j < i ==> tail@[j - head_len] == v@[j],
        decreases n - i,
    {
        tail.push(v[i]);
        i += 1;
    }
    proof {
        assert(head@ =~= v@.take(v@.len() - 32));
        assert(tail@ =~= v@.skip(v@.len() - 32));
    }
    (head, tail)
}

impl LazyTC {
    /// Fresh Pedersen base points: two multiples of one base point by two
    /// independently drawn scalars.
    pub fn gen_pedersen_params(rng: &mut rand::rngs::ThreadRng) -> (r: PedersenParams)
        ensures
            r.wf(),
            crate::pedersen::ped_params_shape(r),
    {
        ped_gen_params(rng)
    }

    /// Time parameters for hardness `t`, with their proof.
    pub fn gen_time_params(pp: &RsaGroupParams, t: u64) -> (r: Result<
        (TimeParams, PoEProof),
        TcError,
    >)
        requires
            pp.wf(),
        ensures
            match r {
                Ok((tpp, pr)) => {
                    &&& tpp.t == t
                    &&& tpp.wf(pp.m@)
                    &&& tpp.x.n@ == pp.g@
                    &&& time_params_honest(*pp, tpp)
                    &&& poe_proof_valid(*pp, tpp.x.n@, tpp.y.n@, t, pr)
                    &&& poe_cert_deterministic(*pp, tpp.x.n@, tpp.y.n@, t, pr)
                },
                Err(e) => {
                    &&& e == TcError::HashToPrimeExhausted
                    &&& !poe_search_succeeds(
                        pp.g@,
                        hog_pow_val(pp.g@, pow2(t as nat), pp.m@),
                        t,
                    )
                },
            },
    {
        tc_gen_time_params(pp, t)
    }

    /// Checks published time parameters against their proof.
    pub fn ver_time_params(pp: &RsaGroupParams, tpp: &TimeParams, pr: &PoEProof) -> (r: bool)
        requires
            pp.wf(),
            tpp.wf(pp.m@),
        ensures
            r == poe_proof_valid(*pp, tpp.x.n@, tpp.y.n@, tpp.t, *pr),
    {
        tc_ver_time_params(pp, tpp, pr)
    }

    /// Commits to `m`: a Pedersen point over the message, and a time-lock
    /// commitment over the message with the Pedersen randomness appended.
    /// The contract promises that the returned self-opening verifies against
    /// `Some(m)`, and pins the honest shape of both layers.  Fails with
    /// `ArgumentOutOfRange` exactly when the message does not fit the scalar
    /// field.
    pub fn commit(
        rng: &mut rand::rngs::ThreadRng,
        pp: &RsaGroupParams,
        tpp: &TimeParams,
        ped_pp: &PedersenParams,
        m: &Vec<u8>,
        ad: &Vec<u8>,
    ) -> (r: Result<(Comm, Opening), TcError>)
        requires
            pp.wf(),
            tpp.wf(pp.m@),
            ped_pp.wf(),
            m@.len() + ad@.len() + 256 < usize::MAX,
        ensures
            match r {
                Ok((comm, op)) => {
                    &&& comm.wf(pp.m@)
                    &&& msg_ok(m@)
                    &&& lazy_ver_spec(*pp, *tpp, *ped_pp, comm, ad@, Some(m@), op)
                    &&& op.tc_m matches Some(tcm) && tcm@.len() == m@.len() + 32
                        && tcm@.take(m@.len() as int) == m@
                        && ped_ver_spec(
                        ped_pp.g@,
                        ped_pp.h@,
                        comm.ped_comm@,
                        m@,
                        tcm@.skip(m@.len() as int),
                    ) && (op.tc_opening matches TCOpening::SelfOpen(alpha)
                        && tc_comm_honest(*tpp, pp.m@, tcm@, ad@, comm.tc_comm, alpha@))
                },
                Err(e) => !msg_ok(m@) && e == TcError::ArgumentOutOfRange,
            },
    {
        let (ped_comm, r_bytes) = match ped_commit(rng, ped_pp, m) {
            Ok(ok) => ok,
            Err(e) => {
                return Err(e);
            },
        };
        let mut tc_m: Vec<u8> = Vec::new();
        crate::hashing::push_bytes(&mut tc_m, m);
        crate::hashing::push_bytes(&mut tc_m, &r_bytes);
        let (tc_comm, tc_opening) = tc_commit(rng, pp, tpp, &tc_m, ad);
        proof {
            assert(tc_m@.take(m@.len() as int) =~= m@);
            assert(tc_m@.skip(m@.len() as int) =~= r_bytes@);
            assert(tc_m@.take(tc_m@.len() - 32) =~= m@);
            assert(tc_m@.skip(tc_m@.len() - 32) =~= r_bytes@);
        }
        Ok((
            Comm { ped_comm, tc_comm },
            Opening { tc_opening, tc_m: Some(tc_m) },
        ))
    }

    /// Opens a commitment without the committer's help: forces the time-lock
    /// open, splits the recovered plaintext, and returns the message exactly
    /// when the Pedersen check passes.  The returned opening always verifies
    /// against the returned message.
    pub fn force_open(
        pp: &RsaGroupParams,
        tpp: &TimeParams,
        ped_pp: &PedersenParams,
        comm: &Comm,
        ad: &Vec<u8>,
    ) -> (r: Result<(Option<Vec<u8>>, Opening), TcError>)
        requires
            pp.wf(),
            tpp.wf(pp.m@),
            ped_pp.wf(),
            comm.wf(pp.m@),
            ad@.len() + comm.tc_comm.ct@.len() + 256 < usize::MAX,
        ensures
            match r {
                Ok((mo, op)) => {
                    let wv = hog_pow_val(comm.tc_comm.x.n@, pow2(tpp.t as nat), pp.m@);
                    let dec = aead_dec(tc_key(wv), ad@, comm.tc_comm.ct@);
                    &&& opt_bytes_view(op.tc_m) == dec
                    &&& op.tc_opening matches TCOpening::Force(y, pr) && y.n@ == wv
                        && poe_proof_valid(*pp, comm.tc_comm.x.n@, wv, tpp.t, pr)
                        && poe_cert_deterministic(*pp, comm.tc_comm.x.n@, wv, tpp.t, pr)
                    &&& opt_bytes_view(mo) == force_msg(*ped_pp, *comm, dec)
                    &&& lazy_ver_spec(*pp, *tpp, *ped_pp, *comm, ad@, opt_bytes_view(mo), op)
                },
                Err(e) => {
                    &&& e == TcError::HashToPrimeExhausted
                    &&& !poe_search_succeeds(
                        comm.tc_comm.x.n@,
                        hog_pow_val(comm.tc_comm.x.n@, pow2(tpp.t as nat), pp.m@),
                        tpp.t,
                    )
                },
            },
    {
        let (tc_mo, tc_opening) = match tc_force_open(pp, tpp, &comm.tc_comm, ad) {
            Ok(ok) => ok,
            Err(e) => {
                return Err(e);
            },
        };
        match tc_mo {
            Some(tcm) => {
                if tcm.len() < 32 {
                    return Ok((None, Opening { tc_opening, tc_m: Some(tcm) }));
                }
                let (mm, rr) = split_tail32(&tcm);
                let pedv = ped_ver_open(ped_pp, &comm.ped_comm, &mm, &rr);
                if pedv {
                    Ok((Some(mm), Opening { tc_opening, tc_m: Some(tcm) }))
                } else {
                    Ok((None, Opening { tc_opening, tc_m: Some(tcm) }))
                }
            },
            None => Ok((None, Opening { tc_opening, tc_m: None })),
        }
    }

    /// Verifies an opening against a claimed message.
    pub fn ver_open(
        pp: &RsaGroupParams,
        tpp: &TimeParams,
        ped_pp: &PedersenParams,
        comm: &Comm,
        ad: &Vec<u8>,
        mo: &Option<Vec<u8>>,
        op: &Opening,
    ) -> (r: bool)
        requires
            pp.wf(),
            tpp.wf(pp.m@),
            ped_pp.wf(),
            comm.wf(pp.m@),
            ad@.len() + comm.tc_comm.ct@.len() + 256 < usize::MAX,
        ensures
            r == lazy_ver_spec(*pp, *tpp, *ped_pp, *comm, ad@, opt_bytes_view(*mo), *op),
    {
        let tcv = tc_ver_open(pp, tpp, &comm.tc_comm, ad, &op.tc_m, &op.tc_opening);
        match &op.tc_m {
            Some(tcm) => {
                if tcm.len() < 32 {
                    return match mo {
                        Some(_) => false,
                        None => tcv,
                    };
                }
                let (mm, rr) = split_tail32(tcm);
                let pedv = ped_ver_open(ped_pp, &comm.ped_comm, &mm, &rr);
                match mo {
                    Some(mv) => tcv && pedv && bytes_eq(&mm, mv),
                    None => tcv && !pedv,
                }
            },
            None => tcv && mo.is_none(),
        }
    }
}

/// Force-open agreement: forcing open an honest commitment under honest time
/// parameters yields exactly the committed message, because the recovered
/// plaintext is the message with its Pedersen randomness, and the Pedersen
/// check passes on that split.
pub proof fn lemma_lazy_force_open_agreement(
    pp: RsaGroupParams,
    tpp: TimeParams,
    ped_pp: PedersenParams,
    msg: Seq<u8>,
    rr: Seq<u8>,
    ad: Seq<u8>,
    comm: Comm,
    alpha: int,
)
    requires
        pp.wf(),
        tpp.wf(pp.m@),
        time_params_honest(pp, tpp),
        rr.len() == 32,
        tc_comm_honest(tpp, pp.m@, msg + rr, ad, comm.tc_comm, alpha),
        ped_ver_spec(ped_pp.g@, ped_pp.h@, comm.ped_comm@, msg, rr),
    ensures
        force_msg(
            ped_pp,
            comm,
            aead_dec(
                tc_key(hog_pow_val(comm.tc_comm.x.n@, pow2(tpp.t as nat), pp.m@)),
                ad,
                comm.tc_comm.ct@,
            ),
        ) == Some(msg),
{
    lemma_force_open_agreement(pp, tpp, msg + rr, ad, comm.tc_comm, alpha);
    let tcm = msg + rr;
    assert(tcm.take(tcm.len() - 32) =~= msg);
    assert(tcm.skip(tcm.len() - 32) =~= rr);
}

} // verus!
