use timed_commitments::bignum::BigNum;
use timed_commitments::hog::RsaGroupParams;
use timed_commitments::rsa_hidden_order_group::RsaHiddenOrderGroup;
use timed_commitments::lazy_tc::LazyTC;
use timed_commitments::basic_tc::{tc_gen_time_params, tc_ver_time_params};
use timed_commitments::hash_to_prime::{hash_to_prime, pock_verify};
use timed_commitments::rng::{new_rng, fill_random_bytes};

const RSA_2048: &str = "25195908475657893494027183240048398571429282126204032027777137836043662020707595556264018525880784406918290641249515082189298559149176184502808489120072844992687392807287776735971418347270261896375014971824691165077613379859095700097330459748808428401797429100642458691817195118746121515172654632282216869987549182422433637259085141865462043576798423387184774447920739934236584823824281198163815010106748104516603773060562016196762561338441436038339044149526344321901146575444541784240209246165157233507787077498171257724679629263863563732899121548314381678998850404453640235273819513786365643912120103971228221207357";

fn rsa_params() -> RsaGroupParams {
    RsaGroupParams {
        m: BigNum::from_decimal(RSA_2048.as_bytes()).unwrap(),
        g: BigNum::from_u64(2),
    }
}

#[test]
fn lazy_tc_test() {
    let mut rng = new_rng();
    let pp = rsa_params();
    let m = fill_random_bytes(&mut rng, 8);
    let ad = fill_random_bytes(&mut rng, 32);

    let (time_pp, _) = LazyTC::gen_time_params(&pp, 40).unwrap();

    let ped_pp = LazyTC::gen_pedersen_params(&mut rng);

    let (comm, self_opening) =
        LazyTC::commit(&mut rng, &pp, &time_pp, &ped_pp, &m, &ad).unwrap();
    assert!(LazyTC::ver_open(&pp, &time_pp, &ped_pp, &comm, &ad, &Some(m.to_vec()), &self_opening));

    let (force_m, force_opening) =
        LazyTC::force_open(&pp, &time_pp, &ped_pp, &comm, &ad).unwrap();
    assert!(LazyTC::ver_open(&pp, &time_pp, &ped_pp, &comm, &ad, &force_m, &force_opening));
    assert_eq!(force_m, Some(m.to_vec()));

    // Bad message
    let mut m_bad = m.to_vec();
    m_bad[0] = m_bad[0].wrapping_add(1);
    assert!(!LazyTC::ver_open(
        &pp,
        &time_pp,
        &ped_pp,
        &comm,
        &ad,
        &Some(m_bad.to_vec()),
        &self_opening
    ));
    assert!(!LazyTC::ver_open(
        &pp,
        &time_pp,
        &ped_pp,
        &comm,
        &ad,
        &Some(m_bad.to_vec()),
        &force_opening
    ));
    assert!(!LazyTC::ver_open(&pp, &time_pp, &ped_pp, &comm, &ad, &None, &self_opening));
    assert!(!LazyTC::ver_open(&pp, &time_pp, &ped_pp, &comm, &ad, &None, &force_opening));

    // Bad associated data
    let mut ad_bad = ad.to_vec();
    ad_bad[0] = ad_bad[0].wrapping_add(1);
    assert!(!LazyTC::ver_open(
        &pp,
        &time_pp,
        &ped_pp,
        &comm,
        &ad_bad,
        &Some(m.to_vec()),
        &self_opening
    ));
    assert!(!LazyTC::ver_open(&pp, &time_pp, &ped_pp, &comm, &ad_bad, &force_m, &force_opening));

    // Bad commitment
    let mut tc_input_group_element_bad = dup_comm(&comm);
    tc_input_group_element_bad.tc_comm.x =
        RsaHiddenOrderGroup::from_nat(&pp, &BigNum::from_u64(2)).unwrap();
    let (force_m_bad, force_opening_bad) =
        LazyTC::force_open(&pp, &time_pp, &ped_pp, &tc_input_group_element_bad, &ad).unwrap();
    assert!(force_m_bad.is_none());
    assert!(LazyTC::ver_open(
        &pp,
        &time_pp,
        &ped_pp,
        &tc_input_group_element_bad,
        &ad,
        &force_m_bad,
        &force_opening_bad
    ));

    let mut tc_ae_ct_bad = dup_comm(&comm);
    tc_ae_ct_bad.tc_comm.ct[0] = tc_ae_ct_bad.tc_comm.ct[0].wrapping_add(1);
    let (force_m_bad, force_opening_bad) =
        LazyTC::force_open(&pp, &time_pp, &ped_pp, &tc_ae_ct_bad, &ad).unwrap();
    assert!(force_m_bad.is_none());
    assert!(LazyTC::ver_open(
        &pp,
        &time_pp,
        &ped_pp,
        &tc_ae_ct_bad,
        &ad,
        &force_m_bad,
        &force_opening_bad
    ));

    let mut ped_comm_bad = dup_comm(&comm);
    ped_comm_bad.ped_comm = ped_pp.g.clone();
    let (force_m_bad, force_opening_bad) =
        LazyTC::force_open(&pp, &time_pp, &ped_pp, &ped_comm_bad, &ad).unwrap();
    assert!(force_m_bad.is_none());
    assert!(LazyTC::ver_open(
        &pp,
        &time_pp,
        &ped_pp,
        &ped_comm_bad,
        &ad,
        &force_m_bad,
        &force_opening_bad
    ));
}

fn dup_comm(c: &timed_commitments::lazy_tc::Comm) -> timed_commitments::lazy_tc::Comm {
    timed_commitments::lazy_tc::Comm {
        ped_comm: c.ped_comm.clone(),
        tc_comm: timed_commitments::basic_tc::Comm {
            x: RsaHiddenOrderGroup { n: c.tc_comm.x.n.clone() },
            ct: c.tc_comm.ct.clone(),
        },
    }
}

#[test]
fn time_params_honest_roundtrip() {
    let pp = rsa_params();
    let (time_pp, proof) = tc_gen_time_params(&pp, 16).unwrap();
    assert!(tc_ver_time_params(&pp, &time_pp, &proof));
    assert!(LazyTC::ver_time_params(&pp, &time_pp, &proof));
}

#[test]
fn poe_rejects_tampering() {
    let pp = rsa_params();
    let (time_pp, proof) = tc_gen_time_params(&pp, 16).unwrap();

    // A different exponent count.
    let mut t_bad = time_pp_clone(&time_pp);
    t_bad.t = 17;
    assert!(!tc_ver_time_params(&pp, &t_bad, &proof));

    // A different target.
    let mut y_bad = time_pp_clone(&time_pp);
    y_bad.y = RsaHiddenOrderGroup::from_nat(&pp, &BigNum::from_u64(5)).unwrap();
    assert!(!tc_ver_time_params(&pp, &y_bad, &proof));

    // A different base.
    let mut x_bad = time_pp_clone(&time_pp);
    x_bad.x = RsaHiddenOrderGroup::from_nat(&pp, &BigNum::from_u64(3)).unwrap();
    assert!(!tc_ver_time_params(&pp, &x_bad, &proof));

    // A tampered quotient element.
    let mut p_bad = timed_commitments::poe::PoEProof {
        q: RsaHiddenOrderGroup { n: proof.q.n.clone() },
        cert: proof.cert.clone(),
    };
    p_bad.q = p_bad.q.op(&pp, &RsaHiddenOrderGroup::from_nat(&pp, &BigNum::from_u64(7)).unwrap());
    assert!(!tc_ver_time_params(&pp, &time_pp, &p_bad));

    // A tampered certificate nonce.
    let mut c_bad = timed_commitments::poe::PoEProof {
        q: RsaHiddenOrderGroup { n: proof.q.n.clone() },
        cert: proof.cert.clone(),
    };
    c_bad.cert.nonce = c_bad.cert.nonce.wrapping_add(1);
    assert!(!tc_ver_time_params(&pp, &time_pp, &c_bad));
}

fn time_pp_clone(t: &timed_commitments::basic_tc::TimeParams) -> timed_commitments::basic_tc::TimeParams {
    timed_commitments::basic_tc::TimeParams {
        t: t.t,
        x: RsaHiddenOrderGroup { n: t.x.n.clone() },
        y: RsaHiddenOrderGroup { n: t.y.n.clone() },
    }
}

#[test]
fn cheating_setup_matches_honest_squarings() {
    // 77 = 7 * 11, with lambda(77) = 30 a multiple of every element order.
    let pp = RsaGroupParams { m: BigNum::from_u64(77), g: BigNum::from_u64(2) };
    let (honest, _) = tc_gen_time_params(&pp, 6).unwrap();
    let cheat = timed_commitments::basic_tc::tc_gen_time_params_cheating(
        &pp,
        6,
        &BigNum::from_u64(30),
    );
    assert_eq!(cheat.t, honest.t);
    assert_eq!(cheat.x.n, honest.x.n);
    assert_eq!(cheat.y.n, honest.y.n);
}

#[test]
fn lazy_tc_empty_message() {
    let mut rng = new_rng();
    let pp = rsa_params();
    let (time_pp, _) = LazyTC::gen_time_params(&pp, 8).unwrap();
    let ped_pp = LazyTC::gen_pedersen_params(&mut rng);
    let m: Vec<u8> = Vec::new();
    let ad = b"context".to_vec();
    let (comm, opening) = LazyTC::commit(&mut rng, &pp, &time_pp, &ped_pp, &m, &ad).unwrap();
    assert!(LazyTC::ver_open(&pp, &time_pp, &ped_pp, &comm, &ad, &Some(m.clone()), &opening));
    let (force_m, force_opening) =
        LazyTC::force_open(&pp, &time_pp, &ped_pp, &comm, &ad).unwrap();
    assert_eq!(force_m, Some(m));
    assert!(LazyTC::ver_open(&pp, &time_pp, &ped_pp, &comm, &ad, &force_m, &force_opening));
}

#[test]
fn hash_to_prime_deterministic() {
    let input = b"sealed bid auction".to_vec();
    let (p1, cert1) = hash_to_prime(&input, 128).unwrap();
    let (p2, cert2) = hash_to_prime(&input, 128).unwrap();
    assert_eq!(p1, p2);
    assert_eq!(cert1.nonce, cert2.nonce);
    assert!(pock_verify(&input, &p1, &cert1, 128));
    // At least 128 bits of prime.
    assert!(p1.bytes.len() >= 16);
}

#[test]
fn hash_to_prime_rejects_wrong_input() {
    let input = b"one input".to_vec();
    let other = b"another input".to_vec();
    let (p, cert) = hash_to_prime(&input, 128).unwrap();
    assert!(pock_verify(&input, &p, &cert, 128));
    assert!(!pock_verify(&other, &p, &cert, 128));
    // A different claimed prime is rejected too.
    let wrong = p.add(&BigNum::from_u64(2));
    assert!(!pock_verify(&input, &wrong, &cert, 128));
}
