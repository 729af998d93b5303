use sha3::{Digest, Sha3_256};
use timed_commitments::bignum::BigNum;
use timed_commitments::hashing::hash_to_variable_output_length;
use timed_commitments::aead::{aead_encrypt, aead_decrypt};
use timed_commitments::encode::{pad_to_32_byte_offset, encode_bigint};
use timed_commitments::pedersen::{gen_pedersen_params, ped_commit, ped_ver_open, fr_modulus_num};
use timed_commitments::lazy_tc::LazyTC;
use timed_commitments::basic_tc::tc_gen_time_params;
use timed_commitments::hog::RsaGroupParams;
use timed_commitments::rng::new_rng;
use timed_commitments::TcError;

#[test]
fn bignum_from_decimal_and_arithmetic() {
    let a = BigNum::from_decimal(b"340282366920938463463374607431768211456").unwrap();
    let b = BigNum::from_u64(2).pow_u64(128);
    assert_eq!(a, b);
    assert_eq!(BigNum::from_u64(2).pow_u64(10), BigNum::from_u64(1024));
    assert_eq!(a.add(&BigNum::from_u64(1)).sub(&BigNum::from_u64(1)), a);
    assert_eq!(
        BigNum::from_u64(123456789).mul(&BigNum::from_u64(987654321)),
        BigNum::from_decimal(b"121932631112635269").unwrap()
    );
    assert_eq!(BigNum::from_u64(1000).rem(&BigNum::from_u64(7)), BigNum::from_u64(6));
    assert_eq!(BigNum::from_u64(1000).div(&BigNum::from_u64(7)), BigNum::from_u64(142));
    assert_eq!(
        BigNum::from_u64(5).modpow(&BigNum::from_u64(3), &BigNum::from_u64(13)),
        BigNum::from_u64(8)
    );
    assert!(BigNum::from_decimal(b"12a34").is_none());
}

#[test]
fn bignum_order() {
    // Across the one-byte boundary, and at equality.
    assert!(BigNum::from_u64(255).lt(&BigNum::from_u64(256)));
    assert!(!BigNum::from_u64(256).lt(&BigNum::from_u64(255)));
    assert!(BigNum::from_u64(256).lt(&BigNum::from_u64(257)));
    assert!(!BigNum::from_u64(300).lt(&BigNum::from_u64(300)));
    assert!(!BigNum::from_u64(0).lt(&BigNum::from_u64(0)));
    assert!(BigNum::from_u64(0).lt(&BigNum::from_u64(1)));
    let big = BigNum::from_u64(2).pow_u64(128);
    assert!(big.sub(&BigNum::from_u64(1)).lt(&big));
    assert!(!big.lt(&big.sub(&BigNum::from_u64(1))));
}

#[test]
fn bignum_modinv_matches_inverse() {
    let m = BigNum::from_u64(101);
    let a = BigNum::from_u64(30);
    let inv = a.modinv(&m).unwrap();
    assert_eq!(a.mul(&inv).rem(&m), BigNum::from_u64(1));
    // 7 shares a factor with 77.
    assert!(BigNum::from_u64(7).modinv(&BigNum::from_u64(77)).is_none());
}

#[test]
fn hash_stream_matches_digest() {
    // The first block of the stream is the digest of the input with an
    // eight-byte zero counter appended.
    let input = b"stream test".to_vec();
    let out = hash_to_variable_output_length(&input, 32);
    let mut block_input = input.clone();
    block_input.extend_from_slice(&0u64.to_le_bytes());
    let expected = Sha3_256::digest(&block_input).to_vec();
    assert_eq!(out, expected);
    // A longer request extends, never changes, the prefix.
    let longer = hash_to_variable_output_length(&input, 48);
    assert_eq!(longer.len(), 48);
    assert_eq!(&longer[..32], &out[..]);
    // Zero-length output.
    assert_eq!(hash_to_variable_output_length(&input, 0).len(), 0);
}

#[test]
fn aead_round_trip_and_binding() {
    let k = hash_to_variable_output_length(&b"key material".to_vec(), 32);
    let ad = b"auction 7, bidder 3".to_vec();
    let m = b"a sealed bid".to_vec();
    let ct = aead_encrypt(&k, &ad, &m);
    assert_eq!(aead_decrypt(&k, &ad, &ct), Some(m.clone()));

    // Any change to the associated data, the ciphertext, or the key is
    // rejected.
    let ad_bad = b"auction 7, bidder 4".to_vec();
    assert_eq!(aead_decrypt(&k, &ad_bad, &ct), None);
    let mut ct_bad = ct.clone();
    ct_bad[0] = ct_bad[0].wrapping_add(1);
    assert_eq!(aead_decrypt(&k, &ad, &ct_bad), None);
    let mut tag_bad = ct.clone();
    let last = tag_bad.len() - 1;
    tag_bad[last] = tag_bad[last].wrapping_add(1);
    assert_eq!(aead_decrypt(&k, &ad, &tag_bad), None);
    let k2 = hash_to_variable_output_length(&b"other key".to_vec(), 32);
    assert_eq!(aead_decrypt(&k2, &ad, &ct), None);
    // Too short to hold a tag.
    assert_eq!(aead_decrypt(&k, &ad, &vec![0u8; 31]), None);
    // The empty message round-trips too.
    let empty: Vec<u8> = Vec::new();
    let ct_empty = aead_encrypt(&k, &ad, &empty);
    assert_eq!(ct_empty.len(), 32);
    assert_eq!(aead_decrypt(&k, &ad, &ct_empty), Some(empty));
}

#[test]
fn padding_to_32_bytes() {
    let padded = pad_to_32_byte_offset(vec![1, 2]);
    let mut expected = vec![0u8; 30];
    expected.extend_from_slice(&[1, 2]);
    assert_eq!(padded, expected);
    // Exactly 32 bytes stay as they are.
    let full: Vec<u8> = (1..=32).collect();
    assert_eq!(pad_to_32_byte_offset(full.clone()), full);
    // 33 bytes pad to 64.
    let long: Vec<u8> = (1..=33).collect();
    let padded = pad_to_32_byte_offset(long.clone());
    assert_eq!(padded.len(), 64);
    assert_eq!(&padded[31..], &long[..]);
    assert!(padded[..31].iter().all(|b| *b == 0));
}

#[test]
fn encoding_a_number() {
    // 258 = 0x0102: big-endian bytes [1, 2], left-padded to 32 bytes.
    let n = BigNum::from_u64(258);
    let enc = encode_bigint(&n);
    let mut expected = vec![0u8; 30];
    expected.extend_from_slice(&[1, 2]);
    assert_eq!(enc.bytes, expected);
    assert!(!enc.negative);
}

#[test]
fn pedersen_round_trip_and_binding() {
    let mut rng = new_rng();
    let pp = gen_pedersen_params(&mut rng);
    let m = b"a bid".to_vec();
    let (comm, r) = ped_commit(&mut rng, &pp, &m).unwrap();
    assert!(ped_ver_open(&pp, &comm, &m, &r));
    // A different message or different randomness fails.
    assert!(!ped_ver_open(&pp, &comm, &b"a bud".to_vec(), &r));
    let mut r_bad = r.clone();
    r_bad[0] = r_bad[0].wrapping_add(1);
    assert!(!ped_ver_open(&pp, &comm, &m, &r_bad));
    // A message too large for the scalar field is rejected at commit time.
    let huge = vec![0xffu8; 33];
    assert_eq!(ped_commit(&mut rng, &pp, &huge).unwrap_err(), TcError::ArgumentOutOfRange);
    let max = fr_modulus_num();
    assert_eq!(ped_commit(&mut rng, &pp, &max.bytes).unwrap_err(), TcError::ArgumentOutOfRange);
}

#[test]
fn lazy_commit_rejects_oversized_message() {
    let mut rng = new_rng();
    let pp = RsaGroupParams {
        m: BigNum::from_decimal(
            b"25195908475657893494027183240048398571429282126204032027777137836043662020707595556264018525880784406918290641249515082189298559149176184502808489120072844992687392807287776735971418347270261896375014971824691165077613379859095700097330459748808428401797429100642458691817195118746121515172654632282216869987549182422433637259085141865462043576798423387184774447920739934236584823824281198163815010106748104516603773060562016196762561338441436038339044149526344321901146575444541784240209246165157233507787077498171257724679629263863563732899121548314381678998850404453640235273819513786365643912120103971228221207357",
        )
        .unwrap(),
        g: BigNum::from_u64(2),
    };
    let (time_pp, _) = tc_gen_time_params(&pp, 4).unwrap();
    let ped_pp = LazyTC::gen_pedersen_params(&mut rng);
    let huge = vec![0xffu8; 40];
    let ad = b"ad".to_vec();
    match LazyTC::commit(&mut rng, &pp, &time_pp, &ped_pp, &huge, &ad) {
        Err(TcError::ArgumentOutOfRange) => {},
        _ => panic!("an oversized message must be rejected"),
    }
}
