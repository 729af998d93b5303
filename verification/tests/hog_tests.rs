use timed_commitments::bignum::BigNum;
use timed_commitments::hog::{RsaGroupParams, UnsignedRsaGroupParams, RsaHOGError};
use timed_commitments::TcError;
use timed_commitments::rsa_hidden_order_group::RsaHiddenOrderGroup;
use timed_commitments::unsigned_rsa_hidden_order_group::UnsignedRsaHiddenOrderGroup;

const RSA_2048: &str = "25195908475657893494027183240048398571429282126204032027777137836043662020707595556264018525880784406918290641249515082189298559149176184502808489120072844992687392807287776735971418347270261896375014971824691165077613379859095700097330459748808428401797429100642458691817195118746121515172654632282216869987549182422433637259085141865462043576798423387184774447920739934236584823824281198163815010106748104516603773060562016196762561338441436038339044149526344321901146575444541784240209246165157233507787077498171257724679629263863563732899121548314381678998850404453640235273819513786365643912120103971228221207357";

const JACOBI_M: &str = "23529844783153609317396348121984376131005978626757403583523509899470098115471804997231064945352065117117115100282667640961993458248263089294674968803178301998113646904983859689488884876621702945367733808344863516895699669584602977642543497014992155732168512939382421174893215435048306047308176432336331883493998983946183603485445893947938297728136653603713647712649222810949646390784388855516108907343828566675682159215105012031327592821049263589041622367295325346407265781653608617622476392342349393130840456771376679458695753622315629570896355300502946461386746836256753465827233822428899788871839984137984745107137";

const JACOBI_G: &str = "10247623214671719579447398827635168713468311038636791474154713239300883896181044327938883938574271844355811834681384444179071813535046505315167094216477443373311655002183105274440444776383912327883352834600696666804120507285363114192044425828676998383230158831813782314959983144676531968618965186052834450961802110403190471827027456541812365364053029125550719453620567486581333614917207747606530143194403422849197438380135177682641526814181771438519260792738867203986707180282649492913030146799652536505506805261054110045029837037371068038861573011609062145984218438792213994161185730652295694231756996080924553368144";

fn num(s: &str) -> BigNum {
    BigNum::from_decimal(s.as_bytes()).unwrap()
}

fn rsa_params() -> RsaGroupParams {
    RsaGroupParams { m: num(RSA_2048), g: BigNum::from_u64(2) }
}

fn unsigned_power_params() -> UnsignedRsaGroupParams {
    // The Jacobi modulus raised to the eleventh power, with no generator.
    UnsignedRsaGroupParams { m: num(JACOBI_M).pow_u64(11), g: None }
}

fn unsigned_jacobi_params() -> UnsignedRsaGroupParams {
    UnsignedRsaGroupParams { m: num(JACOBI_M), g: Some(num(JACOBI_G)) }
}

#[test]
fn rsa_hidden_order_group_inverse_test() {
    let pp = rsa_params();
    let a = RsaHiddenOrderGroup::from_nat(&pp, &BigNum::from_u64(30)).unwrap();
    let inv_a = a.inverse(&pp).unwrap();
    assert_eq!(a.op(&pp, &inv_a).n, BigNum::from_u64(1));

    let a = RsaHiddenOrderGroup::from_nat(&pp, &pp.m.sub(&BigNum::from_u64(30))).unwrap();
    let inv_a = a.inverse(&pp).unwrap();
    assert_eq!(a.op(&pp, &inv_a).n, BigNum::from_u64(1));
}

#[test]
fn unsigned_rsa_hidden_order_group_inverse_test() {
    let pp = unsigned_power_params();
    let a = UnsignedRsaHiddenOrderGroup::from_nat(&pp, &BigNum::from_u64(30)).unwrap();
    let inv_a = a.inverse(&pp).unwrap();
    assert_eq!(a.op(&pp, &inv_a).n, BigNum::from_u64(1));

    let a = UnsignedRsaHiddenOrderGroup::from_nat(&pp, &pp.m.sub(&BigNum::from_u64(30))).unwrap();
    let inv_a = a.inverse(&pp).unwrap();
    assert_eq!(a.op(&pp, &inv_a).n, BigNum::from_u64(1));

    let jpp = unsigned_jacobi_params();
    let a = UnsignedRsaHiddenOrderGroup::from_nat(&jpp, &BigNum::from_u64(30)).unwrap();
    let inv_a = a.inverse(&jpp).unwrap();
    assert_eq!(a.op(&jpp, &inv_a).n, BigNum::from_u64(1));

    let a = UnsignedRsaHiddenOrderGroup::from_nat(&jpp, &pp.m.sub(&BigNum::from_u64(30))).unwrap();
    let inv_a = a.inverse(&jpp).unwrap();
    assert_eq!(a.op(&jpp, &inv_a).n, BigNum::from_u64(1));
}

#[test]
fn op_test() {
    let pp = unsigned_power_params();
    let a = UnsignedRsaHiddenOrderGroup::from_nat(&pp, &pp.m.sub(&BigNum::from_u64(30))).unwrap();
    let b = UnsignedRsaHiddenOrderGroup::from_nat(&pp, &BigNum::from_u64(40)).unwrap();
    let c = a.op(&pp, &b);
    assert_eq!(c.n, pp.m.sub(&BigNum::from_u64(1200)));

    let jpp = unsigned_jacobi_params();
    let a = UnsignedRsaHiddenOrderGroup::from_nat(&jpp, &jpp.m.sub(&BigNum::from_u64(30))).unwrap();
    let b = UnsignedRsaHiddenOrderGroup::from_nat(&jpp, &BigNum::from_u64(40)).unwrap();
    let c = a.op(&jpp, &b);
    assert_eq!(c.n, jpp.m.sub(&BigNum::from_u64(1200)));
}

#[test]
fn unsigned_test() {
    let pp = unsigned_power_params();
    let a = UnsignedRsaHiddenOrderGroup::from_nat(&pp, &BigNum::from_u64(30)).unwrap();
    let b = UnsignedRsaHiddenOrderGroup::from_nat(&pp, &pp.m.sub(&BigNum::from_u64(30))).unwrap();
    assert_ne!(a, b);
}

#[test]
fn signed_op_wraps() {
    // In the signed group, (M - 30) * 40 folds to the smaller representative
    // 1200, not M - 1200.
    let pp = rsa_params();
    let a = RsaHiddenOrderGroup::from_nat(&pp, &pp.m.sub(&BigNum::from_u64(30))).unwrap();
    let b = RsaHiddenOrderGroup::from_nat(&pp, &BigNum::from_u64(40)).unwrap();
    let c = a.op(&pp, &b);
    assert_eq!(c.n, BigNum::from_u64(1200));
}

#[test]
fn signed_folding_identifies_negation() {
    let pp = rsa_params();
    let a = RsaHiddenOrderGroup::from_nat(&pp, &BigNum::from_u64(30)).unwrap();
    let b = RsaHiddenOrderGroup::from_nat(&pp, &pp.m.sub(&BigNum::from_u64(30))).unwrap();
    assert_eq!(a.n, b.n);
    // The representative never exceeds M / 2.
    let two = BigNum::from_u64(2);
    assert!(a.n.mul(&two).lt(&pp.m) || a.n.mul(&two).eq_value(&pp.m));
}

#[test]
fn signed_group_laws_on_values() {
    let pp = rsa_params();
    let a = RsaHiddenOrderGroup::from_nat(&pp, &BigNum::from_u64(123456789)).unwrap();
    let b = RsaHiddenOrderGroup::from_nat(&pp, &BigNum::from_u64(987654321)).unwrap();
    let c = RsaHiddenOrderGroup::from_nat(&pp, &BigNum::from_u64(5)).unwrap();
    let id = RsaHiddenOrderGroup::identity(&pp);
    assert_eq!(a.op(&pp, &id).n, a.n);
    assert_eq!(a.op(&pp, &b).n, b.op(&pp, &a).n);
    assert_eq!(a.op(&pp, &b).op(&pp, &c).n, a.op(&pp, &b.op(&pp, &c)).n);
    let inv_a = a.inverse(&pp).unwrap();
    assert_eq!(a.op(&pp, &inv_a).n, id.n);
}

#[test]
fn signed_exponent_laws_on_values() {
    let pp = rsa_params();
    let a = RsaHiddenOrderGroup::from_nat(&pp, &BigNum::from_u64(7)).unwrap();
    let id = RsaHiddenOrderGroup::identity(&pp);
    assert_eq!(a.power(&pp, &BigNum::from_u64(0)).n, id.n);
    assert_eq!(a.power(&pp, &BigNum::from_u64(1)).n, a.n);
    let p6 = a.power(&pp, &BigNum::from_u64(2)).power(&pp, &BigNum::from_u64(3));
    assert_eq!(p6.n, a.power(&pp, &BigNum::from_u64(6)).n);
    // 7^6 = 117649, far below the modulus and its half.
    assert_eq!(p6.n, BigNum::from_u64(117649));
}

#[test]
fn unsigned_exponent_laws_on_values() {
    let pp = unsigned_jacobi_params();
    let a = UnsignedRsaHiddenOrderGroup::from_nat(&pp, &BigNum::from_u64(7)).unwrap();
    let id = UnsignedRsaHiddenOrderGroup::identity(&pp);
    assert_eq!(a.power(&pp, &BigNum::from_u64(0)).n, id.n);
    assert_eq!(a.power(&pp, &BigNum::from_u64(1)).n, a.n);
    let p6 = a.power(&pp, &BigNum::from_u64(2)).power(&pp, &BigNum::from_u64(3));
    assert_eq!(p6.n, a.power(&pp, &BigNum::from_u64(6)).n);
}

#[test]
fn not_invertible_error() {
    // 77 = 7 * 11: the element 7 shares a factor with the modulus.
    let pp = RsaGroupParams { m: BigNum::from_u64(77), g: BigNum::from_u64(2) };
    let a = RsaHiddenOrderGroup::from_nat(&pp, &BigNum::from_u64(7)).unwrap();
    assert_eq!(a.inverse(&pp).unwrap_err(), RsaHOGError::NotInvertible);
}

#[test]
fn not_cyclic_error() {
    let pp = unsigned_power_params();
    assert_eq!(
        UnsignedRsaHiddenOrderGroup::generator(&pp).unwrap_err(),
        RsaHOGError::NotCyclic
    );
}

#[test]
fn from_nat_rejects_zero() {
    let pp = rsa_params();
    assert_eq!(
        RsaHiddenOrderGroup::from_nat(&pp, &BigNum::from_u64(0)).unwrap_err(),
        TcError::ArgumentOutOfRange
    );
    let upp = unsigned_jacobi_params();
    assert_eq!(
        UnsignedRsaHiddenOrderGroup::from_nat(&upp, &BigNum::from_u64(0)).unwrap_err(),
        TcError::ArgumentOutOfRange
    );
}

#[test]
fn error_messages() {
    assert_eq!(
        RsaHOGError::NotInvertible.message(),
        "Group element not invertible"
    );
    assert_eq!(
        RsaHOGError::NotCyclic.message(),
        "Group is not cyclic, missing generator"
    );
}

#[test]
fn unsigned_generator_present() {
    let pp = unsigned_jacobi_params();
    let g = UnsignedRsaHiddenOrderGroup::generator(&pp).unwrap();
    assert_eq!(g.n, num(JACOBI_G).rem(&num(JACOBI_M)));
}
