//! Hidden-order groups over a fixed RSA modulus: shared parameters, errors,
//! and the modular arithmetic underlying both the signed quotient group
//! QR_M^+ (which folds a residue to the smaller of `a` and `M - a`) and the
//! plain unsigned group Z_M^*.

use vstd::prelude::*;
use vstd::arithmetic::power::pow;
use vstd::arithmetic::div_mod::{
    lemma_fundamental_div_mod, lemma_fundamental_div_mod_converse,
    lemma_mod_self_0, lemma_small_mod, lemma_mod_bound,
    lemma_mul_mod_noop_right, lemma_mod_multiples_vanish,
};
use vstd::arithmetic::power::{lemma_pow0, lemma_pow1, lemma_pow_adds};
use crate::bignum::BigNum;

verus! {

/// Parameters of the signed group QR_M^+: the modulus and a generator, the
/// latter already in folded form.
pub struct RsaGroupParams {
    pub m: BigNum,
    pub g: BigNum,
}

impl RsaGroupParams {
    pub open spec fn wf(&self) -> bool {
        &&& self.m.wf()
        &&& self.g.wf()
        &&& self.m@ >= 3
        &&& 0 < self.g@
        &&& 2 * self.g@ <= self.m@
        &&& self.m.bytes@.len() + 64 < usize::MAX
    }
}

/// Parameters of the unsigned group Z_M^*; the generator is optional, absent
/// for a group with no distinguished generator.
pub struct UnsignedRsaGroupParams {
    pub m: BigNum,
    pub g: Option<BigNum>,
}

impl UnsignedRsaGroupParams {
    pub open spec fn wf(&self) -> bool {
        &&& self.m.wf()
        &&& self.m@ >= 3
        &&& match self.g {
            Some(g) => g.wf() && 0 < g@,
            None => true,
        }
    }
}

#[derive(Clone, Copy, PartialEq, Eq, Debug)]
pub enum RsaHOGError {
    NotInvertible,
    NotCyclic,
}

impl RsaHOGError {
    /// A short description, in place of a `Display` implementation.
    pub fn message(&self) -> (r: String)
        ensures
            r@ == match self {
                RsaHOGError::NotInvertible => "Group element not invertible"@,
                RsaHOGError::NotCyclic => "Group is not cyclic, missing generator"@,
            },
    {
        match self {
            RsaHOGError::NotInvertible => {
                let s = "Group element not invertible".to_string();
                proof {
                    vstd::prelude::reveal_strlit("Group element not invertible");
                }
                s
            },
            RsaHOGError::NotCyclic => {
                let s = "Group is not cyclic, missing generator".to_string();
                proof {
                    vstd::prelude::reveal_strlit("Group is not cyclic, missing generator");
                }
                s
            },
        }
    }
}

/// The canonical representative of the class { a, m - a }: the smaller of
/// the two.  Meaningful for 0 <= a < m.
pub open spec fn hog_fold(a: int, m: int) -> int {
    if a <= m - a {
        a
    } else {
        m - a
    }
}

/// The value of the signed group operation on representatives.
pub open spec fn hog_op_val(a: int, b: int, m: int) -> int {
    hog_fold((a * b) % m, m)
}

/// The value of the signed group power on representatives.
pub open spec fn hog_pow_val(a: int, e: nat, m: int) -> int {
    hog_fold(pow(a, e) % m, m)
}

/// The value of the unsigned group operation.
pub open spec fn uns_op_val(a: int, b: int, m: int) -> int {
    (a * b) % m
}

/// The value of the unsigned group power.
pub open spec fn uns_pow_val(a: int, e: nat, m: int) -> int {
    pow(a, e) % m
}

/// `a` and `m - a` fold to the same representative.
pub proof fn lemma_fold_neg(a: int, m: int)
    requires
        m >= 2,
        0 <= a < m,
    ensures
        hog_fold((m - a) % m, m) == hog_fold(a, m),
{
    if a == 0 {
        lemma_mod_self_0(m);
    } else {
        lemma_small_mod((m - a) as nat, m as nat);
    }
}

/// Euclidean remainder of a negated non-negative value:
/// `(-y) % m == (m - y % m) % m`.
proof fn lemma_mod_of_neg(y: int, m: int)
    requires
        m >= 2,
        y >= 0,
    ensures
        (-y) % m == (m - y % m) % m,
{
    let z = y % m;
    lemma_mod_bound(y, m);
    lemma_fundamental_div_mod(y, m);
    if z == 0 {
        assert(m * (-(y / m)) == -(m * (y / m))) by (nonlinear_arith);
        lemma_fundamental_div_mod_converse(-y, m, -(y / m), 0);
        lemma_mod_self_0(m);
    } else {
        assert(-y == m * (-(y / m) - 1) + (m - z)) by {
            assert(y == m * (y / m) + z);
            assert(m * (-(y / m) - 1) == -(m * (y / m)) - m) by (nonlinear_arith);
        };
        lemma_fundamental_div_mod_converse(-y, m, -(y / m) - 1, m - z);
        lemma_small_mod((m - z) as nat, m as nat);
    }
}

/// Replacing the left factor of a product by its fold does not change the
/// folded product.
pub proof fn lemma_fold_mul(a: int, c: int, m: int)
    requires
        m >= 2,
        0 <= a < m,
        0 <= c,
    ensures
        hog_fold((hog_fold(a, m) * c) % m, m) == hog_fold((a * c) % m, m),
{
    if a <= m - a {
    } else {
        // hog_fold(a, m) == m - a and (m - a) * c == m * c - a * c.
        let z = (a * c) % m;
        vstd::arithmetic::mul::lemma_mul_nonnegative(a, c);
        lemma_mod_bound(a * c, m);
        assert((m - a) * c == m * c + (-(a * c))) by (nonlinear_arith);
        lemma_mod_multiples_vanish(c, -(a * c), m);
        assert(((m - a) * c) % m == (-(a * c)) % m);
        lemma_mod_of_neg(a * c, m);
        assert(((m - a) * c) % m == (m - z) % m);
        lemma_fold_neg(z, m);
    }
}

/// A power of `m - a` is, modulo `m`, either the power of `a` or its
/// negation.
proof fn lemma_pow_of_neg_mod(a: int, e: nat, m: int)
    requires
        m >= 2,
        0 <= a < m,
    ensures
        pow(m - a, e) % m == pow(a, e) % m
            || pow(m - a, e) % m == (m - pow(a, e) % m) % m,
    decreases e,
{
    vstd::arithmetic::power::lemma_pow_positive(256, 0);
    if e == 0 {
        lemma_pow0(m - a);
        lemma_pow0(a);
    } else {
        lemma_pow_of_neg_mod(a, (e - 1) as nat, m);
        let q = pow(a, (e - 1) as nat) % m;
        
        assert(pow(m - a, e) == (m - a) * pow(m - a, (e - 1) as nat)) by {
            lemma_pow1(m - a);
            lemma_pow_adds(m - a, 1, (e - 1) as nat);
        };
        assert(pow(a, e) == a * pow(a, (e - 1) as nat)) by {
            lemma_pow1(a);
            lemma_pow_adds(a, 1, (e - 1) as nat);
        };
        lemma_mod_bound(pow(a, (e - 1) as nat), m);
        lemma_mul_mod_noop_right(m - a, pow(m - a, (e - 1) as nat), m);
        lemma_mul_mod_noop_right(a, pow(a, (e - 1) as nat), m);
        assert(pow(a, e) % m == (a * q) % m);
        vstd::arithmetic::mul::lemma_mul_nonnegative(a, q);
        lemma_mod_bound(a * q, m);
        let z = (a * q) % m;
        if pow(m - a, (e - 1) as nat) % m == q {
            // (m - a) * q == m * q - a * q, so the product is the negation.
            assert((m - a) * q == m * q + (-(a * q))) by (nonlinear_arith);
            lemma_mod_multiples_vanish(q, -(a * q), m);
            lemma_mod_of_neg(a * q, m);
            assert(pow(m - a, e) % m == (m - z) % m);
        } else {
            let nq = (m - q) % m;
            assert(pow(m - a, e) % m == ((m - a) * nq) % m);
            if q == 0 {
                lemma_mod_self_0(m);
                assert(nq == 0);
                assert((m - a) * 0 == 0) by (nonlinear_arith);
                lemma_small_mod(0, m as nat);
                assert(a * 0 == 0) by (nonlinear_arith);
                assert(pow(m - a, e) % m == 0 && z == 0);
            } else {
                lemma_small_mod((m - q) as nat, m as nat);
                assert(nq == m - q);
                // (m - a) * (m - q) == m * (m - q - a) + a * q.
                assert((m - a) * (m - q) == m * (m - q - a) + a * q) by (nonlinear_arith);
                lemma_mod_multiples_vanish(m - q - a, a * q, m);
                assert(pow(m - a, e) % m == z);
            }
        }
    }
}

/// Replacing the base of a power by its fold does not change the folded
/// power.
pub proof fn lemma_fold_pow(a: int, e: nat, m: int)
    requires
        m >= 2,
        0 <= a < m,
    ensures
        hog_fold(pow(hog_fold(a, m), e) % m, m) == hog_fold(pow(a, e) % m, m),
{
    if a <= m - a {
    } else {
        lemma_pow_of_neg_mod(a, e, m);
        let z = pow(a, e) % m;
        lemma_mod_bound(pow(a, e), m);
        if pow(m - a, e) % m == (m - z) % m {
            lemma_fold_neg(z, m);
        }
    }
}

} // verus!
