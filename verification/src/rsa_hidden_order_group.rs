//! The signed hidden-order group QR_M^+ = { |x| : x in QR_M }: every residue
//! is folded to the smaller of `a` and `M - a`, so `a` and `-a` share one
//! representative.

use vstd::prelude::*;
use vstd::arithmetic::power::pow;
use vstd::arithmetic::power::{lemma_pow0, lemma_pow1, lemma_pow_multiplies, lemma_pow_mod_noop,
    lemma_pow_adds};
use vstd::arithmetic::div_mod::{lemma_small_mod, lemma_mod_bound, lemma_mul_mod_noop_left,
    lemma_mul_mod_noop_right, lemma_mul_mod_noop_general};
use crate::bignum::{BigNum, gcd_nat};
use crate::hog::{RsaGroupParams, RsaHOGError, hog_fold, hog_op_val, hog_pow_val,
    lemma_fold_neg, lemma_fold_mul, lemma_fold_pow};
use crate::TcError;

verus! {

#[derive(Clone, PartialEq, Eq, Debug, Hash)]
pub struct RsaHiddenOrderGroup {
    pub n: BigNum,
}

impl RsaHiddenOrderGroup {
    /// Well-formed against a modulus: the representative is canonical and
    /// folded.
    pub open spec fn wf(&self, m: int) -> bool {
        &&& self.n.wf()
        &&& 0 <= self.n@
        &&& 2 * self.n@ <= m
    }

    /// The group element a positive number maps to: its residue, folded.
    fn fold_residue(pp: &RsaGroupParams, n: &BigNum) -> (r: Self)
        requires
            pp.wf(),
            n.wf(),
            n@ > 0,
        ensures
            r.wf(pp.m@),
            r.n@ == hog_fold(n@ % pp.m@, pp.m@),
    {
        let a = n.rem(&pp.m);
        proof {
            lemma_mod_bound(n@, pp.m@);
        }
        let ma = pp.m.sub(&a);
        if a.lt(&ma) {
            RsaHiddenOrderGroup { n: a }
        } else {
            RsaHiddenOrderGroup { n: ma }
        }
    }

    /// The group element a natural number maps to: its residue, folded.
    /// Fails with `ArgumentOutOfRange` exactly on zero.
    pub fn from_nat(pp: &RsaGroupParams, n: &BigNum) -> (r: Result<Self, TcError>)
        requires
            pp.wf(),
            n.wf(),
        ensures
            match r {
                Ok(x) => {
                    &&& n@ > 0
                    &&& x.wf(pp.m@)
                    &&& x.n@ == hog_fold(n@ % pp.m@, pp.m@)
                },
                Err(e) => n@ == 0 && e == TcError::ArgumentOutOfRange,
            },
    {
        let one = BigNum::from_u64(1);
        proof {
            n.lemma_nonneg();
        }
        if n.lt(&one) {
            return Err(TcError::ArgumentOutOfRange);
        }
        Ok(Self::fold_residue(pp, n))
    }

    /// The group operation: multiply the representatives, reduce, fold.
    pub fn op(&self, pp: &RsaGroupParams, other: &Self) -> (r: Self)
        requires
            pp.wf(),
            self.wf(pp.m@),
            other.wf(pp.m@),
        ensures
            r.wf(pp.m@),
            r.n@ == hog_op_val(self.n@, other.n@, pp.m@),
    {
        let a = self.n.mul(&other.n);
        let a = a.rem(&pp.m);
        proof {
            vstd::arithmetic::mul::lemma_mul_nonnegative(self.n@, other.n@);
            lemma_mod_bound(self.n@ * other.n@, pp.m@);
        }
        let ma = pp.m.sub(&a);
        if a.lt(&ma) {
            RsaHiddenOrderGroup { n: a }
        } else {
            RsaHiddenOrderGroup { n: ma }
        }
    }

    /// The neutral element, 1.
    pub fn identity(pp: &RsaGroupParams) -> (r: Self)
        requires
            pp.wf(),
        ensures
            r.wf(pp.m@),
            r.n@ == 1,
    {
        RsaHiddenOrderGroup { n: BigNum::from_u64(1) }
    }

    /// The configured generator.
    pub fn generator(pp: &RsaGroupParams) -> (r: Self)
        requires
            pp.wf(),
        ensures
            r.wf(pp.m@),
            r.n@ == pp.g@,
    {
        RsaHiddenOrderGroup { n: pp.g.dup() }
    }

    /// The representative raised to a power, reduced and folded.
    pub fn power(&self, pp: &RsaGroupParams, e: &BigNum) -> (r: Self)
        requires
            pp.wf(),
            self.wf(pp.m@),
            e.wf(),
        ensures
            r.wf(pp.m@),
            r.n@ == hog_pow_val(self.n@, e@ as nat, pp.m@),
    {
        let a = self.n.modpow(e, &pp.m);
        proof {
            lemma_mod_bound(pow(self.n@, e@ as nat), pp.m@);
        }
        let ma = pp.m.sub(&a);
        if a.lt(&ma) {
            RsaHiddenOrderGroup { n: a }
        } else {
            RsaHiddenOrderGroup { n: ma }
        }
    }

    /// The group inverse; fails with `NotInvertible` exactly when the
    /// representative shares a factor with the modulus.
    pub fn inverse(&self, pp: &RsaGroupParams) -> (r: Result<Self, RsaHOGError>)
        requires
            pp.wf(),
            self.wf(pp.m@),
        ensures
            match r {
                Ok(x) => {
                    &&& x.wf(pp.m@)
                    &&& gcd_nat(self.n@ as nat, pp.m@ as nat) == 1
                    &&& exists|i: int|
                        0 <= i < pp.m@ && (self.n@ * i) % pp.m@ == 1
                            && x.n@ == hog_fold(i, pp.m@)
                    &&& hog_op_val(self.n@, x.n@, pp.m@) == 1
                },
                Err(e) => {
                    &&& gcd_nat(self.n@ as nat, pp.m@ as nat) != 1
                    &&& e == RsaHOGError::NotInvertible
                },
            },
    {
        match self.n.modinv(&pp.m) {
            Some(i) => {
                proof {
                    lemma_small_mod(1, pp.m@ as nat);
                    if i@ == 0 {
                        assert(self.n@ * 0 == 0) by (nonlinear_arith);
                        lemma_small_mod(0, pp.m@ as nat);
                        assert(false);
                    }
                }
                let x = Self::fold_residue(pp, &i);
                proof {
                    lemma_small_mod(i@ as nat, pp.m@ as nat);
                    assert(x.n@ == hog_fold(i@, pp.m@));
                    assert(self.n@ < pp.m@);
                    lemma_signed_op_inverse(self.n@, i@, pp.m@);
                }
                Ok(x)
            },
            None => Err(RsaHOGError::NotInvertible),
        }
    }

    /// Value equality of group elements.
    pub fn eq_elem(&self, other: &Self) -> (r: bool)
        requires
            self.n.wf(),
            other.n.wf(),
        ensures
            r <==> self.n@ == other.n@,
    {
        self.n.eq_value(&other.n)
    }
}

/// Composing with the identity returns the element unchanged: with `a`
/// folded, `a * 1` reduces and folds back to `a`.
pub proof fn lemma_signed_op_identity(a: int, m: int)
    requires
        m >= 2,
        0 <= a,
        2 * a <= m,
    ensures
        hog_op_val(a, 1, m) == a,
{
    assert(a * 1 == a) by (nonlinear_arith);
    lemma_small_mod(a as nat, m as nat);
}

/// The group operation is commutative.
pub proof fn lemma_signed_op_comm(a: int, b: int, m: int)
    ensures
        hog_op_val(a, b, m) == hog_op_val(b, a, m),
{
    assert(a * b == b * a) by (nonlinear_arith);
}

/// The group operation is associative on folded representatives.
pub proof fn lemma_signed_op_assoc(a: int, b: int, c: int, m: int)
    requires
        m >= 2,
        0 <= a < m,
        0 <= b < m,
        0 <= c < m,
    ensures
        hog_op_val(hog_op_val(a, b, m), c, m) == hog_op_val(a, hog_op_val(b, c, m), m),
{
    let ab = (a * b) % m;
    let bc = (b * c) % m;
    vstd::arithmetic::mul::lemma_mul_nonnegative(a, b);
    vstd::arithmetic::mul::lemma_mul_nonnegative(b, c);
    lemma_mod_bound(a * b, m);
    lemma_mod_bound(b * c, m);
    // Left side: drop the inner fold, then the inner reduction.
    lemma_fold_mul(ab, c, m);
    lemma_mul_mod_noop_left(a * b, c, m);
    assert((a * b) * c == a * (b * c)) by (nonlinear_arith);
    // Right side: commute so the folded factor is on the left, then drop it.
    assert(a * hog_fold(bc, m) == hog_fold(bc, m) * a) by (nonlinear_arith);
    lemma_fold_mul(bc, a, m);
    assert(bc * a == a * bc) by (nonlinear_arith);
    lemma_mul_mod_noop_right(a, b * c, m);
    assert(hog_op_val(hog_op_val(a, b, m), c, m) == hog_fold(((a * b) * c) % m, m));
    assert(hog_op_val(a, hog_op_val(b, c, m), m) == hog_fold((a * (b * c)) % m, m));
}

/// Composing an element with its inverse yields the identity: if
/// `a * i == 1 (mod m)`, then `a` composed with the fold of `i` is 1.
pub proof fn lemma_signed_op_inverse(a: int, i: int, m: int)
    requires
        m >= 2,
        0 <= a < m,
        0 <= i < m,
        (a * i) % m == 1,
    ensures
        hog_op_val(a, hog_fold(i, m), m) == 1,
{
    assert(a * hog_fold(i, m) == hog_fold(i, m) * a) by (nonlinear_arith);
    lemma_fold_mul(i, a, m);
    assert(i * a == a * i) by (nonlinear_arith);
}

/// The zeroth power is the identity.
pub proof fn lemma_signed_pow_zero(a: int, m: int)
    requires
        m >= 2,
    ensures
        hog_pow_val(a, 0, m) == 1,
{
    lemma_pow0(a);
    lemma_small_mod(1, m as nat);
}

/// The first power returns the element unchanged.
pub proof fn lemma_signed_pow_one(a: int, m: int)
    requires
        m >= 2,
        0 <= a,
        2 * a <= m,
    ensures
        hog_pow_val(a, 1, m) == a,
{
    lemma_pow1(a);
    lemma_small_mod(a as nat, m as nat);
}

/// Iterated powers multiply the exponents:
/// `power(power(a, i), j) == power(a, i * j)`.
pub proof fn lemma_signed_pow_pow(a: int, i: nat, j: nat, m: int)
    requires
        m >= 2,
        0 <= a < m,
    ensures
        hog_pow_val(hog_pow_val(a, i, m), j, m) == hog_pow_val(a, i * j, m),
{
    let z = pow(a, i) % m;
    lemma_mod_bound(pow(a, i), m);
    lemma_fold_pow(z, j, m);
    lemma_pow_mod_noop(pow(a, i), j, m);
    lemma_pow_multiplies(a, i, j);
    assert(hog_pow_val(hog_pow_val(a, i, m), j, m) == hog_fold(pow(z, j) % m, m));
    assert(pow(z, j) % m == pow(pow(a, i), j) % m);
}

/// Powers of one element compose by adding the exponents:
/// `op(power(a, i), power(a, j)) == power(a, i + j)`.
pub proof fn lemma_signed_pow_op(a: int, i: nat, j: nat, m: int)
    requires
        m >= 2,
        0 <= a < m,
    ensures
        hog_op_val(hog_pow_val(a, i, m), hog_pow_val(a, j, m), m) == hog_pow_val(a, i + j, m),
{
    let zi = pow(a, i) % m;
    let zj = pow(a, j) % m;
    lemma_mod_bound(pow(a, i), m);
    lemma_mod_bound(pow(a, j), m);
    lemma_fold_mul(zi, hog_fold(zj, m), m);
    assert(zi * hog_fold(zj, m) == hog_fold(zj, m) * zi) by (nonlinear_arith);
    lemma_fold_mul(zj, zi, m);
    assert(zj * zi == zi * zj) by (nonlinear_arith);
    lemma_mul_mod_noop_general(pow(a, i), pow(a, j), m);
    lemma_pow_adds(a, i, j);
    assert(hog_op_val(hog_pow_val(a, i, m), hog_pow_val(a, j, m), m)
        == hog_fold((hog_fold(zi, m) * hog_fold(zj, m)) % m, m));
    assert(hog_fold((zi * zj) % m, m) == hog_fold((pow(a, i) * pow(a, j)) % m, m));
}

/// Canonical folding: a number and its negation modulo `m` map to the same
/// group element, and the representative never exceeds `m / 2`.
pub proof fn lemma_signed_from_nat_folds(a: int, m: int)
    requires
        m >= 2,
        0 < a < m,
    ensures
        hog_fold(a % m, m) == hog_fold((m - a) % m, m),
        0 <= hog_fold(a % m, m),
        2 * hog_fold(a % m, m) <= m,
{
    lemma_small_mod(a as nat, m as nat);
    lemma_fold_neg(a, m);
}

} // verus!
