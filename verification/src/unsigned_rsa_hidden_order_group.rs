//! The unsigned hidden-order group Z_M^*: plain residues modulo M, with no
//! folding, and an optional generator.

use vstd::prelude::*;
use vstd::arithmetic::power::pow;
use vstd::arithmetic::power::{lemma_pow0, lemma_pow1, lemma_pow_multiplies, lemma_pow_mod_noop,
    lemma_pow_adds};
use vstd::arithmetic::div_mod::{lemma_small_mod, lemma_mod_bound, lemma_mul_mod_noop_left,
    lemma_mul_mod_noop_right, lemma_mul_mod_noop_general};
use crate::bignum::{BigNum, gcd_nat};
use crate::hog::{UnsignedRsaGroupParams, RsaHOGError, uns_op_val, uns_pow_val};
use crate::TcError;

verus! {

#[derive(Clone, PartialEq, Eq, Debug, Hash)]
pub struct UnsignedRsaHiddenOrderGroup {
    pub n: BigNum,
}

impl UnsignedRsaHiddenOrderGroup {
    /// Well-formed against a modulus: a canonical residue below it.
    pub open spec fn wf(&self, m: int) -> bool {
        &&& self.n.wf()
        &&& 0 <= self.n@ < m
    }

    /// The group element a positive number maps to: its residue.
    fn residue(pp: &UnsignedRsaGroupParams, n: &BigNum) -> (r: Self)
        requires
            pp.wf(),
            n.wf(),
            n@ > 0,
        ensures
            r.wf(pp.m@),
            r.n@ == n@ % pp.m@,
    {
        let a = n.rem(&pp.m);
        proof {
            lemma_mod_bound(n@, pp.m@);
        }
        UnsignedRsaHiddenOrderGroup { n: a }
    }

    /// The group element a natural number maps to: its residue.  Fails with
    /// `ArgumentOutOfRange` exactly on zero.
    pub fn from_nat(pp: &UnsignedRsaGroupParams, n: &BigNum) -> (r: Result<Self, TcError>)
        requires
            pp.wf(),
            n.wf(),
        ensures
            match r {
                Ok(x) => {
                    &&& n@ > 0
                    &&& x.wf(pp.m@)
                    &&& x.n@ == n@ % pp.m@
                },
                Err(e) => n@ == 0 && e == TcError::ArgumentOutOfRange,
            },
    {
        let one = BigNum::from_u64(1);
        proof {
            n.lemma_nonneg();
        }
        if n.lt(&one) {
            return Err(TcError::ArgumentOutOfRange);
        }
        Ok(Self::residue(pp, n))
    }

    /// The group operation: multiply the representatives and reduce.
    pub fn op(&self, pp: &UnsignedRsaGroupParams, other: &Self) -> (r: Self)
        requires
            pp.wf(),
            self.wf(pp.m@),
            other.wf(pp.m@),
        ensures
            r.wf(pp.m@),
            r.n@ == uns_op_val(self.n@, other.n@, pp.m@),
    {
        let a = self.n.mul(&other.n);
        let a = a.rem(&pp.m);
        proof {
            vstd::arithmetic::mul::lemma_mul_nonnegative(self.n@, other.n@);
            lemma_mod_bound(self.n@ * other.n@, pp.m@);
        }
        UnsignedRsaHiddenOrderGroup { n: a }
    }

    /// The neutral element, 1.
    pub fn identity(pp: &UnsignedRsaGroupParams) -> (r: Self)
        requires
            pp.wf(),
        ensures
            r.wf(pp.m@),
            r.n@ == 1,
    {
        UnsignedRsaHiddenOrderGroup { n: BigNum::from_u64(1) }
    }

    /// The configured generator, reduced; fails with `NotCyclic` when the
    /// group has none.
    pub fn generator(pp: &UnsignedRsaGroupParams) -> (r: Result<Self, RsaHOGError>)
        requires
            pp.wf(),
        ensures
            match r {
                Ok(x) => {
                    &&& pp.g is Some
                    &&& x.wf(pp.m@)
                    &&& x.n@ == pp.g.unwrap()@ % pp.m@
                },
                Err(e) => pp.g is None && e == RsaHOGError::NotCyclic,
            },
    {
        match &pp.g {
            Some(g) => Ok(Self::residue(pp, g)),
            None => Err(RsaHOGError::NotCyclic),
        }
    }

    /// The representative raised to a power, reduced.
    pub fn power(&self, pp: &UnsignedRsaGroupParams, e: &BigNum) -> (r: Self)
        requires
            pp.wf(),
            self.wf(pp.m@),
            e.wf(),
        ensures
            r.wf(pp.m@),
            r.n@ == uns_pow_val(self.n@, e@ as nat, pp.m@),
    {
        let a = self.n.modpow(e, &pp.m);
        proof {
            lemma_mod_bound(pow(self.n@, e@ as nat), pp.m@);
        }
        UnsignedRsaHiddenOrderGroup { n: a }
    }

    /// The group inverse; fails with `NotInvertible` exactly when the
    /// representative shares a factor with the modulus.
    pub fn inverse(&self, pp: &UnsignedRsaGroupParams) -> (r: Result<Self, RsaHOGError>)
        requires
            pp.wf(),
            self.wf(pp.m@),
        ensures
            match r {
                Ok(x) => {
                    &&& x.wf(pp.m@)
                    &&& gcd_nat(self.n@ as nat, pp.m@ as nat) == 1
                    &&& (self.n@ * x.n@) % pp.m@ == 1
                },
                Err(e) => {
                    &&& gcd_nat(self.n@ as nat, pp.m@ as nat) != 1
                    &&& e == RsaHOGError::NotInvertible
                },
            },
    {
        match self.n.modinv(&pp.m) {
            Some(i) => {
                proof {
                    lemma_small_mod(1, pp.m@ as nat);
                    if i@ == 0 {
                        assert(self.n@ * 0 == 0) by (nonlinear_arith);
                        lemma_small_mod(0, pp.m@ as nat);
                        assert(false);
                    }
                }
                let x = Self::residue(pp, &i);
                proof {
                    lemma_small_mod(i@ as nat, pp.m@ as nat);
                }
                Ok(x)
            },
            None => Err(RsaHOGError::NotInvertible),
        }
    }

    /// Value equality of group elements.
    pub fn eq_elem(&self, other: &Self) -> (r: bool)
        requires
            self.n.wf(),
            other.n.wf(),
        ensures
            r <==> self.n@ == other.n@,
    {
        self.n.eq_value(&other.n)
    }
}

/// Composing with the identity returns the element unchanged.
pub proof fn lemma_unsigned_op_identity(a: int, m: int)
    requires
        m >= 2,
        0 <= a < m,
    ensures
        uns_op_val(a, 1, m) == a,
{
    assert(a * 1 == a) by (nonlinear_arith);
    lemma_small_mod(a as nat, m as nat);
}

/// The group operation is commutative.
pub proof fn lemma_unsigned_op_comm(a: int, b: int, m: int)
    ensures
        uns_op_val(a, b, m) == uns_op_val(b, a, m),
{
    assert(a * b == b * a) by (nonlinear_arith);
}

/// The group operation is associative.
pub proof fn lemma_unsigned_op_assoc(a: int, b: int, c: int, m: int)
    requires
        m >= 2,
    ensures
        uns_op_val(uns_op_val(a, b, m), c, m) == uns_op_val(a, uns_op_val(b, c, m), m),
{
    lemma_mul_mod_noop_left(a * b, c, m);
    lemma_mul_mod_noop_right(a, b * c, m);
    assert((a * b) * c == a * (b * c)) by (nonlinear_arith);
}

/// Composing an element with its inverse yields the identity.
pub proof fn lemma_unsigned_op_inverse(a: int, i: int, m: int)
    requires
        m >= 2,
        (a * i) % m == 1,
    ensures
        uns_op_val(a, i, m) == 1,
{
}

/// The zeroth power is the identity.
pub proof fn lemma_unsigned_pow_zero(a: int, m: int)
    requires
        m >= 2,
    ensures
        uns_pow_val(a, 0, m) == 1,
{
    lemma_pow0(a);
    lemma_small_mod(1, m as nat);
}

/// The first power returns the element unchanged.
pub proof fn lemma_unsigned_pow_one(a: int, m: int)
    requires
        m >= 2,
        0 <= a < m,
    ensures
        uns_pow_val(a, 1, m) == a,
{
    lemma_pow1(a);
    lemma_small_mod(a as nat, m as nat);
}

/// Iterated powers multiply the exponents.
pub proof fn lemma_unsigned_pow_pow(a: int, i: nat, j: nat, m: int)
    requires
        m >= 2,
    ensures
        uns_pow_val(uns_pow_val(a, i, m), j, m) == uns_pow_val(a, i * j, m),
{
    lemma_pow_mod_noop(pow(a, i), j, m);
    lemma_pow_multiplies(a, i, j);
}

/// Powers of one element compose by adding the exponents.
pub proof fn lemma_unsigned_pow_op(a: int, i: nat, j: nat, m: int)
    requires
        m >= 2,
    ensures
        uns_op_val(uns_pow_val(a, i, m), uns_pow_val(a, j, m), m) == uns_pow_val(a, i + j, m),
{
    lemma_mul_mod_noop_general(pow(a, i), pow(a, j), m);
    lemma_pow_adds(a, i, j);
}

} // verus!
