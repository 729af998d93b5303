//! Arbitrary-precision natural numbers.
//!
//! A `BigNum` holds the little-endian byte representation of a natural
//! number, in canonical (minimal) form.  Its mathematical value is the spec
//! function `le_bytes_value`.  The arithmetic itself is carried out by
//! `num_bigint::BigUint` behind trusted wrappers whose contracts state the
//! exact mathematical result; comparison and equality are decided on the
//! canonical bytes and verified, and everything built on top is verified
//! against those contracts.

use vstd::prelude::*;
use vstd::arithmetic::power::pow;
use crate::le_bytes_value;
use num_bigint::BigUint;

verus! {

/// Euclid's greatest common divisor on natural numbers.
pub open spec fn gcd_nat(a: nat, b: nat) -> nat
    decreases a,
{
    if a == 0 {
        b
    } else {
        gcd_nat(b % a, a)
    }
}

/// Canonical little-endian form: at least one byte, and no trailing zero
/// byte except for the single-byte representation of zero itself.
pub open spec fn is_canon_le(s: Seq<u8>) -> bool {
    s.len() >= 1 && (s.len() > 1 ==> s[s.len() - 1] != 0)
}

#[derive(Clone, Debug, PartialEq, Eq, Hash)]
pub struct BigNum {
    pub bytes: Vec<u8>,
}

impl View for BigNum {
    type V = int;

    open spec fn view(&self) -> int {
        le_bytes_value(self.bytes@)
    }
}

/// `pow(b, e + 1) == b * pow(b, e)`, stated once so the place-value proofs
/// below need not unfold `pow` by hand.
pub proof fn lemma_pow_succ(b: int, e: nat)
    ensures
        pow(b, e + 1) == b * pow(b, e),
{
    vstd::arithmetic::power::lemma_pow1(b);
    vstd::arithmetic::power::lemma_pow_adds(b, 1, e);
}

pub proof fn lemma_le_value_nonneg(s: Seq<u8>)
    ensures
        0 <= le_bytes_value(s),
    decreases s.len(),
{
    if s.len() > 0 {
        lemma_le_value_nonneg(s.subrange(1, s.len() as int));
    }
}

pub proof fn lemma_le_value_push(s: Seq<u8>, b: u8)
    ensures
        le_bytes_value(s.push(b)) == le_bytes_value(s) + b * pow(256, s.len()),
    decreases s.len(),
{
    vstd::arithmetic::power::lemma_pow0(256);
    if s.len() == 0 {
        assert(s.push(b) =~= seq![b]);
        assert(seq![b].subrange(1, 1) =~= Seq::<u8>::empty());
        assert(le_bytes_value(Seq::<u8>::empty()) == 0);
        assert(le_bytes_value(seq![b]) == b + 256 * le_bytes_value(seq![b].subrange(1, 1)));
    } else {
        let t = s.subrange(1, s.len() as int);
        assert(s.push(b).subrange(1, s.push(b).len() as int) =~= t.push(b));
        lemma_le_value_push(t, b);
        lemma_pow_succ(256, t.len());
        assert(le_bytes_value(s.push(b)) == s[0] + 256 * le_bytes_value(t.push(b)));
        assert(le_bytes_value(s) == s[0] + 256 * le_bytes_value(t));
        assert(256 * (le_bytes_value(t) + b * pow(256, t.len()))
            == 256 * le_bytes_value(t) + b * (256 * pow(256, t.len()))) by (nonlinear_arith);
    }
}

pub proof fn lemma_le_value_upper(s: Seq<u8>)
    ensures
        le_bytes_value(s) < pow(256, s.len()),
    decreases s.len(),
{
    vstd::arithmetic::power::lemma_pow0(256);
    if s.len() == 0 {
    } else {
        let t = s.subrange(1, s.len() as int);
        lemma_le_value_upper(t);
        assert(le_bytes_value(s) == s[0] + 256 * le_bytes_value(t));
        lemma_le_value_nonneg(t);
        lemma_pow_succ(256, t.len());
        assert(256 * le_bytes_value(t) <= 256 * (pow(256, t.len()) - 1)) by (nonlinear_arith)
            requires le_bytes_value(t) <= pow(256, t.len()) - 1;
    }
}

pub proof fn lemma_le_value_lower(s: Seq<u8>)
    requires
        s.len() > 0,
    ensures
        le_bytes_value(s) >= s[s.len() - 1] * pow(256, (s.len() - 1) as nat),
    decreases s.len(),
{
    vstd::arithmetic::power::lemma_pow0(256);
    let t = s.subrange(1, s.len() as int);
    if s.len() == 1 {
        assert(le_bytes_value(t) == 0);
    } else {
        lemma_le_value_lower(t);
        lemma_le_value_nonneg(t);
        assert(t[t.len() - 1] == s[s.len() - 1]);
        assert(le_bytes_value(s) == s[0] + 256 * le_bytes_value(t));
        assert(le_bytes_value(t) >= t[t.len() - 1] * pow(256, (t.len() - 1) as nat));
        lemma_pow_succ(256, (s.len() - 2) as nat);
        assert(256 * (s[s.len() - 1] * pow(256, (s.len() - 2) as nat))
            == s[s.len() - 1] * (256 * pow(256, (s.len() - 2) as nat)))
            by (nonlinear_arith);
        assert(256 * le_bytes_value(t) >= 256 * (t[t.len() - 1] * pow(256, (t.len() - 1) as nat)))
            by (nonlinear_arith)
            requires le_bytes_value(t) >= t[t.len() - 1] * pow(256, (t.len() - 1) as nat);
    }
}

/// Two canonical little-endian representations of the same value are equal.
pub proof fn lemma_le_value_injective(a: Seq<u8>, b: Seq<u8>)
    requires
        is_canon_le(a),
        is_canon_le(b),
        le_bytes_value(a) == le_bytes_value(b),
    ensures
        a == b,
    decreases a.len(),
{
    vstd::arithmetic::power::lemma_pow_positive(256, (a.len() - 1) as nat);
    vstd::arithmetic::power::lemma_pow_positive(256, (b.len() - 1) as nat);
    if a.len() < b.len() {
        lemma_le_value_upper(a);
        lemma_le_value_lower(b);
        assert(b[b.len() - 1] >= 1);
        vstd::arithmetic::power::lemma_pow_increases(256, a.len(), (b.len() - 1) as nat);
        assert(b[b.len() - 1] * pow(256, (b.len() - 1) as nat) >= 1 * pow(256, (b.len() - 1) as nat))
            by (nonlinear_arith)
            requires b[b.len() - 1] >= 1, pow(256, (b.len() - 1) as nat) > 0;
        assert(false);
    } else if b.len() < a.len() {
        lemma_le_value_upper(b);
        lemma_le_value_lower(a);
        assert(a[a.len() - 1] >= 1);
        vstd::arithmetic::power::lemma_pow_increases(256, b.len(), (a.len() - 1) as nat);
        assert(a[a.len() - 1] * pow(256, (a.len() - 1) as nat) >= 1 * pow(256, (a.len() - 1) as nat))
            by (nonlinear_arith)
            requires a[a.len() - 1] >= 1, pow(256, (a.len() - 1) as nat) > 0;
        assert(false);
    } else {
        // same length: the first byte is the value mod 256, the rest follows
        // by induction.
        let ta = a.subrange(1, a.len() as int);
        let tb = b.subrange(1, b.len() as int);
        lemma_le_value_nonneg(ta);
        lemma_le_value_nonneg(tb);
        let v = le_bytes_value(a);
        assert(v == a[0] + 256 * le_bytes_value(ta));
        assert(v == b[0] + 256 * le_bytes_value(tb));
        assert(a[0] == v % 256 && le_bytes_value(ta) == v / 256) by {
            vstd::arithmetic::div_mod::lemma_fundamental_div_mod_converse(
                v, 256, le_bytes_value(ta), a[0] as int);
        };
        assert(b[0] == v % 256 && le_bytes_value(tb) == v / 256) by {
            vstd::arithmetic::div_mod::lemma_fundamental_div_mod_converse(
                v, 256, le_bytes_value(tb), b[0] as int);
        };
        if a.len() == 1 {
            assert(a =~= b);
        } else {
            if ta.len() > 1 {
                assert(ta[ta.len() - 1] == a[a.len() - 1]);
                assert(tb[tb.len() - 1] == b[b.len() - 1]);
                lemma_le_value_injective(ta, tb);
                assert forall|j: int| 0 <= j < a.len() implies a[j] == b[j] by {
                    if j >= 1 {
                        assert(a[j] == ta[j - 1]);
                        assert(b[j] == tb[j - 1]);
                    }
                }
                assert(a =~= b);
            } else {
                // length 2: the trailing bytes are equal because both equal
                // the value divided by 256.
                assert(ta =~= seq![a[1]]);
                assert(tb =~= seq![b[1]]);
                assert(le_bytes_value(ta) == a[1] + 256 * le_bytes_value(ta.subrange(1, 1)));
                assert(ta.subrange(1, 1) =~= Seq::<u8>::empty());
                assert(tb.subrange(1, 1) =~= Seq::<u8>::empty());
                assert(a =~= b);
            }
        }
    }
}

/// Splitting a byte string splits its value by place:
/// the low `k` bytes plus the rest scaled by `256^k`.
pub proof fn lemma_le_value_split(s: Seq<u8>, k: int)
    requires
        0 <= k <= s.len(),
    ensures
        le_bytes_value(s) == le_bytes_value(s.take(k)) + pow(256, k as nat) * le_bytes_value(
            s.skip(k),
        ),
    decreases k,
{
    if k == 0 {
        assert(s.take(0) =~= Seq::<u8>::empty());
        assert(s.skip(0) =~= s);
        vstd::arithmetic::power::lemma_pow0(256);
    } else {
        let t = s.subrange(1, s.len() as int);
        lemma_le_value_split(t, k - 1);
        assert(s.take(k).subrange(1, k) =~= t.take(k - 1));
        assert(s.skip(k) =~= t.skip(k - 1));
        assert(le_bytes_value(s) == s[0] + 256 * le_bytes_value(t));
        assert(le_bytes_value(s.take(k)) == s[0] + 256 * le_bytes_value(t.take(k - 1)));
        lemma_pow_succ(256, (k - 1) as nat);
        assert(256 * (le_bytes_value(t.take(k - 1)) + pow(256, (k - 1) as nat) * le_bytes_value(
            t.skip(k - 1),
        )) == 256 * le_bytes_value(t.take(k - 1)) + (256 * pow(256, (k - 1) as nat))
            * le_bytes_value(t.skip(k - 1))) by (nonlinear_arith);
    }
}

/// With all bytes above position `i` equal, a smaller byte at `i` makes the
/// whole value smaller.
proof fn lemma_lt_at(a: Seq<u8>, b: Seq<u8>, i: int)
    requires
        a.len() == b.len(),
        0 <= i < a.len(),
        a[i] < b[i],
        forall|j: int| i < j < a.len() ==> a[j] == b[j],
    ensures
        le_bytes_value(a) < le_bytes_value(b),
{
    lemma_le_value_split(a, i + 1);
    lemma_le_value_split(b, i + 1);
    assert(a.skip(i + 1) =~= b.skip(i + 1));
    lemma_le_value_split(a.take(i + 1), i);
    lemma_le_value_split(b.take(i + 1), i);
    assert(a.take(i + 1).take(i) =~= a.take(i));
    assert(a.take(i + 1).skip(i) =~= seq![a[i]]);
    assert(b.take(i + 1).take(i) =~= b.take(i));
    assert(b.take(i + 1).skip(i) =~= seq![b[i]]);
    assert(le_bytes_value(seq![a[i]]) == a[i]) by {
        assert(seq![a[i]].subrange(1, 1) =~= Seq::<u8>::empty());
        assert(le_bytes_value(Seq::<u8>::empty()) == 0);
        assert(le_bytes_value(seq![a[i]]) == seq![a[i]][0] + 256 * le_bytes_value(
            seq![a[i]].subrange(1, 1),
        ));
    };
    assert(le_bytes_value(seq![b[i]]) == b[i]) by {
        assert(seq![b[i]].subrange(1, 1) =~= Seq::<u8>::empty());
        assert(le_bytes_value(Seq::<u8>::empty()) == 0);
        assert(le_bytes_value(seq![b[i]]) == seq![b[i]][0] + 256 * le_bytes_value(
            seq![b[i]].subrange(1, 1),
        ));
    };
    lemma_le_value_upper(a.take(i));
    lemma_le_value_nonneg(b.take(i));
    lemma_le_value_nonneg(a.skip(i + 1));
    vstd::arithmetic::power::lemma_pow_positive(256, i as nat);
    assert(pow(256, i as nat) * a[i] + pow(256, i as nat) <= pow(256, i as nat) * b[i])
        by (nonlinear_arith)
        requires a[i] < b[i], pow(256, i as nat) > 0;
}

/// Trailing zero bytes do not change the value.
pub proof fn lemma_le_value_zero_pad(s: Seq<u8>, k: nat)
    ensures
        le_bytes_value(s + Seq::new(k, |i: int| 0u8)) == le_bytes_value(s),
    decreases s.len() + k,
{
    let z = Seq::new(k, |i: int| 0u8);
    if s.len() == 0 {
        if k == 0 {
            assert(s + z =~= s);
        } else {
            assert((s + z).subrange(1, (s + z).len() as int)
                =~= Seq::<u8>::empty() + Seq::new((k - 1) as nat, |i: int| 0u8));
            lemma_le_value_zero_pad(Seq::empty(), (k - 1) as nat);
            assert(le_bytes_value(s + z) == 0 + 256 * le_bytes_value(
                Seq::empty() + Seq::new((k - 1) as nat, |i: int| 0u8)));
            assert(Seq::<u8>::empty() + Seq::new((k - 1) as nat, |i: int| 0u8)
                =~= Seq::new((k - 1) as nat, |i: int| 0u8));
            assert(Seq::<u8>::empty() =~= Seq::new(0, |i: int| 0u8));
        }
    } else {
        let t = s.subrange(1, s.len() as int);
        assert((s + z).subrange(1, (s + z).len() as int) =~= t + z);
        lemma_le_value_zero_pad(t, k);
    }
}

/// The canonical little-endian byte string of a non-negative value: the
/// inverse of `le_bytes_value` on canonical representations.
pub open spec fn canon_bytes(v: int) -> Seq<u8>
    decreases v,
{
    if v < 256 {
        seq![v as u8]
    } else {
        seq![(v % 256) as u8] + canon_bytes(v / 256)
    }
}

/// A canonical representation is recovered from its value.
pub proof fn lemma_canon_bytes_roundtrip(s: Seq<u8>)
    requires
        is_canon_le(s),
    ensures
        canon_bytes(le_bytes_value(s)) == s,
    decreases s.len(),
{
    let v = le_bytes_value(s);
    let t = s.subrange(1, s.len() as int);
    lemma_le_value_nonneg(t);
    assert(v == s[0] + 256 * le_bytes_value(t));
    if s.len() == 1 {
        assert(le_bytes_value(t) == 0);
        assert(v == s[0]);
        assert(canon_bytes(v) =~= s);
    } else {
        assert(is_canon_le(t));
        assert(t[t.len() - 1] != 0);
        lemma_le_value_lower(t);
        vstd::arithmetic::power::lemma_pow_positive(256, (t.len() - 1) as nat);
        assert(t[t.len() - 1] * pow(256, (t.len() - 1) as nat) >= 1 * pow(256, (t.len() - 1) as nat))
            by (nonlinear_arith)
            requires t[t.len() - 1] >= 1, pow(256, (t.len() - 1) as nat) > 0;
        assert(le_bytes_value(t) >= 1);
        assert(v >= 256);
        vstd::arithmetic::div_mod::lemma_fundamental_div_mod_converse(
            v, 256, le_bytes_value(t), s[0] as int);
        assert(v % 256 == s[0] && v / 256 == le_bytes_value(t));
        lemma_canon_bytes_roundtrip(t);
        assert(canon_bytes(v) =~= s);
    }
}

impl BigNum {
    /// Well-formed: the byte representation is canonical.
    pub open spec fn wf(&self) -> bool {
        is_canon_le(self.bytes@)
    }

    /// The value of a well-formed number is non-negative.
    pub proof fn lemma_nonneg(&self)
        ensures
            self@ >= 0,
    {
        lemma_le_value_nonneg(self.bytes@);
    }

    /// Relies on `num_bigint::BigUint`: `from_bytes_le` reads a little-endian
    /// byte string and `to_bytes_le` writes the value back in minimal
    /// little-endian form (a single zero byte for zero).
    #[verifier::external_body]
    pub fn from_bytes_le(bytes: &Vec<u8>) -> (r: BigNum)
        ensures
            r.wf(),
            r@ == le_bytes_value(bytes@),
    {
        BigNum { bytes: BigUint::from_bytes_le(bytes).to_bytes_le() }
    }

    /// Relies on `num_bigint::BigUint::add`, with the operands and the result
    /// carried as little-endian bytes.
    #[verifier::external_body]
    pub fn add(&self, other: &BigNum) -> (r: BigNum)
        ensures
            r.wf(),
            r@ == self@ + other@,
    {
        let a = BigUint::from_bytes_le(&self.bytes);
        let b = BigUint::from_bytes_le(&other.bytes);
        BigNum { bytes: (a + b).to_bytes_le() }
    }

    /// Relies on `num_bigint::BigUint::sub`, which panics on underflow; the
    /// precondition rules that out.
    #[verifier::external_body]
    pub fn sub(&self, other: &BigNum) -> (r: BigNum)
        requires
            other@ <= self@,
        ensures
            r.wf(),
            r@ == self@ - other@,
    {
        let a = BigUint::from_bytes_le(&self.bytes);
        let b = BigUint::from_bytes_le(&other.bytes);
        BigNum { bytes: (a - b).to_bytes_le() }
    }

    /// Relies on `num_bigint::BigUint::mul`.
    #[verifier::external_body]
    pub fn mul(&self, other: &BigNum) -> (r: BigNum)
        ensures
            r.wf(),
            r@ == self@ * other@,
    {
        let a = BigUint::from_bytes_le(&self.bytes);
        let b = BigUint::from_bytes_le(&other.bytes);
        BigNum { bytes: (a * b).to_bytes_le() }
    }

    /// Relies on `num_bigint::BigUint::div`, which panics on a zero divisor;
    /// the precondition rules that out.  Division truncates.
    #[verifier::external_body]
    pub fn div(&self, other: &BigNum) -> (r: BigNum)
        requires
            other@ > 0,
        ensures
            r.wf(),
            r@ == self@ / other@,
    {
        let a = BigUint::from_bytes_le(&self.bytes);
        let b = BigUint::from_bytes_le(&other.bytes);
        BigNum { bytes: (a / b).to_bytes_le() }
    }

    /// Relies on `num_bigint::BigUint::rem`, which panics on a zero divisor;
    /// the precondition rules that out.
    #[verifier::external_body]
    pub fn rem(&self, other: &BigNum) -> (r: BigNum)
        requires
            other@ > 0,
        ensures
            r.wf(),
            r@ == self@ % other@,
    {
        let a = BigUint::from_bytes_le(&self.bytes);
        let b = BigUint::from_bytes_le(&other.bytes);
        BigNum { bytes: (a % b).to_bytes_le() }
    }

    /// Relies on `num_bigint::BigUint::modpow`: returns
    /// `(self ^ exponent) % modulus` and panics on a zero modulus, which the
    /// precondition rules out.
    #[verifier::external_body]
    pub fn modpow(&self, exponent: &BigNum, modulus: &BigNum) -> (r: BigNum)
        requires
            modulus@ > 0,
        ensures
            r.wf(),
            r@ == pow(self@, exponent@ as nat) % modulus@,
    {
        let b = BigUint::from_bytes_le(&self.bytes);
        let e = BigUint::from_bytes_le(&exponent.bytes);
        let m = BigUint::from_bytes_le(&modulus.bytes);
        BigNum { bytes: b.modpow(&e, &m).to_bytes_le() }
    }

    /// Relies on `num_bigint::BigUint::modinv`: the result is the `x` in
    /// `[0, modulus)` with `self * x == 1 (mod modulus)`, and it exists if
    /// and only if `gcd(self, modulus) == 1`.  Panics on a zero modulus,
    /// which the precondition rules out.
    #[verifier::external_body]
    pub fn modinv(&self, modulus: &BigNum) -> (r: Option<BigNum>)
        requires
            modulus@ > 0,
        ensures
            match r {
                Some(x) => {
                    &&& x.wf()
                    &&& 0 <= x@ < modulus@
                    &&& (self@ * x@) % modulus@ == 1int % modulus@
                    &&& gcd_nat(self@ as nat, modulus@ as nat) == 1
                },
                None => gcd_nat(self@ as nat, modulus@ as nat) != 1,
            },
    {
        let a = BigUint::from_bytes_le(&self.bytes);
        let m = BigUint::from_bytes_le(&modulus.bytes);
        match a.modinv(&m) {
            Some(x) => Some(BigNum { bytes: x.to_bytes_le() }),
            None => None,
        }
    }

    /// Value order, decided on the canonical byte form: a shorter form is
    /// smaller, and forms of one length compare at the highest differing
    /// byte.
    pub fn lt(&self, other: &BigNum) -> (r: bool)
        requires
            self.wf(),
            other.wf(),
        ensures
            r <==> self@ < other@,
    {
        let n1 = self.bytes.len();
        let n2 = other.bytes.len();
        if n1 < n2 {
            proof {
                lemma_le_value_upper(self.bytes@);
                lemma_le_value_lower(other.bytes@);
                vstd::arithmetic::power::lemma_pow_increases(256, n1 as nat, (n2 - 1) as nat);
                vstd::arithmetic::power::lemma_pow_positive(256, (n2 - 1) as nat);
                assert(other.bytes@[n2 - 1] * pow(256, (n2 - 1) as nat) >= 1 * pow(
                    256,
                    (n2 - 1) as nat,
                )) by (nonlinear_arith)
                    requires other.bytes@[n2 - 1] >= 1, pow(256, (n2 - 1) as nat) > 0;
            }
            return true;
        }
        if n2 < n1 {
            proof {
                lemma_le_value_upper(other.bytes@);
                lemma_le_value_lower(self.bytes@);
                vstd::arithmetic::power::lemma_pow_increases(256, n2 as nat, (n1 - 1) as nat);
                vstd::arithmetic::power::lemma_pow_positive(256, (n1 - 1) as nat);
                assert(self.bytes@[n1 - 1] * pow(256, (n1 - 1) as nat) >= 1 * pow(
                    256,
                    (n1 - 1) as nat,
                )) by (nonlinear_arith)
                    requires self.bytes@[n1 - 1] >= 1, pow(256, (n1 - 1) as nat) > 0;
            }
            return false;
        }
        let mut i: usize = n1;
        while i > 0
            invariant
                i <= n1,
                n1 == self.bytes@.len() == other.bytes@.len(),
                forall|j: int| i <= j < n1 ==> self.bytes@[j] == other.bytes@[j],
            decreases i,
        {
            i -= 1;
            let x = self.bytes[i];
            let y = other.bytes[i];
            if x < y {
                proof {
                    lemma_lt_at(self.bytes@, other.bytes@, i as int);
                }
                return true;
            }
            if y < x {
                proof {
                    lemma_lt_at(other.bytes@, self.bytes@, i as int);
                }
                return false;
            }
        }
        proof {
            assert(self.bytes@ =~= other.bytes@);
        }
        false
    }

    /// Value equality, decided on the canonical byte form.
    pub fn eq_value(&self, other: &BigNum) -> (r: bool)
        requires
            self.wf(),
            other.wf(),
        ensures
            r <==> self@ == other@,
    {
        let r = bytes_eq(&self.bytes, &other.bytes);
        proof {
            if !r && self@ == other@ {
                lemma_le_value_injective(self.bytes@, other.bytes@);
            }
        }
        r
    }

    /// Builds the canonical representation of a machine integer.
    pub fn from_u64(x: u64) -> (r: BigNum)
        ensures
            r.wf(),
            r@ == x,
    {
        let mut bytes: Vec<u8> = Vec::new();
        if x == 0 {
            bytes.push(0);
            proof {
                assert(bytes@ =~= seq![0u8]);
                assert(bytes@.subrange(1, 1) =~= Seq::<u8>::empty());
                assert(le_bytes_value(Seq::<u8>::empty()) == 0);
                assert(le_bytes_value(bytes@)
                    == bytes@[0] + 256 * le_bytes_value(bytes@.subrange(1, 1)));
            }
            return BigNum { bytes };
        }
        proof {
            vstd::arithmetic::power::lemma_pow0(256);
        }
        let mut v: u64 = x;
        while v > 0
            invariant
                le_bytes_value(bytes@) + v * pow(256, bytes@.len()) == x,
                v == 0 ==> bytes@.len() > 0 && bytes@[bytes@.len() - 1] != 0,
                v > 0 || bytes@.len() > 0,
            decreases v,
        {
            let b: u8 = (v % 256) as u8;
            proof {
                lemma_le_value_push(bytes@, b);
                lemma_pow_succ(256, bytes@.len());
                assert(v == 256 * (v / 256) + (v % 256)) by {
                    vstd::arithmetic::div_mod::lemma_fundamental_div_mod(v as int, 256);
                };
                assert((b + 256 * (v / 256)) * pow(256, bytes@.len())
                    == b * pow(256, bytes@.len()) + (v / 256) * (256 * pow(256, bytes@.len())))
                    by (nonlinear_arith);
            }
            bytes.push(b);
            v = v / 256;
        }
        proof {
            assert(le_bytes_value(bytes@) == x);
        }
        BigNum { bytes }
    }

    /// Parses an ASCII decimal string; `None` when some byte is not a digit.
    pub fn from_decimal(s: &[u8]) -> (r: Option<BigNum>)
        ensures
            match r {
                Some(x) => {
                    &&& x.wf()
                    &&& all_decimal_digits(s@)
                    &&& x@ == decimal_value(s@)
                },
                None => !all_decimal_digits(s@),
            },
    {
        let ten = BigNum::from_u64(10);
        let mut acc = BigNum::from_u64(0);
        let n = s.len();
        let mut i: usize = 0;
        while i < n
            invariant
                0 <= i <= n,
                n == s@.len(),
                ten@ == 10,
                ten.wf(),
                acc.wf(),
                forall|j: int| 0 <= j < i ==> is_decimal_digit(s@[j]),
                acc@ == decimal_value(s@.subrange(0, i as int)),
            decreases n - i,
        {
            let d = s[i];
            if d < 48 || d > 57 {
                return None;
            }
            let digit = BigNum::from_u64((d - 48) as u64);
            acc = acc.mul(&ten).add(&digit);
            proof {
                assert(s@.subrange(0, i + 1).drop_last() =~= s@.subrange(0, i as int));
            }
            i += 1;
        }
        proof {
            assert(s@.subrange(0, n as int) =~= s@);
        }
        Some(acc)
    }

    /// Raises to a machine-integer power by repeated multiplication.
    pub fn pow_u64(&self, e: u64) -> (r: BigNum)
        requires
            self.wf(),
        ensures
            r.wf(),
            r@ == pow(self@, e as nat),
    {
        let mut r = BigNum::from_u64(1);
        proof {
            vstd::arithmetic::power::lemma_pow0(self@);
        }
        let mut i: u64 = 0;
        while i < e
            invariant
                0 <= i <= e,
                r.wf(),
                r@ == pow(self@, i as nat),
            decreases e - i,
        {
            let ghost i0 = i as nat;
            proof {
                lemma_pow_succ(self@, i0);
            }
            r = r.mul(self);
            proof {
                assert(r@ == pow(self@, i0) * self@);
                assert(pow(self@, i0) * self@ == self@ * pow(self@, i0)) by (nonlinear_arith);
                assert(r@ == pow(self@, (i0 + 1) as nat));
            }
            i += 1;
        }
        r
    }

    /// An exact copy.
    pub fn dup(&self) -> (r: BigNum)
        ensures
            r.bytes@ == self.bytes@,
            r@ == self@,
            r.wf() <==> self.wf(),
    {
        let n = self.bytes.len();
        let mut bytes: Vec<u8> = Vec::new();
        let mut i: usize = 0;
        while i < n
            invariant
                0 <= i <= n,
                n == self.bytes@.len(),
                bytes@.len() == i,
                forall|j: int| 0 <= j < i ==> bytes@[j] == self.bytes@[j],
            decreases n - i,
        {
            bytes.push(self.bytes[i]);
            i += 1;
        }
        proof {
            assert(bytes@ =~= self.bytes@);
        }
        BigNum { bytes }
    }

    /// The big-endian byte form: the little-endian bytes reversed.
    pub fn to_bytes_be(&self) -> (r: Vec<u8>)
        ensures
            r@ == self.bytes@.reverse(),
    {
        let n = self.bytes.len();
        let mut out: Vec<u8> = Vec::new();
        let mut i: usize = 0;
        while i < n
            invariant
                0 <= i <= n,
                n == self.bytes@.len(),
                out@.len() == i,
                forall|j: int| 0 <= j < i ==> out@[j] == self.bytes@[n - 1 - j],
            decreases n - i,
        {
            out.push(self.bytes[n - 1 - i]);
            i += 1;
        }
        proof {
            assert(out@ =~= self.bytes@.reverse());
        }
        out
    }
}

/// Byte-string equality, decided byte by byte.
pub fn bytes_eq(a: &Vec<u8>, b: &Vec<u8>) -> (r: bool)
    ensures
        r <==> a@ == b@,
{
    if a.len() != b.len() {
        proof {
            assert(a@ != b@);
        }
        return false;
    }
    let n = a.len();
    let mut i: usize = 0;
    while i < n
        invariant
            0 <= i <= n,
            n == a@.len() == b@.len(),
            forall|j: int| 0 <= j < i ==> a@[j] == b@[j],
        decreases n - i,
    {
        if a[i] != b[i] {
            proof {
                assert(a@ != b@);
            }
            return false;
        }
        i += 1;
    }
    proof {
        assert(a@ =~= b@);
    }
    true
}

/// One ASCII decimal digit.
pub open spec fn is_decimal_digit(b: u8) -> bool {
    48 <= b <= 57
}

pub open spec fn all_decimal_digits(s: Seq<u8>) -> bool {
    forall|j: int| 0 <= j < s.len() ==> is_decimal_digit(#[trigger] s[j])
}

/// The number an ASCII decimal string denotes.
pub open spec fn decimal_value(s: Seq<u8>) -> int
    decreases s.len(),
{
    if s.len() == 0 {
        0
    } else {
        10 * decimal_value(s.drop_last()) + (s.last() - 48)
    }
}

} // verus!
