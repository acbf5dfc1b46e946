//! Arbitrary-precision integers held as plain little-endian bytes.
//!
//! `BigNat` is a natural number, `BigInt` a signed one built from a sign and
//! a `BigNat`. The heavy arithmetic on magnitudes is done by `num_bigint`;
//! everything about signs, floors and normal forms is verified here.

use vstd::prelude::*;
use vstd::arithmetic::div_mod::lemma_fundamental_div_mod_converse;
use num_bigint::BigUint;

verus! {

/// The value of a little-endian byte string.
pub open spec fn le_val(s: Seq<u8>) -> nat
    decreases s.len(),
{
    if s.len() == 0 {
        0
    } else {
        s[0] as nat + 256 * le_val(s.drop_first())
    }
}

/// No trailing (most significant) zero byte.
pub open spec fn canonical(s: Seq<u8>) -> bool {
    s.len() == 0 || s.last() != 0
}

pub proof fn lemma_le_val_push_zero(s: Seq<u8>)
    ensures
        le_val(s.push(0)) == le_val(s),
    decreases s.len(),
{
    if s.len() == 0 {
        assert(s.push(0).drop_first() =~= Seq::<u8>::empty());
        assert(le_val(Seq::<u8>::empty()) == 0);
        assert(le_val(s.push(0)) == 0);
    } else {
        assert(s.push(0).drop_first() =~= s.drop_first().push(0));
        lemma_le_val_push_zero(s.drop_first());
        assert(s.push(0)[0] == s[0]);
    }
}

pub proof fn lemma_canonical_nonzero(s: Seq<u8>)
    requires
        canonical(s),
        s.len() > 0,
    ensures
        le_val(s) > 0,
    decreases s.len(),
{
    if s.len() > 1 {
        lemma_canonical_nonzero(s.drop_first());
    }
}

pub proof fn lemma_le_val_parity(s: Seq<u8>)
    requires
        s.len() > 0,
    ensures
        le_val(s) % 2 == (s[0] as nat) % 2,
{
    let x = le_val(s.drop_first());
    assert((s[0] as int + 256 * x) % 2 == (s[0] as int) % 2) by (nonlinear_arith);
}

/// Relies on `BigUint` addition: the sum of the two values.
#[verifier::external_body]
fn raw_add(a: &Vec<u8>, b: &Vec<u8>) -> (r: Vec<u8>)
    ensures
        le_val(r@) == le_val(a@) + le_val(b@),
{
    (BigUint::from_bytes_le(a) + BigUint::from_bytes_le(b)).to_bytes_le()
}

/// Relies on `BigUint` subtraction, which panics below zero.
#[verifier::external_body]
fn raw_sub(a: &Vec<u8>, b: &Vec<u8>) -> (r: Vec<u8>)
    requires
        le_val(b@) <= le_val(a@),
    ensures
        le_val(r@) == le_val(a@) - le_val(b@),
{
    (BigUint::from_bytes_le(a) - BigUint::from_bytes_le(b)).to_bytes_le()
}

/// Relies on `BigUint` multiplication: the product of the two values.
#[verifier::external_body]
fn raw_mul(a: &Vec<u8>, b: &Vec<u8>) -> (r: Vec<u8>)
    ensures
        le_val(r@) == le_val(a@) * le_val(b@),
{
    (BigUint::from_bytes_le(a) * BigUint::from_bytes_le(b)).to_bytes_le()
}

/// Relies on `BigUint` division, which truncates and panics on a zero divisor.
#[verifier::external_body]
fn raw_div(a: &Vec<u8>, b: &Vec<u8>) -> (r: Vec<u8>)
    requires
        le_val(b@) > 0,
    ensures
        le_val(r@) == le_val(a@) / le_val(b@),
{
    (BigUint::from_bytes_le(a) / BigUint::from_bytes_le(b)).to_bytes_le()
}

/// Relies on `BigUint` remainder, which panics on a zero divisor.
#[verifier::external_body]
fn raw_rem(a: &Vec<u8>, b: &Vec<u8>) -> (r: Vec<u8>)
    requires
        le_val(b@) > 0,
    ensures
        le_val(r@) == le_val(a@) % le_val(b@),
{
    (BigUint::from_bytes_le(a) % BigUint::from_bytes_le(b)).to_bytes_le()
}

/// Relies on `BigUint`'s `<`: the numeric order.
#[verifier::external_body]
fn raw_lt(a: &Vec<u8>, b: &Vec<u8>) -> (r: bool)
    ensures
        r == (le_val(a@) < le_val(b@)),
{
    BigUint::from_bytes_le(a) < BigUint::from_bytes_le(b)
}

/// Relies on `BigUint::modpow`: `(base ^ exponent) % modulus`; it panics on a
/// zero modulus.
#[verifier::external_body]
fn raw_modpow(base: &Vec<u8>, exponent: &Vec<u8>, modulus: &Vec<u8>) -> (r: Vec<u8>)
    requires
        le_val(modulus@) > 1,
        le_val(exponent@) > 0,
    ensures
        le_val(r@) == pow_nat(le_val(base@), le_val(exponent@)) % le_val(modulus@),
{
    BigUint::from_bytes_le(base).modpow(&BigUint::from_bytes_le(exponent), &BigUint::from_bytes_le(modulus)).to_bytes_le()
}

/// The number of bits of `n` (zero for zero).
pub open spec fn bit_len(n: nat) -> nat
    decreases n,
{
    if n == 0 {
        0
    } else {
        1 + bit_len(n / 2)
    }
}

/// Relies on `BigUint::bits`: the fewest bits that express the value.
#[verifier::external_body]
fn raw_bits(a: &Vec<u8>) -> (r: u64)
    ensures
        r == bit_len(le_val(a@)),
{
    BigUint::from_bytes_le(a).bits()
}

/// Relies on `BigUint::from(u64)`: the same value.
#[verifier::external_body]
fn raw_from_u64(x: u64) -> (r: Vec<u8>)
    ensures
        le_val(r@) == x,
{
    BigUint::from(x).to_bytes_le()
}

/// Relies on `BigUint`'s left shift: `1 << n` is two to the `n`.
#[verifier::external_body]
fn raw_pow2(n: u64) -> (r: Vec<u8>)
    ensures
        le_val(r@) == vstd::arithmetic::power2::pow2(n as nat),
{
    (BigUint::from(1u8) << n).to_bytes_le()
}

/// `b` to the power `e`.
pub open spec fn pow_nat(b: nat, e: nat) -> nat
    decreases e,
{
    if e == 0 {
        1
    } else {
        b * pow_nat(b, (e - 1) as nat)
    }
}

/// Drops the most significant zero bytes.
fn trim(v: Vec<u8>) -> (r: Vec<u8>)
    ensures
        canonical(r@),
        le_val(r@) == le_val(v@),
{
    let mut r = v;
    while r.len() > 0 && r[r.len() - 1] == 0
        invariant
            le_val(r@) == le_val(v@),
        decreases r.len(),
    {
        let ghost before = r@;
        r.pop();
        proof {
            assert(before =~= r@.push(0));
            lemma_le_val_push_zero(r@);
        }
    }
    r
}

/// A natural number of any size.
#[derive(Clone, Debug, PartialEq, Eq, Hash)]
pub struct BigNat {
    pub bytes: Vec<u8>,
}

impl View for BigNat {
    type V = nat;

    open spec fn view(&self) -> nat {
        le_val(self.bytes@)
    }
}

impl BigNat {
    pub open spec fn wf(&self) -> bool {
        canonical(self.bytes@)
    }

    pub fn zero() -> (r: BigNat)
        ensures
            r.wf(),
            r@ == 0,
    {
        BigNat { bytes: Vec::new() }
    }

    pub fn from_u64(x: u64) -> (r: BigNat)
        ensures
            r.wf(),
            r@ == x,
    {
        BigNat { bytes: trim(raw_from_u64(x)) }
    }

    /// The number whose little-endian bytes are `b`.
    pub fn from_le_bytes(b: &Vec<u8>) -> (r: BigNat)
        ensures
            r.wf(),
            r@ == le_val(b@),
    {
        BigNat { bytes: trim(b.clone()) }
    }

    /// Two to the power `n`.
    pub fn pow2(n: u64) -> (r: BigNat)
        ensures
            r.wf(),
            r@ == vstd::arithmetic::power2::pow2(n as nat),
    {
        BigNat { bytes: trim(raw_pow2(n)) }
    }

    pub fn is_zero(&self) -> (r: bool)
        requires
            self.wf(),
        ensures
            r == (self@ == 0),
    {
        proof {
            if self.bytes@.len() > 0 {
                lemma_canonical_nonzero(self.bytes@);
            }
        }
        self.bytes.len() == 0
    }

    pub fn is_odd(&self) -> (r: bool)
        ensures
            r == (self@ % 2 == 1),
    {
        if self.bytes.len() == 0 {
            false
        } else {
            proof {
                lemma_le_val_parity(self.bytes@);
            }
            self.bytes[0] % 2 == 1
        }
    }

    pub fn add(&self, o: &BigNat) -> (r: BigNat)
        ensures
            r.wf(),
            r@ == self@ + o@,
    {
        BigNat { bytes: trim(raw_add(&self.bytes, &o.bytes)) }
    }

    pub fn sub(&self, o: &BigNat) -> (r: BigNat)
        requires
            o@ <= self@,
        ensures
            r.wf(),
            r@ == self@ - o@,
    {
        BigNat { bytes: trim(raw_sub(&self.bytes, &o.bytes)) }
    }

    pub fn mul(&self, o: &BigNat) -> (r: BigNat)
        ensures
            r.wf(),
            r@ == self@ * o@,
    {
        BigNat { bytes: trim(raw_mul(&self.bytes, &o.bytes)) }
    }

    pub fn div(&self, o: &BigNat) -> (r: BigNat)
        requires
            o@ > 0,
        ensures
            r.wf(),
            r@ == self@ / o@,
    {
        BigNat { bytes: trim(raw_div(&self.bytes, &o.bytes)) }
    }

    pub fn rem(&self, o: &BigNat) -> (r: BigNat)
        requires
            o@ > 0,
        ensures
            r.wf(),
            r@ == self@ % o@,
    {
        BigNat { bytes: trim(raw_rem(&self.bytes, &o.bytes)) }
    }

    pub fn lt(&self, o: &BigNat) -> (r: bool)
        ensures
            r == (self@ < o@),
    {
        raw_lt(&self.bytes, &o.bytes)
    }

    /// The number of bits of the number.
    pub fn bits(&self) -> (r: u64)
        ensures
            r == bit_len(self@),
    {
        raw_bits(&self.bytes)
    }

    pub fn equals(&self, o: &BigNat) -> (r: bool)
        ensures
            r == (self@ == o@),
    {
        !self.lt(o) && !o.lt(self)
    }

    pub fn modpow(&self, e: &BigNat, m: &BigNat) -> (r: BigNat)
        requires
            m@ > 1,
            e@ > 0,
        ensures
            r.wf(),
            r@ == pow_nat(self@, e@) % m@,
    {
        BigNat { bytes: trim(raw_modpow(&self.bytes, &e.bytes, &m.bytes)) }
    }

    /// A copy of the number.
    pub fn dup(&self) -> (r: BigNat)
        ensures
            r.bytes@ == self.bytes@,
    {
        BigNat { bytes: self.bytes.clone() }
    }

    /// The minimal little-endian bytes of the number (empty for zero).
    pub fn to_le_bytes(&self) -> (r: Vec<u8>)
        requires
            self.wf(),
        ensures
            r@ == self.bytes@,
            canonical(r@),
            le_val(r@) == self@,
    {
        self.bytes.clone()
    }
}

/// A signed integer of any size: a sign and a magnitude, zero never negative.
#[derive(Clone, Debug, PartialEq, Eq, Hash)]
pub struct BigInt {
    pub neg: bool,
    pub mag: BigNat,
}

impl View for BigInt {
    type V = int;

    open spec fn view(&self) -> int {
        if self.neg {
            -(self.mag@ as int)
        } else {
            self.mag@ as int
        }
    }
}

impl BigInt {
    pub open spec fn wf(&self) -> bool {
        self.mag.wf() && (self.neg ==> self.mag@ > 0)
    }

    pub fn from_nat(m: BigNat) -> (r: BigInt)
        requires
            m.wf(),
        ensures
            r.wf(),
            r@ == m@,
    {
        BigInt { neg: false, mag: m }
    }

    pub fn from_u64(x: u64) -> (r: BigInt)
        ensures
            r.wf(),
            r@ == x,
    {
        BigInt { neg: false, mag: BigNat::from_u64(x) }
    }

    pub fn zero() -> (r: BigInt)
        ensures
            r.wf(),
            r@ == 0,
    {
        BigInt { neg: false, mag: BigNat::zero() }
    }

    pub fn one() -> (r: BigInt)
        ensures
            r.wf(),
            r@ == 1,
    {
        BigInt::from_u64(1)
    }

    /// Builds `-m` when `negative`, else `m`, keeping zero non-negative.
    fn signed(negative: bool, m: BigNat) -> (r: BigInt)
        requires
            m.wf(),
        ensures
            r.wf(),
            r@ == (if negative { -(m@ as int) } else { m@ as int }),
    {
        let z = m.is_zero();
        BigInt { neg: negative && !z, mag: m }
    }

    pub fn is_zero(&self) -> (r: bool)
        requires
            self.wf(),
        ensures
            r == (self@ == 0),
    {
        self.mag.is_zero()
    }

    pub fn is_negative(&self) -> (r: bool)
        requires
            self.wf(),
        ensures
            r == (self@ < 0),
    {
        self.neg
    }

    pub fn is_odd(&self) -> (r: bool)
        ensures
            r == (self@ % 2 != 0),
    {
        let r = self.mag.is_odd();
        proof {
            let m = self.mag@ as int;
            assert((-m) % 2 == 0 <==> m % 2 == 0) by {
                if m % 2 == 0 {
                    lemma_fundamental_div_mod_converse(-m, 2, -(m / 2), 0);
                } else {
                    lemma_fundamental_div_mod_converse(-m, 2, -(m / 2) - 1, 1);
                }
            }
        }
        r
    }

    /// A copy of the integer.
    pub fn dup(&self) -> (r: BigInt)
        ensures
            r.neg == self.neg,
            r.mag.bytes@ == self.mag.bytes@,
    {
        BigInt { neg: self.neg, mag: self.mag.dup() }
    }

    /// The magnitude `|self|`.
    pub fn abs(&self) -> (r: BigNat)
        requires
            self.wf(),
        ensures
            r.wf(),
            r@ as int == (if self@ < 0 { -self@ } else { self@ }),
    {
        self.mag.dup()
    }

    pub fn negate(&self) -> (r: BigInt)
        requires
            self.wf(),
        ensures
            r.wf(),
            r@ == -self@,
    {
        BigInt::signed(!self.neg, self.mag.dup())
    }

    pub fn add(&self, o: &BigInt) -> (r: BigInt)
        requires
            self.wf(),
            o.wf(),
        ensures
            r.wf(),
            r@ == self@ + o@,
    {
        if self.neg == o.neg {
            BigInt::signed(self.neg, self.mag.add(&o.mag))
        } else if o.mag.lt(&self.mag) {
            BigInt::signed(self.neg, self.mag.sub(&o.mag))
        } else {
            BigInt::signed(o.neg, o.mag.sub(&self.mag))
        }
    }

    pub fn sub(&self, o: &BigInt) -> (r: BigInt)
        requires
            self.wf(),
            o.wf(),
        ensures
            r.wf(),
            r@ == self@ - o@,
    {
        self.add(&o.negate())
    }

    pub fn mul(&self, o: &BigInt) -> (r: BigInt)
        requires
            self.wf(),
            o.wf(),
        ensures
            r.wf(),
            r@ == self@ * o@,
    {
        let m = self.mag.mul(&o.mag);
        let r = BigInt::signed(self.neg != o.neg, m);
        proof {
            let a = self.mag@ as int;
            let b = o.mag@ as int;
            assert((-a) * b == -(a * b)) by (nonlinear_arith);
            assert(a * (-b) == -(a * b)) by (nonlinear_arith);
            assert((-a) * (-b) == a * b) by (nonlinear_arith);
        }
        r
    }

    pub fn lt(&self, o: &BigInt) -> (r: bool)
        requires
            self.wf(),
            o.wf(),
        ensures
            r == (self@ < o@),
    {
        if self.neg && !o.neg {
            true
        } else if !self.neg && o.neg {
            false
        } else if self.neg {
            o.mag.lt(&self.mag)
        } else {
            self.mag.lt(&o.mag)
        }
    }

    pub fn equals(&self, o: &BigInt) -> (r: bool)
        requires
            self.wf(),
            o.wf(),
        ensures
            r == (self@ == o@),
    {
        !self.lt(o) && !o.lt(self)
    }

    /// Floor division by a positive divisor.
    pub fn div_floor(&self, m: &BigInt) -> (r: BigInt)
        requires
            self.wf(),
            m.wf(),
            m@ > 0,
        ensures
            r.wf(),
            r@ == self@ / m@,
    {
        let q = self.mag.div(&m.mag);
        let rm = self.mag.rem(&m.mag);
        proof {
            vstd::arithmetic::div_mod::lemma_fundamental_div_mod(self.mag@ as int, m@);
        }
        if !self.neg {
            BigInt::from_nat(q)
        } else if rm.is_zero() {
            proof {
                let (x, d, qq) = (self.mag@ as int, m@, q@ as int);
                assert(-x == (-qq) * d + 0) by (nonlinear_arith)
                    requires x == d * qq + 0;
                lemma_fundamental_div_mod_converse(self@, m@, -(q@ as int), 0);
            }
            BigInt::signed(true, q)
        } else {
            let q1 = q.add(&BigNat::from_u64(1));
            proof {
                let (x, d, qq, rr) = (self.mag@ as int, m@, q@ as int, rm@ as int);
                assert(-x == (-(qq + 1)) * d + (d - rr)) by (nonlinear_arith)
                    requires x == d * qq + rr;
                lemma_fundamental_div_mod_converse(self@, m@, -(q1@ as int), m@ - rm@);
            }
            BigInt::signed(true, q1)
        }
    }

    /// The non-negative remainder modulo a positive modulus.
    pub fn rem_euc(&self, m: &BigInt) -> (r: BigInt)
        requires
            self.wf(),
            m.wf(),
            m@ > 0,
        ensures
            r.wf(),
            r@ == self@ % m@,
            0 <= r@ < m@,
    {
        let q = self.mag.div(&m.mag);
        let rm = self.mag.rem(&m.mag);
        proof {
            vstd::arithmetic::div_mod::lemma_fundamental_div_mod(self.mag@ as int, m@);
        }
        if !self.neg {
            BigInt::from_nat(rm)
        } else if rm.is_zero() {
            proof {
                let (x, d, qq) = (self.mag@ as int, m@, q@ as int);
                assert(-x == (-qq) * d + 0) by (nonlinear_arith)
                    requires x == d * qq + 0;
                lemma_fundamental_div_mod_converse(self@, m@, -(q@ as int), 0);
            }
            BigInt::from_nat(rm)
        } else {
            let d = m.mag.sub(&rm);
            proof {
                let (x, dd, qq, rr) = (self.mag@ as int, m@, q@ as int, rm@ as int);
                assert(-x == (-qq - 1) * dd + (dd - rr)) by (nonlinear_arith)
                    requires x == dd * qq + rr;
                lemma_fundamental_div_mod_converse(self@, m@, -(q@ as int) - 1, d@ as int);
            }
            BigInt::from_nat(d)
        }
    }
}

} // verus!
