//! The signed integer: a magnitude paired with a sign, zero always positive.
use vstd::prelude::*;
use core::cmp::Ordering;
use crate::biguint::BigUInt;
use vstd::arithmetic::power::{pow, lemma_pow0, lemma_pow_adds, lemma_pow1};
use vstd::arithmetic::power2::pow2;
use crate::words::{pw, lemma_pw_pos};

verus! {

#[derive(PartialEq, Eq, Clone, Copy, Debug, Structural)]
pub enum Sign {
    Plus,
    Minus,
}

impl Sign {
    /// The opposite sign.
    pub fn neg(self) -> (r: Sign)
        ensures
            r != self,
    {
        match self {
            Sign::Plus => Sign::Minus,
            Sign::Minus => Sign::Plus,
        }
    }
}

/// An arbitrary-precision signed integer.
#[derive(Clone, Debug, PartialEq, Eq)]
pub struct BigInt {
    pub inner: BigUInt,
    pub sign: Sign,
}

/// A magnitude with a sign, as an integer.
pub open spec fn signed(m: nat, s: Sign) -> int {
    match s {
        Sign::Plus => m as int,
        Sign::Minus => -(m as int),
    }
}

/// The absolute value of an integer.
pub open spec fn abs(x: int) -> nat {
    if x < 0 {
        (-x) as nat
    } else {
        x as nat
    }
}

/// Division truncating toward zero.
pub open spec fn trunc_div(a: int, b: int) -> int {
    let q = (abs(a) / abs(b)) as int;
    if (a < 0) == (b < 0) {
        q
    } else {
        -q
    }
}

/// The remainder of truncating division: it takes the dividend's sign.
pub open spec fn trunc_rem(a: int, b: int) -> int {
    let r = (abs(a) % abs(b)) as int;
    if a < 0 {
        -r
    } else {
        r
    }
}

impl View for BigInt {
    type V = int;

    open spec fn view(&self) -> int {
        signed(self.inner@, self.sign)
    }
}

/// The power of a negated base.
pub proof fn lemma_pow_neg(x: int, e: nat)
    ensures
        pow(-x, e) == if e % 2 == 0 { pow(x, e) } else { -pow(x, e) },
    decreases e,
{
    if e == 0 {
        lemma_pow0(x);
        lemma_pow0(-x);
    } else {
        lemma_pow_neg(x, (e - 1) as nat);
        lemma_pow_adds(x, 1, (e - 1) as nat);
        lemma_pow_adds(-x, 1, (e - 1) as nat);
        lemma_pow1(x);
        lemma_pow1(-x);
        assert((1 + (e - 1)) as nat == e);
        let p = pow(x, (e - 1) as nat);
        assert((-x) * p == -(x * p)) by (nonlinear_arith);
        assert((-x) * (-p) == x * p) by (nonlinear_arith);
    }
}

impl BigInt {
    /// The representation invariant: a normalized magnitude, and zero is positive.
    pub open spec fn wf(&self) -> bool {
        &&& self.inner.wf()
        &&& (self.inner@ == 0 ==> self.sign == Sign::Plus)
    }

    /// Pairs a magnitude with a sign as given.
    pub fn from_parts(inner: BigUInt, sign: Sign) -> (r: BigInt)
        ensures
            r.inner == inner,
            r.sign == sign,
    {
        BigInt { inner, sign }
    }

    /// Forces the sign of a zero magnitude to `Plus`.
    pub fn fix_zero(self) -> (r: BigInt)
        requires
            self.inner.wf(),
        ensures
            r.wf(),
            r.inner == self.inner,
            r.sign == (if self.inner@ == 0 { Sign::Plus } else { self.sign }),
            r@ == self@,
    {
        if self.inner.is_zero() {
            BigInt { inner: self.inner, sign: Sign::Plus }
        } else {
            self
        }
    }

    pub fn from_biguint(value: BigUInt) -> (r: BigInt)
        requires
            value.wf(),
        ensures
            r.wf(),
            r.inner == value,
            r.sign == Sign::Plus,
            r@ == value@,
    {
        BigInt { inner: value, sign: Sign::Plus }
    }

    pub fn from_u64(value: u64) -> (r: BigInt)
        ensures
            r.wf(),
            r@ == value as int,
    {
        BigInt { inner: BigUInt::from_u64(value), sign: Sign::Plus }
    }

    pub fn from_i64(value: i64) -> (r: BigInt)
        ensures
            r.wf(),
            r@ == value as int,
    {
        let sign = if value >= 0 { Sign::Plus } else { Sign::Minus };
        let m: u64 = if value >= 0 { value as u64 } else { (-(value as i128)) as u64 };
        BigInt { inner: BigUInt::from_u64(m), sign }
    }

    pub fn from_i32(value: i32) -> (r: BigInt)
        ensures
            r.wf(),
            r@ == value as int,
    {
        BigInt::from_i64(value as i64)
    }

    pub fn from_u32(value: u32) -> (r: BigInt)
        ensures
            r.wf(),
            r@ == value as int,
    {
        BigInt::from_u64(value as u64)
    }

    pub fn from_u8(value: u8) -> (r: BigInt)
        ensures
            r.wf(),
            r@ == value as int,
    {
        BigInt::from_u64(value as u64)
    }

    pub fn from_i8(value: i8) -> (r: BigInt)
        ensures
            r.wf(),
            r@ == value as int,
    {
        BigInt::from_i64(value as i64)
    }

    /// A non-negative value from its little-endian words.
    pub fn from_vec(value: Vec<u64>) -> (r: BigInt)
        ensures
            r.wf(),
            r@ == crate::words::val(value@) as int,
    {
        BigInt { inner: BigUInt::from_vec(value), sign: Sign::Plus }
    }

    pub fn is_zero(&self) -> (r: bool)
        requires
            self.wf(),
        ensures
            r == (self@ == 0),
    {
        self.inner.is_zero()
    }

    /// Negation: zero stays as it is, any other value changes sign.
    pub fn neg(self) -> (r: BigInt)
        requires
            self.wf(),
        ensures
            r.wf(),
            r@ == -self@,
    {
        if self.inner.is_zero() {
            self
        } else {
            BigInt { inner: self.inner, sign: self.sign.neg() }
        }
    }

    /// Addition by the sign table: like signs add magnitudes, unlike signs subtract
    /// the smaller magnitude from the larger.
    pub fn add(self, rhs: BigInt) -> (r: BigInt)
        requires
            self.wf(),
            rhs.wf(),
        ensures
            r.wf(),
            r@ == self@ + rhs@,
        decreases (if self.sign == Sign::Minus && rhs.sign == Sign::Plus { 1int } else { 0int }),
    {
        match (self.sign, rhs.sign) {
            (Sign::Plus, Sign::Plus) => BigInt { inner: self.inner.add(rhs.inner), sign: Sign::Plus },
            (Sign::Minus, Sign::Minus) => BigInt { inner: self.inner.add(rhs.inner), sign: Sign::Minus },
            (Sign::Plus, Sign::Minus) => {
                if self.inner.ge(&rhs.inner) {
                    BigInt { inner: self.inner.sub(rhs.inner), sign: Sign::Plus }
                } else {
                    BigInt { inner: rhs.inner.sub(self.inner), sign: Sign::Minus }
                }
            },
            (Sign::Minus, Sign::Plus) => rhs.add(self),
        }
    }

    /// Subtraction: addition of the negated right operand.
    pub fn sub(self, rhs: BigInt) -> (r: BigInt)
        requires
            self.wf(),
            rhs.wf(),
        ensures
            r.wf(),
            r@ == self@ - rhs@,
    {
        self.add(rhs.neg())
    }

    /// The product of the magnitudes, negative exactly when the signs differ.
    pub fn mul(self, rhs: BigInt) -> (r: BigInt)
        requires
            self.wf(),
            rhs.wf(),
        ensures
            r.wf(),
            r@ == self@ * rhs@,
    {
        let sign = if self.sign == rhs.sign { Sign::Plus } else { Sign::Minus };
        let ghost a = self.inner@ as int;
        let ghost b = rhs.inner@ as int;
        let r = BigInt { inner: self.inner.mul(rhs.inner), sign }.fix_zero();
        proof {
            assert((-a) * (-b) == a * b) by (nonlinear_arith);
            assert((-a) * b == -(a * b)) by (nonlinear_arith);
            assert(a * (-b) == -(a * b)) by (nonlinear_arith);
        }
        r
    }

    /// Truncating division: the quotient rounds toward zero and the remainder
    /// takes the dividend's sign.
    #[verifier::spinoff_prover]
    #[verifier::rlimit(30)]
    pub fn div_rem(self, rhs: BigInt) -> (r: (BigInt, BigInt))
        requires
            self.wf(),
            rhs.wf(),
            rhs@ != 0,
        ensures
            r.0.wf(),
            r.1.wf(),
            r.0@ == trunc_div(self@, rhs@),
            r.1@ == trunc_rem(self@, rhs@),
            r.0@ * rhs@ + r.1@ == self@,
            abs(r.1@) < abs(rhs@),
    {
        let ghost a = self@;
        let ghost b = rhs@;
        let ghost am = self.inner@ as int;
        let ghost bm = rhs.inner@ as int;
        let (div, rem) = self.inner.div_rem(rhs.inner);
        let ghost q = div@ as int;
        let ghost m = rem@ as int;
        let r = match (self.sign, rhs.sign) {
            (Sign::Plus, Sign::Plus) => (
                BigInt { inner: div, sign: Sign::Plus },
                BigInt { inner: rem, sign: Sign::Plus },
            ),
            (Sign::Plus, Sign::Minus) => (
                BigInt { inner: div, sign: Sign::Minus }.fix_zero(),
                BigInt { inner: rem, sign: Sign::Plus },
            ),
            (Sign::Minus, Sign::Plus) => (
                BigInt { inner: div, sign: Sign::Minus }.fix_zero(),
                BigInt { inner: rem, sign: Sign::Minus }.fix_zero(),
            ),
            (Sign::Minus, Sign::Minus) => (
                BigInt { inner: div, sign: Sign::Plus },
                BigInt { inner: rem, sign: Sign::Minus }.fix_zero(),
            ),
        };
        proof {
            assert(q * bm + m == am);
            assert((-q) * (-bm) == q * bm) by (nonlinear_arith);
            assert((-q) * bm == -(q * bm)) by (nonlinear_arith);
            assert(q * (-bm) == -(q * bm)) by (nonlinear_arith);
        }
        r
    }

    /// The power of the magnitude; negative exactly for a negative base and an odd exponent.
    pub fn pow(self, exponent: u64) -> (r: BigInt)
        requires
            self.wf(),
        ensures
            r.wf(),
            r@ == pow(self@, exponent as nat),
    {
        let sign = if exponent % 2 == 0 { Sign::Plus } else { self.sign };
        let ghost x = self.inner@ as int;
        let inner = self.inner.pow(exponent);
        proof {
            lemma_pow_neg(x, exponent as nat);
            if x == 0 && exponent > 0 {
                lemma_pow_adds(0, 1, (exponent - 1) as nat);
                lemma_pow1(0);
            }
        }
        BigInt { inner, sign }.fix_zero()
    }

    /// Shifts the magnitude left; the sign is kept.
    pub fn shl(self, rhs: u32) -> (r: BigInt)
        requires
            self.wf(),
        ensures
            r.wf(),
            r.inner@ == self.inner@ * pow2(rhs as nat),
            r@ == self@ * pow2(rhs as nat),
    {
        let ghost x = self.inner@ as int;
        let inner = self.inner.shl(rhs);
        proof {
            vstd::arithmetic::power2::lemma_pow2_pos(rhs as nat);
            assert((-x) * pow2(rhs as nat) == -(x * pow2(rhs as nat))) by (nonlinear_arith);
            assert(x == 0 ==> x * pow2(rhs as nat) == 0);
            assert(x > 0 ==> x * pow2(rhs as nat) > 0) by (nonlinear_arith)
                requires pow2(rhs as nat) > 0;
        }
        BigInt { inner, sign: self.sign }
    }

    /// Shifts the magnitude right; the sign is kept unless the magnitude becomes zero.
    pub fn shr(self, rhs: u32) -> (r: BigInt)
        requires
            self.wf(),
        ensures
            r.wf(),
            r.inner@ == self.inner@ / pow2(rhs as nat),
            r@ == trunc_div(self@, pow2(rhs as nat) as int),
    {
        let inner = self.inner.shr(rhs);
        proof {
            vstd::arithmetic::power2::lemma_pow2_pos(rhs as nat);
        }
        BigInt { inner, sign: self.sign }.fix_zero()
    }

    /// Orders by sign first, then by magnitude.
    pub fn cmp(&self, other: &BigInt) -> (r: Ordering)
        requires
            self.wf(),
            other.wf(),
        ensures
            (r == Ordering::Less) == (self@ < other@),
            (r == Ordering::Equal) == (self@ == other@),
            (r == Ordering::Greater) == (self@ > other@),
    {
        match (self.sign, other.sign) {
            (Sign::Plus, Sign::Minus) => Ordering::Greater,
            (Sign::Minus, Sign::Plus) => Ordering::Less,
            (Sign::Plus, Sign::Plus) => self.inner.cmp(&other.inner),
            (Sign::Minus, Sign::Minus) => other.inner.cmp(&self.inner),
        }
    }

    /// A copy of the value.
    pub fn copy(&self) -> (r: BigInt)
        ensures
            r.inner.0@ == self.inner.0@,
            r.sign == self.sign,
            r@ == self@,
    {
        BigInt { inner: self.inner.copy(), sign: self.sign }
    }

    /// Shifts the magnitude left by whole words; the sign is kept.
    pub fn shl_words(self, words: usize) -> (r: BigInt)
        requires
            self.wf(),
        ensures
            r.wf(),
            r@ == self@ * pw(words as nat),
    {
        let ghost x = self.inner@ as int;
        let inner = crate::helpers::shl_n64(self.inner, words);
        proof {
            lemma_pw_pos(words as nat);
            assert((-x) * pw(words as nat) == -(x * pw(words as nat))) by (nonlinear_arith);
            assert(x > 0 ==> x * pw(words as nat) > 0) by (nonlinear_arith)
                requires pw(words as nat) > 0;
        }
        BigInt { inner, sign: self.sign }
    }

    /// The quotient of truncating division.
    pub fn div(self, rhs: BigInt) -> (r: BigInt)
        requires
            self.wf(),
            rhs.wf(),
            rhs@ != 0,
        ensures
            r.wf(),
            r@ == trunc_div(self@, rhs@),
    {
        let (q, _) = self.div_rem(rhs);
        q
    }

    /// The remainder of truncating division: it takes the dividend's sign.
    pub fn rem(self, rhs: BigInt) -> (r: BigInt)
        requires
            self.wf(),
            rhs.wf(),
            rhs@ != 0,
        ensures
            r.wf(),
            r@ == trunc_rem(self@, rhs@),
    {
        let (_, m) = self.div_rem(rhs);
        m
    }

    /// Adds in place.
    pub fn add_assign(&mut self, rhs: BigInt)
        requires
            old(self).wf(),
            rhs.wf(),
        ensures
            final(self).wf(),
            final(self)@ == old(self)@ + rhs@,
    {
        let mut cur = BigInt::from_u64(0);
        core::mem::swap(self, &mut cur);
        *self = cur.add(rhs);
    }

    /// Subtracts in place.
    pub fn sub_assign(&mut self, rhs: BigInt)
        requires
            old(self).wf(),
            rhs.wf(),
        ensures
            final(self).wf(),
            final(self)@ == old(self)@ - rhs@,
    {
        let mut cur = BigInt::from_u64(0);
        core::mem::swap(self, &mut cur);
        *self = cur.sub(rhs);
    }

    /// Multiplies in place.
    pub fn mul_assign(&mut self, rhs: BigInt)
        requires
            old(self).wf(),
            rhs.wf(),
        ensures
            final(self).wf(),
            final(self)@ == old(self)@ * rhs@,
    {
        let mut cur = BigInt::from_u64(0);
        core::mem::swap(self, &mut cur);
        *self = cur.mul(rhs);
    }

    /// Divides in place, truncating toward zero.
    pub fn div_assign(&mut self, rhs: BigInt)
        requires
            old(self).wf(),
            rhs.wf(),
            rhs@ != 0,
        ensures
            final(self).wf(),
            final(self)@ == trunc_div(old(self)@, rhs@),
    {
        let mut cur = BigInt::from_u64(0);
        core::mem::swap(self, &mut cur);
        *self = cur.div(rhs);
    }

    /// Replaces the value by the remainder of truncating division.
    pub fn rem_assign(&mut self, rhs: BigInt)
        requires
            old(self).wf(),
            rhs.wf(),
            rhs@ != 0,
        ensures
            final(self).wf(),
            final(self)@ == trunc_rem(old(self)@, rhs@),
    {
        let mut cur = BigInt::from_u64(0);
        core::mem::swap(self, &mut cur);
        *self = cur.rem(rhs);
    }

    /// Shifts the magnitude left in place.
    pub fn shl_assign(&mut self, rhs: u32)
        requires
            old(self).wf(),
        ensures
            final(self).wf(),
            final(self)@ == old(self)@ * pow2(rhs as nat),
    {
        let mut cur = BigInt::from_u64(0);
        core::mem::swap(self, &mut cur);
        *self = cur.shl(rhs);
    }

    /// Shifts the magnitude right in place.
    pub fn shr_assign(&mut self, rhs: u32)
        requires
            old(self).wf(),
        ensures
            final(self).wf(),
            final(self)@ == trunc_div(old(self)@, pow2(rhs as nat) as int),
    {
        let mut cur = BigInt::from_u64(0);
        core::mem::swap(self, &mut cur);
        *self = cur.shr(rhs);
    }
}

} // verus!
