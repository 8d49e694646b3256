//! The unsigned magnitude: a normalized little-endian sequence of 64-bit words.
use vstd::prelude::*;
use core::cmp::Ordering;
use crate::words::{
    base, pw, val, normalized, lemma_pw_pos, lemma_pw_adds, lemma_val_push, lemma_val_bound,
    lemma_val_lower, lemma_val_take_prefix, lemma_val_cmp_at, lemma_pw_is_pow2, seq_bit_len,
    lemma_bit_len_word, lemma_seq_bit_len_bounds, bit, lemma_val_update, lemma_bit_of_val,
};
use vstd::bits::{lemma_u64_shr_is_div, lemma_u64_shl_is_mul, lemma_u64_pow2_no_overflow};
use crate::helpers::{mul_helper, shl_n64, shr_n64, shl64, shr64};
use vstd::arithmetic::power2::{pow2, lemma_pow2_adds, lemma_pow2_pos, lemma2_to64};
use vstd::arithmetic::power::{pow, lemma_pow_adds, lemma_pow_multiplies, lemma_pow0, lemma_pow1};
use vstd::arithmetic::div_mod::{lemma_div_denominator, lemma_fundamental_div_mod_converse};

verus! {

/// The word of `s` at index `i`, with missing words read as zero.
pub open spec fn word(s: Seq<u64>, i: int) -> nat {
    if 0 <= i < s.len() {
        s[i] as nat
    } else {
        0
    }
}

/// The value of the lowest `i` words of `s` (all of `s` once `i` passes its length).
pub open spec fn low_val(s: Seq<u64>, i: nat) -> nat {
    if i <= s.len() {
        val(s.take(i as int))
    } else {
        val(s)
    }
}

pub proof fn lemma_low_val_step(s: Seq<u64>, i: nat)
    ensures
        low_val(s, i + 1) == low_val(s, i) + word(s, i as int) * pw(i),
{
    if i < s.len() {
        lemma_val_take_prefix(s, i);
    } else if i == s.len() {
        assert(s.take(i as int) =~= s);
    }
}

pub proof fn lemma_low_val_full(s: Seq<u64>, i: nat)
    requires
        i >= s.len(),
    ensures
        low_val(s, i) == val(s),
{
    if i == s.len() {
        assert(s.take(i as int) =~= s);
    }
}

pub proof fn lemma_low_val_zero(s: Seq<u64>)
    ensures
        low_val(s, 0) == 0,
{
    assert(s.take(0).len() == 0);
}

/// `pw` grows with its exponent.
pub proof fn lemma_pw_mono(a: nat, b: nat)
    requires
        a <= b,
    ensures
        pw(a) <= pw(b),
{
    lemma_pw_adds(a, (b - a) as nat);
    lemma_pw_pos((b - a) as nat);
    lemma_pw_pos(a);
    assert(pw(a) * 1 <= pw(a) * pw((b - a) as nat)) by (nonlinear_arith)
        requires
            pw((b - a) as nat) >= 1,
    ;
}

/// Of two normalized sequences, the shorter has the smaller value.
pub proof fn lemma_len_order(s: Seq<u64>, t: Seq<u64>)
    requires
        normalized(t),
        s.len() < t.len(),
    ensures
        val(s) < val(t),
{
    lemma_val_bound(s);
    lemma_val_lower(t);
    lemma_pw_mono(s.len(), (t.len() - 1) as nat);
}

/// A multiple of `2 * p` has a clear bit at `p`'s place, and stays a multiple of `p` with `p` added.
pub proof fn lemma_mod_double(q: nat, p: nat)
    requires
        p > 0,
    ensures
        q % (p * 2) == 0 ==> (q / p) % 2 == 0 && q % p == 0 && (q + p) % p == 0,
{
    if q % (p * 2) == 0 {
        let t = q / (p * 2);
        vstd::arithmetic::div_mod::lemma_fundamental_div_mod(q as int, (p * 2) as int);
        assert(q == p * (2 * t)) by (nonlinear_arith)
            requires q == (p * 2) * t + 0;
        vstd::arithmetic::div_mod::lemma_div_multiples_vanish((2 * t) as int, p as int);
        vstd::arithmetic::div_mod::lemma_mod_multiples_basic((2 * t) as int, p as int);
        vstd::arithmetic::div_mod::lemma_mod_multiples_basic((2 * t + 1) as int, p as int);
        assert(q + p == (2 * t + 1) * p) by (nonlinear_arith)
            requires q == p * (2 * t);
        assert((2 * t) * p == p * (2 * t)) by (nonlinear_arith);
    }
}

/// An arbitrary-precision unsigned integer, least significant word first.
#[derive(Clone, Debug, PartialEq, Eq)]
pub struct BigUInt(pub Vec<u64>);

impl View for BigUInt {
    type V = nat;

    open spec fn view(&self) -> nat {
        val(self.0@)
    }
}

/// Drops most-significant zero words.
pub fn trim(v: &mut Vec<u64>)
    ensures
        normalized(final(v)@),
        val(final(v)@) == val(old(v)@),
        final(v)@.len() <= old(v)@.len(),
        normalized(old(v)@) ==> final(v)@ == old(v)@,
{
    let ghost orig = v@;
    loop
        invariant
            val(v@) == val(orig),
            v@.len() <= orig.len(),
            normalized(orig) ==> v@ == orig,
        ensures
            normalized(v@),
        decreases v.len(),
    {
        if v.len() == 0 {
            break;
        }
        if v[v.len() - 1] != 0 {
            break;
        }
        let ghost before = v@;
        let _ = v.pop();
        proof {
            assert(before =~= v@.push(0));
            lemma_val_push(v@, 0);
            let p = pw(v@.len());
            assert(0 * p == 0) by (nonlinear_arith);
            assert(val(before) == val(v@));
        }
    }
}

impl BigUInt {
    /// The representation invariant.
    pub open spec fn wf(&self) -> bool {
        normalized(self.0@)
    }

    pub fn zero() -> (r: BigUInt)
        ensures
            r.wf(),
            r@ == 0,
            r.0@.len() == 0,
    {
        BigUInt(Vec::new())
    }

    /// Zero is the empty sequence, any other value a single word.
    pub fn from_u64(value: u64) -> (r: BigUInt)
        ensures
            r.wf(),
            r@ == value,
            value == 0 ==> r.0@.len() == 0,
            value != 0 ==> r.0@ == seq![value],
    {
        if value == 0 {
            BigUInt(Vec::new())
        } else {
            let mut v: Vec<u64> = Vec::new();
            v.push(value);
            proof {
                lemma_val_push(Seq::empty(), value);
                assert(v@ =~= Seq::empty().push(value));
                assert(pw(0) == 1);
                assert(val(Seq::<u64>::empty()) == 0);
                assert(value as nat * 1 == value as nat);
            }
            BigUInt(v)
        }
    }

    pub fn from_u32(value: u32) -> (r: BigUInt)
        ensures
            r.wf(),
            r@ == value,
    {
        BigUInt::from_u64(value as u64)
    }

    pub fn from_u8(value: u8) -> (r: BigUInt)
        ensures
            r.wf(),
            r@ == value,
    {
        BigUInt::from_u64(value as u64)
    }

    /// A value from its little-endian words; zero words on top are dropped.
    pub fn from_vec(value: Vec<u64>) -> (r: BigUInt)
        ensures
            r.wf(),
            r@ == val(value@),
            normalized(value@) ==> r.0@ == value@,
    {
        let mut v = value;
        trim(&mut v);
        BigUInt(v)
    }

    /// A copy of the value.
    pub fn copy(&self) -> (r: BigUInt)
        ensures
            r.0@ == self.0@,
            r@ == self@,
    {
        let v = self.0.clone();
        proof {
            assert(v@ =~= self.0@);
        }
        BigUInt(v)
    }

    pub fn is_zero(&self) -> (r: bool)
        requires
            self.wf(),
        ensures
            r == (self@ == 0),
    {
        proof {
            if self.0@.len() > 0 {
                lemma_val_lower(self.0@);
                lemma_pw_pos((self.0@.len() - 1) as nat);
            }
        }
        self.0.len() == 0
    }

    pub fn divisible_by_2(&self) -> (r: bool)
        ensures
            r == (self@ % 2 == 0),
    {
        if self.0.len() == 0 {
            true
        } else {
            proof {
                crate::words::lemma_val_first(self.0@);
                let x = val(self.0@.skip(1));
                let w = self.0@[0] as nat;
                assert((w + base() * x) % 2 == w % 2) by (nonlinear_arith)
                    requires base() == 0x1_0000_0000_0000_0000;
            }
            self.0[0] % 2 == 0
        }
    }

    /// Compares by length first, then word by word from the most significant.
    pub fn cmp(&self, other: &BigUInt) -> (r: Ordering)
        requires
            self.wf(),
            other.wf(),
        ensures
            (r == Ordering::Less) == (self@ < other@),
            (r == Ordering::Equal) == (self@ == other@),
            (r == Ordering::Greater) == (self@ > other@),
    {
        let a = &self.0;
        let b = &other.0;
        if a.len() < b.len() {
            proof {
                lemma_len_order(a@, b@);
            }
            return Ordering::Less;
        }
        if a.len() > b.len() {
            proof {
                lemma_len_order(b@, a@);
            }
            return Ordering::Greater;
        }
        let mut i: usize = a.len();
        while i > 0
            invariant
                i <= a.len(),
                a.len() == b.len(),
                a@ == self.0@,
                b@ == other.0@,
                a@.skip(i as int) == b@.skip(i as int),
            decreases i,
        {
            let x = a[i - 1];
            let y = b[i - 1];
            if x < y {
                proof {
                    lemma_val_cmp_at(a@, b@, i - 1);
                }
                return Ordering::Less;
            }
            if x > y {
                proof {
                    lemma_val_cmp_at(b@, a@, i - 1);
                }
                return Ordering::Greater;
            }
            proof {
                assert(a@.skip(i - 1) =~= seq![x] + a@.skip(i as int));
                assert(b@.skip(i - 1) =~= seq![y] + b@.skip(i as int));
            }
            i = i - 1;
        }
        proof {
            assert(a@ =~= a@.skip(0));
            assert(b@ =~= b@.skip(0));
        }
        Ordering::Equal
    }

    /// `self >= other`.
    pub fn ge(&self, other: &BigUInt) -> (r: bool)
        requires
            self.wf(),
            other.wf(),
        ensures
            r == (self@ >= other@),
    {
        match self.cmp(other) {
            Ordering::Less => false,
            _ => true,
        }
    }

    /// Word-wise addition with carry propagation; a final carry becomes a new top word.
    pub fn add(self, rhs: BigUInt) -> (r: BigUInt)
        requires
            self.wf(),
            rhs.wf(),
        ensures
            r.wf(),
            r@ == self@ + rhs@,
    {
        let a = &self.0;
        let b = &rhs.0;
        let n: usize = if a.len() >= b.len() { a.len() } else { b.len() };
        let mut out: Vec<u64> = Vec::new();
        let mut carry: u64 = 0;
        let mut i: usize = 0;
        while i < n
            invariant
                a@ == self.0@,
                b@ == rhs.0@,
                n == if a.len() >= b.len() { a.len() } else { b.len() },
                i <= n,
                out@.len() == i,
                carry <= 1,
                val(out@) + carry * pw(i as nat) == low_val(a@, i as nat) + low_val(b@, i as nat),
            decreases n - i,
        {
            let x: u64 = if i < a.len() { a[i] } else { 0 };
            let y: u64 = if i < b.len() { b[i] } else { 0 };
            let t: u128 = x as u128 + y as u128 + carry as u128;
            let w: u64 = (t % 0x1_0000_0000_0000_0000u128) as u64;
            let c: u64 = (t / 0x1_0000_0000_0000_0000u128) as u64;
            proof {
                lemma_low_val_step(a@, i as nat);
                lemma_low_val_step(b@, i as nat);
                lemma_val_push(out@, w);
                let p = pw(i as nat);
                assert(pw(i as nat + 1) == base() * p);
                assert(t == w + c * base());
                assert(c * (base() * p) == (c * base()) * p) by (nonlinear_arith);
                assert((w + c * base()) * p == w * p + (c * base()) * p) by (nonlinear_arith);
                assert((x + y + carry) * p == x * p + y * p + carry * p) by (nonlinear_arith);
            }
            out.push(w);
            carry = c;
            i = i + 1;
        }
        proof {
            lemma_low_val_full(a@, n as nat);
            lemma_low_val_full(b@, n as nat);
        }
        if carry != 0 {
            proof {
                lemma_val_push(out@, 1);
            }
            out.push(1);
        } else {
            proof {
                if n > 0 && out@.last() == 0 {
                    let d = out@.drop_last();
                    lemma_val_push(d, 0);
                    assert(d.push(0) =~= out@);
                    lemma_val_bound(d);
                    if a@.len() == n {
                        lemma_val_lower(a@);
                    } else {
                        lemma_val_lower(b@);
                    }
                    assert(0 * pw(d.len()) == 0);
                }
            }
        }
        BigUInt(out)
    }

    /// Word-wise subtraction with borrow propagation, then trimming.
    pub fn sub(self, rhs: BigUInt) -> (r: BigUInt)
        requires
            self.wf(),
            rhs.wf(),
            self@ >= rhs@,
        ensures
            r.wf(),
            r@ == self@ - rhs@,
    {
        let a = &self.0;
        let b = &rhs.0;
        proof {
            if b@.len() > a@.len() {
                lemma_len_order(a@, b@);
            }
        }
        let n: usize = a.len();
        let mut out: Vec<u64> = Vec::new();
        let mut borrow: u64 = 0;
        let mut i: usize = 0;
        while i < n
            invariant
                a@ == self.0@,
                b@ == rhs.0@,
                n == a.len(),
                b.len() <= n,
                i <= n,
                out@.len() == i,
                borrow <= 1,
                val(out@) + low_val(b@, i as nat) == low_val(a@, i as nat) + borrow * pw(i as nat),
            decreases n - i,
        {
            let x: u64 = a[i];
            let y: u64 = if i < b.len() { b[i] } else { 0 };
            let t: u128 = x as u128 + 0x1_0000_0000_0000_0000u128 - y as u128 - borrow as u128;
            let w: u64 = (t % 0x1_0000_0000_0000_0000u128) as u64;
            let nb: u64 = if t >= 0x1_0000_0000_0000_0000u128 { 0 } else { 1 };
            proof {
                lemma_low_val_step(a@, i as nat);
                lemma_low_val_step(b@, i as nat);
                lemma_val_push(out@, w);
                let p = pw(i as nat);
                assert(pw(i as nat + 1) == base() * p);
                assert(w + y + borrow == x + nb * base());
                assert(nb * (base() * p) == (nb * base()) * p) by (nonlinear_arith);
                assert((w + y + borrow) * p == w * p + y * p + borrow * p) by (nonlinear_arith);
                assert((x + nb * base()) * p == x * p + (nb * base()) * p) by (nonlinear_arith);
            }
            out.push(w);
            borrow = nb;
            i = i + 1;
        }
        proof {
            lemma_low_val_full(a@, n as nat);
            lemma_low_val_full(b@, n as nat);
            lemma_val_bound(out@);
            if borrow == 1 {
                assert(val(out@) >= pw(n as nat));
            }
        }
        trim(&mut out);
        BigUInt(out)
    }

    /// The number of binary digits of the value.
    pub fn bits_num(&self) -> (r: u128)
        requires
            self.wf(),
        ensures
            r == seq_bit_len(self.0@),
            self@ == 0 ==> r == 0,
            self@ > 0 ==> pow2((r - 1) as nat) <= self@ < pow2(r as nat),
    {
        let n = self.0.len();
        if n == 0 {
            0
        } else {
            let last = self.0[n - 1];
            proof {
                lemma_bit_len_word(last);
                lemma_seq_bit_len_bounds(self.0@);
                lemma_val_lower(self.0@);
                lemma_pw_pos((n - 1) as nat);
            }
            let rest: u32 = 64 - last.leading_zeros();
            (n as u128 - 1) * 64 + rest as u128
        }
    }

    /// Sets bit `b` of word `sect`, adding zero words on top as needed.
    #[verifier::spinoff_prover]
    #[verifier::rlimit(30)]
    fn set_bit_at(&mut self, sect: usize, b: u32)
        requires
            old(self).wf(),
            b < 64,
            sect < usize::MAX,
        ensures
            final(self).wf(),
            final(self)@ == if bit(old(self)@, 64 * sect as nat + b as nat) {
                old(self)@
            } else {
                old(self)@ + pow2(64 * sect as nat + b as nat)
            },
    {
        let ghost s0 = self.0@;
        let n0 = self.0.len();
        while self.0.len() < sect + 1
            invariant
                sect < usize::MAX,
                n0 == s0.len(),
                self.0@.len() >= n0,
                self.0@.len() <= if n0 > sect + 1 { n0 as int } else { sect + 1 },
                self.0@.take(n0 as int) == s0,
                forall|i: int| n0 <= i < self.0@.len() ==> self.0@[i] == 0,
                val(self.0@) == val(s0),
            decreases sect + 1 - self.0@.len(),
        {
            proof {
                lemma_val_push(self.0@, 0);
                assert(0 * pw(self.0@.len()) == 0);
                assert(self.0@.push(0).take(n0 as int) =~= self.0@.take(n0 as int));
            }
            self.0.push(0);
        }
        let ghost padded = self.0@;
        let w = self.0[sect];
        let bv = b as u64;
        let w2 = w | (1u64 << bv);
        proof {
            lemma_u64_pow2_no_overflow(b as nat);
            lemma_u64_shl_is_mul(1, bv);
            lemma_u64_shr_is_div(w, bv);
            let one = 1u64 << bv;
            assert((w >> bv) & 1 == 1 ==> w | one == w) by (bit_vector)
                requires one == 1u64 << bv, bv < 64;
            assert((w >> bv) & 1 != 1 ==> w | one == w + one) by (bit_vector)
                requires one == 1u64 << bv, bv < 64;
            assert(((w >> bv) & 1 == 1) == ((w >> bv) % 2 == 1)) by (bit_vector);
            assert(w | one != 0) by (bit_vector)
                requires one == 1u64 << bv, bv < 64;
            lemma_bit_of_val(padded, sect as int, b as nat);
            lemma_val_update(padded, sect as int, w2);
            lemma_pw_is_pow2(sect as nat);
            lemma_pow2_adds(64 * sect as nat, b as nat);
            assert(w2 as nat * pw(sect as nat) == w as nat * pw(sect as nat) + (w2 - w) * pw(sect as nat))
                by (nonlinear_arith);
        }
        self.0.set(sect, w2);
        proof {
            assert(self.0@ == padded.update(sect as int, w2));
            assert(val(padded) == val(s0));
            let p = pw(sect as nat);
            let q = pow2(b as nat);
            if bit(val(s0), 64 * sect as nat + b as nat) {
                assert(w2 == w);
            } else {
                assert(w2 as nat == w as nat + q);
                assert(q * p == p * q) by (nonlinear_arith);
                assert((w as nat + q) * p == w as nat * p + q * p) by (nonlinear_arith);
            }
            if self.0@.len() - 1 != sect {
                assert(self.0@.len() == n0);
                assert(self.0@.last() == s0.last());
            }
        }
    }

    /// Sets bit `n` of the value.
    pub fn set_bit(&mut self, n: usize)
        requires
            old(self).wf(),
        ensures
            final(self).wf(),
            final(self)@ == if bit(old(self)@, n as nat) { old(self)@ } else { old(self)@ + pow2(n as nat) },
    {
        self.set_bit_at(n / 64, (n % 64) as u32);
    }

    /// Shifts left by `words` whole words and then `bits < 64` bits.
    pub fn shift_left(self, words: usize, bits: u32) -> (r: BigUInt)
        requires
            self.wf(),
            bits < 64,
        ensures
            r.wf(),
            r@ == self@ * pow2(64 * words as nat + bits as nat),
    {
        let ghost v = self@;
        let t = shl_n64(self, words);
        let r = shl64(t, bits);
        proof {
            lemma_pw_is_pow2(words as nat);
            lemma_pow2_adds(64 * words as nat, bits as nat);
            assert(v * pw(words as nat) * pow2(bits as nat) == v * (pw(words as nat) * pow2(bits as nat)))
                by (nonlinear_arith);
        }
        r
    }

    /// Shifts left by `rhs` bits: multiplication by `2^rhs`.
    pub fn shl(self, rhs: u32) -> (r: BigUInt)
        requires
            self.wf(),
        ensures
            r.wf(),
            r@ == self@ * pow2(rhs as nat),
    {
        self.shift_left((rhs / 64) as usize, rhs % 64)
    }

    /// Shifts right by `rhs` bits: division by `2^rhs`, rounding down.
    pub fn shr(self, rhs: u32) -> (r: BigUInt)
        requires
            self.wf(),
        ensures
            r.wf(),
            r@ == self@ / pow2(rhs as nat),
    {
        let q = (rhs / 64) as usize;
        let m = rhs % 64;
        let t = shr_n64(&self, q);
        let r = shr64(t, m);
        proof {
            lemma_pw_is_pow2(q as nat);
            lemma_pow2_adds(64 * q as nat, m as nat);
            lemma_pw_pos(q as nat);
            lemma_pow2_pos(m as nat);
            lemma_div_denominator(self@ as int, pw(q as nat) as int, pow2(m as nat) as int);
            assert(64 * q as nat + m as nat == rhs as nat);
        }
        r
    }

    /// Schoolbook multiplication: the sum of every word product, shifted into place.
    #[verifier::spinoff_prover]
    #[verifier::rlimit(30)]
    pub fn mul(self, rhs: BigUInt) -> (r: BigUInt)
        requires
            self.wf(),
            rhs.wf(),
        ensures
            r.wf(),
            r@ == self@ * rhs@,
    {
        let a = &self.0;
        let b = &rhs.0;
        let ghost bv = val(b@);
        let mut acc = BigUInt::zero();
        let mut i: usize = 0;
        proof {
            lemma_low_val_zero(a@);
            assert(0 * bv == 0);
        }
        while i < a.len()
            invariant
                a@ == self.0@,
                b@ == rhs.0@,
                bv == val(b@),
                i <= a.len(),
                acc.wf(),
                acc@ == low_val(a@, i as nat) * bv,
            decreases a.len() - i,
        {
            let x = a[i];
            let mut j: usize = 0;
            proof {
                lemma_low_val_zero(b@);
                assert(x * 0nat * pw(i as nat) == 0) by (nonlinear_arith);
            }
            while j < b.len()
                invariant
                    a@ == self.0@,
                    b@ == rhs.0@,
                    bv == val(b@),
                    i < a.len(),
                    x == a@[i as int],
                    j <= b.len(),
                    acc.wf(),
                    acc@ == low_val(a@, i as nat) * bv + x * low_val(b@, j as nat) * pw(i as nat),
                decreases b.len() - j,
            {
                let y = b[j];
                // placed by `j` words and then by `i`, as `i + j` need not fit in a `usize`
                let t = shl_n64(shl_n64(mul_helper(x, y), j), i);
                proof {
                    lemma_low_val_step(b@, j as nat);
                    let pi = pw(i as nat);
                    let pj = pw(j as nat);
                    assert(x * y * pj * pi + x * low_val(b@, j as nat) * pi
                        == x * (low_val(b@, j as nat) + y * pj) * pi) by (nonlinear_arith);
                }
                acc = acc.add(t);
                j = j + 1;
            }
            proof {
                lemma_low_val_full(b@, b@.len());
                lemma_low_val_step(a@, i as nat);
                let pi = pw(i as nat);
                assert(low_val(a@, i as nat) * bv + x * bv * pi == (low_val(a@, i as nat) + x * pi) * bv)
                    by (nonlinear_arith);
            }
            i = i + 1;
        }
        proof {
            lemma_low_val_full(a@, a@.len());
        }
        acc
    }

    /// Binary long division: aligns the divisor with the dividend's top bit and
    /// subtracts it wherever it fits, one bit position at a time.
    #[verifier::spinoff_prover]
    #[verifier::rlimit(30)]
    pub fn div_rem(self, rhs: BigUInt) -> (r: (BigUInt, BigUInt))
        requires
            self.wf(),
            rhs.wf(),
            rhs@ != 0,
        ensures
            r.0.wf(),
            r.1.wf(),
            r.0@ * rhs@ + r.1@ == self@,
            r.1@ < rhs@,
            r.0@ == self@ / rhs@,
            r.1@ == self@ % rhs@,
    {
        let ghost a = self@;
        let ghost b = rhs@;
        if self.is_zero() {
            proof {
                assert(0 * b == 0);
                lemma_fundamental_div_mod_converse(a as int, b as int, 0, 0);
            }
            return (BigUInt::zero(), BigUInt::zero());
        }
        let self_size = self.bits_num();
        let rhs_size = rhs.bits_num();
        if self_size < rhs_size {
            proof {
                lemma_pow2_adds((rhs_size - 1) as nat, 0);
                if self_size < rhs_size - 1 {
                    vstd::arithmetic::power2::lemma_pow2_strictly_increases(self_size as nat, (rhs_size - 1) as nat);
                }
                assert(a < b);
                assert(0 * b == 0);
                lemma_fundamental_div_mod_converse(a as int, b as int, 0, a as int);
            }
            return (BigUInt::zero(), self);
        }
        let k: u128 = self_size - rhs_size;
        let nwords: usize = self.0.len();
        proof {
            lemma_seq_bit_len_bounds(self.0@);
            assert(k / 64 <= self.0@.len());
            assert(k / 64 <= nwords);
            assert(((k / 64) as usize) as nat == k / 64);
        }
        let mut d = rhs.shift_left((k / 64) as usize, (k % 64) as u32);
        let mut rem = self;
        let mut q = BigUInt::zero();
        let mut i: u128 = k;
        proof {
            assert(64 * ((k / 64) as usize) as nat + ((k % 64) as u32) as nat == k);
            lemma_pow2_adds(k as nat, 1);
            lemma_pow2_adds(k as nat, (rhs_size - 1) as nat);
            assert((k + 1 + (rhs_size - 1)) as nat == self_size as nat);
            lemma_pow2_adds((k + 1) as nat, (rhs_size - 1) as nat);
            lemma2_to64();
            assert(a < pow2((k + 1) as nat) * pow2((rhs_size - 1) as nat));
            assert(pow2((k + 1) as nat) * pow2((rhs_size - 1) as nat) <= b * pow2((k + 1) as nat))
                by (nonlinear_arith)
                requires pow2((rhs_size - 1) as nat) <= b;
            assert(0 * b == 0);
            lemma_pow2_pos((k + 1) as nat);
            assert(0nat % pow2((k + 1) as nat) == 0);
            assert(rhs_size >= 1);
            assert(k / 64 < nwords);
        }
        loop
            invariant_except_break
                rem@ < b * pow2(i as nat + 1),
                q@ % pow2(i as nat + 1) == 0,
            invariant
                i <= k,
                k / 64 < nwords,
                d.wf(),
                rem.wf(),
                q.wf(),
                b > 0,
                d@ == b * pow2(i as nat),
                a == q@ * b + rem@,
            ensures
                a == q@ * b + rem@,
                rem@ < b,
                q.wf(),
                rem.wf(),
            decreases i,
        {
            let ghost q0 = q@;
            let ghost p = pow2(i as nat);
            proof {
                lemma_pow2_adds(i as nat, 1);
                lemma2_to64();
                lemma_pow2_pos(i as nat);
                assert(pow2(i as nat + 1) == p * 2);
                lemma_mod_double(q0, p);
            }
            if rem.ge(&d) {
                rem = rem.sub(d.copy());
                q.set_bit_at((i / 64) as usize, (i % 64) as u32);
                proof {
                    assert(64 * ((i / 64) as usize) as nat + ((i % 64) as u32) as nat == i as nat);
                    assert(q@ == q0 + p);
                    assert(a == (q0 + p) * b + rem@) by (nonlinear_arith)
                        requires a == q0 * b + rem@ + b * p;
                    assert(rem@ < b * p) by (nonlinear_arith)
                        requires rem@ + b * p < b * (p * 2);
                }
            }
            if i == 0 {
                proof {
                    assert(p == 1);
                    assert(b * 1 == b);
                }
                break;
            }
            d = shr64(d, 1);
            proof {
                lemma_pow2_adds((i - 1) as nat, 1);
                assert(p == pow2((i - 1) as nat) * 2);
                assert(b * p / 2 == b * pow2((i - 1) as nat)) by (nonlinear_arith)
                    requires p == pow2((i - 1) as nat) * 2;
                assert((i - 1) as nat + 1 == i as nat);
            }
            i = i - 1;
        }
        proof {
            lemma_fundamental_div_mod_converse(a as int, b as int, q@ as int, rem@ as int);
        }
        (q, rem)
    }

    /// Exponentiation by squaring.
    pub fn pow(self, exponent: u64) -> (r: BigUInt)
        requires
            self.wf(),
        ensures
            r.wf(),
            r@ == pow(self@ as int, exponent as nat),
    {
        let ghost a = self@ as int;
        if exponent == 0 {
            proof {
                lemma_pow0(a);
            }
            return BigUInt::from_u64(1);
        }
        let mut buff = BigUInt::from_u64(1);
        let mut x = self;
        let mut e: u64 = exponent;
        proof {
            assert(1 * pow(a, exponent as nat) == pow(a, exponent as nat));
        }
        while e > 1
            invariant
                buff.wf(),
                x.wf(),
                e >= 1,
                buff@ * pow(x@ as int, e as nat) == pow(a, exponent as nat),
            decreases e,
        {
            if e % 2 != 0 {
                let ghost xv = x@ as int;
                let ghost b0 = buff@ as int;
                buff = buff.mul(x.copy());
                e = e - 1;
                proof {
                    lemma_pow_adds(xv, 1, e as nat);
                    lemma_pow1(xv);
                    assert(b0 * pow(xv, (e + 1) as nat) == (b0 * xv) * pow(xv, e as nat)) by (nonlinear_arith)
                        requires pow(xv, (e + 1) as nat) == xv * pow(xv, e as nat);
                }
            }
            let ghost xv = x@ as int;
            x = x.copy().mul(x);
            proof {
                lemma_pow_multiplies(xv, 2, (e / 2) as nat);
                assert(pow(xv, 2) == xv * xv) by {
                    lemma_pow_adds(xv, 1, 1);
                    lemma_pow1(xv);
                }
                assert(2 * (e / 2) as nat == e as nat);
            }
            e = e / 2;
        }
        proof {
            lemma_pow1(x@ as int);
        }
        buff.mul(x)
    }

    /// The quotient, rounding down.
    pub fn div(self, rhs: BigUInt) -> (r: BigUInt)
        requires
            self.wf(),
            rhs.wf(),
            rhs@ != 0,
        ensures
            r.wf(),
            r@ == self@ / rhs@,
    {
        let (q, _) = self.div_rem(rhs);
        q
    }

    /// The remainder.
    pub fn rem(self, rhs: BigUInt) -> (r: BigUInt)
        requires
            self.wf(),
            rhs.wf(),
            rhs@ != 0,
        ensures
            r.wf(),
            r@ == self@ % rhs@,
    {
        let (_, m) = self.div_rem(rhs);
        m
    }

    /// Adds in place.
    pub fn add_assign(&mut self, rhs: BigUInt)
        requires
            old(self).wf(),
            rhs.wf(),
        ensures
            final(self).wf(),
            final(self)@ == old(self)@ + rhs@,
    {
        let mut cur = BigUInt::zero();
        core::mem::swap(self, &mut cur);
        *self = cur.add(rhs);
    }

    /// Subtracts in place; the value must not be smaller than `rhs`.
    pub fn sub_assign(&mut self, rhs: BigUInt)
        requires
            old(self).wf(),
            rhs.wf(),
            old(self)@ >= rhs@,
        ensures
            final(self).wf(),
            final(self)@ == old(self)@ - rhs@,
    {
        let mut cur = BigUInt::zero();
        core::mem::swap(self, &mut cur);
        *self = cur.sub(rhs);
    }

    /// Multiplies in place.
    pub fn mul_assign(&mut self, rhs: BigUInt)
        requires
            old(self).wf(),
            rhs.wf(),
        ensures
            final(self).wf(),
            final(self)@ == old(self)@ * rhs@,
    {
        let mut cur = BigUInt::zero();
        core::mem::swap(self, &mut cur);
        *self = cur.mul(rhs);
    }

    /// Divides in place, rounding down.
    pub fn div_assign(&mut self, rhs: BigUInt)
        requires
            old(self).wf(),
            rhs.wf(),
            rhs@ != 0,
        ensures
            final(self).wf(),
            final(self)@ == old(self)@ / rhs@,
    {
        let mut cur = BigUInt::zero();
        core::mem::swap(self, &mut cur);
        *self = cur.div(rhs);
    }

    /// Replaces the value by its remainder modulo `rhs`.
    pub fn rem_assign(&mut self, rhs: BigUInt)
        requires
            old(self).wf(),
            rhs.wf(),
            rhs@ != 0,
        ensures
            final(self).wf(),
            final(self)@ == old(self)@ % rhs@,
    {
        let mut cur = BigUInt::zero();
        core::mem::swap(self, &mut cur);
        *self = cur.rem(rhs);
    }

    /// Shifts left in place.
    pub fn shl_assign(&mut self, rhs: u32)
        requires
            old(self).wf(),
        ensures
            final(self).wf(),
            final(self)@ == old(self)@ * pow2(rhs as nat),
    {
        let mut cur = BigUInt::zero();
        core::mem::swap(self, &mut cur);
        *self = cur.shl(rhs);
    }

    /// Shifts right in place.
    pub fn shr_assign(&mut self, rhs: u32)
        requires
            old(self).wf(),
        ensures
            final(self).wf(),
            final(self)@ == old(self)@ / pow2(rhs as nat),
    {
        let mut cur = BigUInt::zero();
        core::mem::swap(self, &mut cur);
        *self = cur.shr(rhs);
    }
}

} // verus!
