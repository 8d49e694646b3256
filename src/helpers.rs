//! Word-level primitives: the widening product of two words and the splitting
//! of words across a shift boundary, whole or within a word.
use vstd::prelude::*;
use vstd::arithmetic::power2::{pow2, lemma_pow2_adds, lemma_pow2_pos, lemma2_to64};
use vstd::arithmetic::div_mod::{lemma_fundamental_div_mod, lemma_mod_pos_bound};
use vstd::arithmetic::mul::lemma_mul_inequality;
use vstd::bits::{low_bits_mask, lemma_u64_low_bits_mask_is_mod, lemma_u64_shr_is_div, lemma_u64_shl_is_mul, lemma_u64_pow2_no_overflow};
use crate::words::{
    base, pw, val, lemma_val_push, lemma_val_split, lemma_val_bound,
    lemma_val_shift_words, lemma_pw_pos,
};
use crate::biguint::{BigUInt, trim, low_val, lemma_low_val_step, lemma_low_val_full, lemma_low_val_zero};

verus! {

/// For `0 < s < 64`, the two halves of `v << s` seen as a double word.
pub proof fn lemma_split_word(v: u64, s: u64)
    requires
        0 < s < 64,
    ensures
        (v << s) as nat + (v >> ((64 - s) as u64)) as nat * base() == v as nat * pow2(s as nat),
{
    let t = (64 - s) as u64;
    lemma_u64_pow2_no_overflow(t as nat);
    lemma_u64_pow2_no_overflow(s as nat);
    let p = pow2(t as nat);
    let q = pow2(s as nat);
    lemma_pow2_adds(t as nat, s as nat);
    lemma2_to64();
    lemma_pow2_pos(t as nat);
    assert(p * q == base());
    lemma_u64_shr_is_div(v, t);
    lemma_u64_shl_is_mul(1, t);
    assert((1u64 << t) as nat == p);
    let pu = (1u64 << t);
    let mk = (pu - 1) as u64;
    assert(v << s == (v & mk) << s) by (bit_vector)
        requires
            pu == 1u64 << t,
            mk == (pu - 1) as u64,
            t == 64 - s,
            0 < s < 64,
    ;
    lemma_u64_low_bits_mask_is_mod(v, t as nat);
    assert(low_bits_mask(t as nat) == p - 1);
    let m = v % pu;
    assert(v & mk == m);
    lemma_mod_pos_bound(v as int, p as int);
    assert(m as nat * q <= (p - 1) * q) by {
        lemma_mul_inequality(m as int, p - 1, q as int);
    }
    assert((p - 1) * q == p * q - q) by (nonlinear_arith);
    lemma_u64_shl_is_mul(m, s);
    lemma_fundamental_div_mod(v as int, p as int);
    let h = v as nat / p;
    assert(v as nat * q == (p * h + m) * q);
    assert((p * h + m) * q == h * (p * q) + m * q) by (nonlinear_arith);
}

/// `value << rhs` as a double word `(high, low)`.
pub fn split_shl(value: u64, rhs: u32) -> (r: (u64, u64))
    requires
        rhs <= 64,
    ensures
        r.1 as nat + r.0 as nat * base() == value as nat * pow2(rhs as nat),
        rhs == 0 ==> r == (0u64, value),
        0 < rhs < 64 ==> r == (value >> ((64 - rhs) as u64), value << (rhs as u64)),
{
    if rhs == 0 {
        proof {
            lemma2_to64();
            assert(value as nat * 1 == value as nat);
        }
        (0, value)
    } else if rhs == 64 {
        proof {
            lemma2_to64();
            assert(value as nat * pow2(64) == value as nat * base());
        }
        (value, 0)
    } else {
        let s = rhs as u64;
        proof {
            lemma_split_word(value, s);
        }
        (value >> (64 - s), value << s)
    }
}

/// `value >> rhs` as a double word `(high, low)`: the bits shifted out of the
/// word land at the top of the low word.
pub fn split_shr(value: u64, rhs: u32) -> (r: (u64, u64))
    requires
        rhs <= 64,
    ensures
        (r.0 as nat * base() + r.1 as nat) * pow2(rhs as nat) == value as nat * base(),
        rhs == 0 ==> r == (value, 0u64),
        0 < rhs < 64 ==> r == (value >> (rhs as u64), value << ((64 - rhs) as u64)),
{
    if rhs == 0 {
        proof {
            lemma2_to64();
        }
        (value, 0)
    } else if rhs == 64 {
        proof {
            lemma2_to64();
            assert(value as nat * 1 == value as nat);
        }
        (0, value)
    } else {
        let s = (64 - rhs) as u64;
        proof {
            lemma_split_word(value, s);
            assert((64 - s) as u64 == rhs as u64);
            lemma_pow2_adds(s as nat, rhs as nat);
            lemma2_to64();
            assert(s as nat + rhs as nat == 64);
            assert(pow2(s as nat) * pow2(rhs as nat) == base());
            let hi = (value >> (rhs as u64)) as nat;
            assert(value >> ((64 - s) as u64) == value >> (rhs as u64));
            let lo = (value << s) as nat;
            assert((hi * base() + lo) * pow2(rhs as nat) == (value as nat * pow2(s as nat)) * pow2(rhs as nat));
            assert((value as nat * pow2(s as nat)) * pow2(rhs as nat) == value as nat * (pow2(s as nat) * pow2(rhs as nat))) by (nonlinear_arith);
        }
        (value >> (rhs as u64), value << s)
    }
}


/// The two parts that a shift brings into one word do not overlap.
pub proof fn lemma_or_disjoint(a: u64, b: u64, s: u64)
    requires
        0 < s < 64,
    ensures
        ((a << s) | (b >> ((64 - s) as u64))) as nat == (a << s) as nat + (b >> ((64 - s) as u64)) as nat,
{
    let x = a << s;
    let y = b >> ((64 - s) as u64);
    assert(x & y == 0) by (bit_vector)
        requires
            x == a << s,
            y == b >> ((64 - s) as u64),
            0 < s < 64,
    ;
    assert((x | y) == x + y) by (bit_vector)
        requires
            x & y == 0,
    ;
}


/// The full product of two words.
pub fn mul_helper(lhs: u64, rhs: u64) -> (r: BigUInt)
    ensures
        r.wf(),
        r@ == lhs as nat * rhs as nat,
{
    proof {
        assert(lhs as nat * rhs as nat <= 0xffff_ffff_ffff_ffff * 0xffff_ffff_ffff_ffff) by (nonlinear_arith)
            requires lhs <= 0xffff_ffff_ffff_ffffu64, rhs <= 0xffff_ffff_ffff_ffffu64;
    }
    let t: u128 = lhs as u128 * rhs as u128;
    let lo: u64 = (t % 0x1_0000_0000_0000_0000u128) as u64;
    let hi: u64 = (t / 0x1_0000_0000_0000_0000u128) as u64;
    if hi == 0 {
        BigUInt::from_u64(lo)
    } else {
        let mut v: Vec<u64> = Vec::new();
        v.push(lo);
        v.push(hi);
        proof {
            lemma_val_push(Seq::empty(), lo);
            lemma_val_push(seq![lo], hi);
            assert(v@ =~= seq![lo].push(hi));
            assert(seq![lo] =~= Seq::<u64>::empty().push(lo));
            assert(val(Seq::<u64>::empty()) == 0);
            assert(pw(0) == 1);
            assert(pw(1) == base() * pw(0));
            assert(lo as nat * 1 == lo as nat);
            assert(hi as nat * base() == hi as nat * pw(1));
        }
        BigUInt(v)
    }
}

/// Prepends `shamt` zero words: multiplication by `pw(shamt)`.
pub fn shl_n64(value: BigUInt, shamt: usize) -> (r: BigUInt)
    requires
        value.wf(),
    ensures
        r.wf(),
        r@ == value@ * pw(shamt as nat),
{
    if value.0.len() == 0 {
        proof {
            assert(0 * pw(shamt as nat) == 0) by (nonlinear_arith);
        }
        return value;
    }
    let mut out: Vec<u64> = Vec::new();
    let mut i: usize = 0;
    while i < shamt
        invariant
            i <= shamt,
            out@ == Seq::new(i as nat, |k: int| 0u64),
        decreases shamt - i,
    {
        out.push(0);
        i = i + 1;
        proof {
            assert(out@ =~= Seq::new(i as nat, |k: int| 0u64));
        }
    }
    let mut j: usize = 0;
    let n = value.0.len();
    while j < n
        invariant
            n == value.0@.len(),
            j <= n,
            out@ == Seq::new(shamt as nat, |k: int| 0u64) + value.0@.take(j as int),
        decreases n - j,
    {
        out.push(value.0[j]);
        j = j + 1;
        proof {
            assert(out@ =~= Seq::new(shamt as nat, |k: int| 0u64) + value.0@.take(j as int));
        }
    }
    proof {
        assert(value.0@.take(n as int) =~= value.0@);
        lemma_val_shift_words(value.0@, shamt as nat);
        assert(out@.last() == value.0@.last());
        assert(value@ * pw(shamt as nat) == pw(shamt as nat) * value@) by (nonlinear_arith);
    }
    BigUInt(out)
}

/// Drops the `shamt` lowest words: division by `pw(shamt)`.
pub fn shr_n64(value: &BigUInt, shamt: usize) -> (r: BigUInt)
    requires
        value.wf(),
    ensures
        r.wf(),
        r@ == value@ / pw(shamt as nat),
{
    let n = value.0.len();
    let mut out: Vec<u64> = Vec::new();
    if shamt >= n {
        proof {
            lemma_val_bound(value.0@);
            crate::biguint::lemma_pw_mono(n as nat, shamt as nat);
            lemma_pw_pos(shamt as nat);
            assert(value@ / pw(shamt as nat) == 0) by (nonlinear_arith)
                requires value@ < pw(shamt as nat);
        }
        return BigUInt(out);
    }
    let mut j: usize = shamt;
    while j < n
        invariant
            n == value.0@.len(),
            shamt <= j <= n,
            out@ == value.0@.subrange(shamt as int, j as int),
        decreases n - j,
    {
        out.push(value.0[j]);
        j = j + 1;
        proof {
            assert(out@ =~= value.0@.subrange(shamt as int, j as int));
        }
    }
    proof {
        let s = value.0@;
        assert(out@ =~= s.skip(shamt as int));
        lemma_val_split(s, shamt as nat);
        lemma_val_bound(s.take(shamt as int));
        lemma_pw_pos(shamt as nat);
        let p = pw(shamt as nat);
        let lo = val(s.take(shamt as int));
        let hi = val(s.skip(shamt as int));
        assert((p * hi + lo) / p == hi) by (nonlinear_arith)
            requires p > 0, lo < p;
    }
    BigUInt(out)
}

/// Shifts left by `rhs < 64` bits, carrying each word's top bits into the next.
#[verifier::spinoff_prover]
#[verifier::rlimit(30)]
pub fn shl64(value: BigUInt, rhs: u32) -> (r: BigUInt)
    requires
        value.wf(),
        rhs < 64,
    ensures
        r.wf(),
        r@ == value@ * pow2(rhs as nat),
{
    if rhs == 0 {
        proof {
            lemma2_to64();
            assert(value@ * 1 == value@);
        }
        return value;
    }
    let s = &value.0;
    let n = s.len();
    let ghost p = pow2(rhs as nat);
    let ghost sh = (64 - rhs) as u64;
    let mut out: Vec<u64> = Vec::new();
    let mut carry: u64 = 0;
    let mut i: usize = 0;
    proof {
        lemma_low_val_zero(s@);
        assert(0u64 >> sh == 0) by (bit_vector);
    }
    while i < n
        invariant
            s@ == value.0@,
            n == s@.len(),
            0 < rhs < 64,
            sh == (64 - rhs) as u64,
            p == pow2(rhs as nat),
            i <= n,
            out@.len() == i,
            carry == (if i == 0 { 0u64 } else { s@[i - 1] }) >> sh,
            val(out@) + carry * pw(i as nat) == low_val(s@, i as nat) * p,
        decreases n - i,
    {
        let v = s[i];
        let (hi, lo) = split_shl(v, rhs);
        proof {
            let prev: u64 = if i == 0 { 0u64 } else { s@[i - 1] };
            lemma_or_disjoint(v, prev, rhs as u64);
            lemma_low_val_step(s@, i as nat);
            lemma_val_push(out@, lo | carry);
            let q = pw(i as nat);
            assert(pw(i as nat + 1) == base() * q);
            assert((lo + carry) * q == lo * q + carry * q) by (nonlinear_arith);
            assert(hi * (base() * q) == (hi * base()) * q) by (nonlinear_arith);
            assert((lo + hi * base()) * q == lo * q + (hi * base()) * q) by (nonlinear_arith);
            assert((low_val(s@, i as nat) + v * q) * p == low_val(s@, i as nat) * p + (v * p) * q)
                by (nonlinear_arith);
        }
        out.push(lo | carry);
        carry = hi;
        i = i + 1;
    }
    proof {
        lemma_val_push(out@, carry);
        lemma_low_val_full(s@, n as nat);
    }
    out.push(carry);
    trim(&mut out);
    BigUInt(out)
}

/// Shifts right by `rhs < 64` bits, bringing each word's low bits down into the word below.
#[verifier::spinoff_prover]
#[verifier::rlimit(30)]
pub fn shr64(value: BigUInt, rhs: u32) -> (r: BigUInt)
    requires
        value.wf(),
        rhs < 64,
    ensures
        r.wf(),
        r@ == value@ / pow2(rhs as nat),
{
    if rhs == 0 {
        proof {
            lemma2_to64();
            assert(value@ / 1 == value@);
        }
        return value;
    }
    if value.0.len() == 0 {
        proof {
            lemma_pow2_pos(rhs as nat);
            assert(0nat / pow2(rhs as nat) == 0);
        }
        return value;
    }
    let s = &value.0;
    let n = s.len();
    let ghost p = pow2(rhs as nat);
    let ghost sh = (64 - rhs) as u64;
    let ghost w = base();
    let mut out: Vec<u64> = Vec::new();
    let (hi0, lo0) = split_shr(s[0], rhs);
    let ghost lo_first = lo0 as nat;
    let mut hi: u64 = hi0;
    let mut i: usize = 0;
    proof {
        lemma_low_val_zero(s@);
        lemma_low_val_step(s@, 0);
        assert(pw(0) == 1);
        assert(s@[0] as nat * 1 == s@[0] as nat);
        assert(w * s@[0] == p * w * hi0 + p * lo0) by (nonlinear_arith)
            requires (hi0 * w + lo0) * p == s@[0] * w;
        assert(val(out@) == 0);
        assert(low_val(s@, 1) == s@[0] as nat);
        assert(p * w * 0 + p * w * hi0 * 1 == p * w * hi0) by (nonlinear_arith);
    }
    while i + 1 < n
        invariant
            s@ == value.0@,
            n == s@.len(),
            n > 0,
            0 < rhs < 64,
            sh == (64 - rhs) as u64,
            p == pow2(rhs as nat),
            w == base(),
            i < n,
            out@.len() == i,
            hi == s@[i as int] >> (rhs as u64),
            w * low_val(s@, i as nat + 1) == p * w * val(out@) + p * w * hi * pw(i as nat) + p * lo_first,
        decreases n - i,
    {
        let (hi_next, lo_next) = split_shr(s[i + 1], rhs);
        proof {
            assert((64 - sh) as u64 == rhs as u64);
            lemma_or_disjoint(s@[i + 1], s@[i as int], sh);
            lemma_low_val_step(s@, i as nat + 1);
            lemma_val_push(out@, lo_next | hi);
            let q = pw(i as nat);
            let v = s@[i + 1] as nat;
            let vo = val(out@);
            let lw = low_val(s@, i as nat + 1);
            assert(pw(i as nat + 1) == w * q);
            let a = w * q;
            assert(w * (lw + v * a) == w * lw + w * (v * a)) by (nonlinear_arith);
            assert(w * (v * a) == a * (v * w)) by (nonlinear_arith);
            assert(v * w == p * (hi_next * w + lo_next)) by (nonlinear_arith)
                requires (hi_next * w + lo_next) * p == v * w;
            assert(a * (p * (hi_next * w + lo_next)) == p * w * lo_next * q + p * w * hi_next * a)
                by (nonlinear_arith)
                requires a == w * q;
            assert(p * w * (vo + (lo_next + hi) * q) == p * w * vo + p * w * lo_next * q + p * w * hi * q)
                by (nonlinear_arith);
        }
        out.push(lo_next | hi);
        hi = hi_next;
        i = i + 1;
    }
    proof {
        lemma_val_push(out@, hi);
        lemma_low_val_full(s@, n as nat);
        let x = val(s@);
        let y = val(out@.push(hi));
        lemma_pow2_pos(rhs as nat);
        let q = pw((n - 1) as nat);
        assert(p * w * y == p * w * val(out@) + p * w * hi * q) by (nonlinear_arith)
            requires y == val(out@) + hi * q;
        assert(lo_first < w);
        assert(x / p == y) by (nonlinear_arith)
            requires
                w * x == p * w * y + p * lo_first,
                lo_first < w,
                p > 0,
                w > 0,
        {
            assert(p * lo_first < p * w);
            assert(w * (p * y) <= w * x);
            assert(p * y <= x);
            assert(w * x < w * (p * (y + 1)));
            assert(x < p * (y + 1));
            vstd::arithmetic::div_mod::lemma_fundamental_div_mod_converse(x as int, p as int, y as int, x - p * y);
        }
    }
    out.push(hi);
    trim(&mut out);
    BigUInt(out)
}

} // verus!
