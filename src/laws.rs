//! Laws of the arithmetic, stated over the values that the operations' contracts speak of.
use vstd::prelude::*;
use vstd::arithmetic::power2::{pow2, lemma_pow2_pos};
use vstd::arithmetic::div_mod::{lemma_fundamental_div_mod, lemma_mod_pos_bound, lemma_div_multiples_vanish};
use crate::words::{val, lemma_val_cmp_at};
use crate::biguint::{BigUInt, lemma_len_order};
use crate::bigint::{BigInt, Sign, abs, trunc_div, trunc_rem};
use crate::convert::{dec, signed_dec, digits_val, all_digits, unsigned_parse, signed_parse, is_digit};

verus! {

/// Word sequences of one length with one value are the same sequence.
pub proof fn lemma_same_len_val_injective(s: Seq<u64>, t: Seq<u64>)
    requires
        s.len() == t.len(),
        val(s) == val(t),
    ensures
        s == t,
    decreases s.len(),
{
    if s.len() > 0 {
        let j = s.len() - 1;
        assert(s.skip(j + 1) =~= t.skip(j + 1));
        if s[j] < t[j] {
            lemma_val_cmp_at(s, t, j);
        } else if s[j] > t[j] {
            lemma_val_cmp_at(t, s, j);
        }
        lemma_same_len_val_injective(s.drop_last(), t.drop_last());
        assert(s =~= s.drop_last().push(s.last()));
        assert(t =~= t.drop_last().push(t.last()));
    } else {
        assert(s =~= t);
    }
}

/// The representation is canonical: two well-formed magnitudes of one value
/// hold the same words.
pub proof fn law_canonical(x: BigUInt, y: BigUInt)
    requires
        x.wf(),
        y.wf(),
        x@ == y@,
    ensures
        x.0@ == y.0@,
{
    if x.0@.len() < y.0@.len() {
        lemma_len_order(x.0@, y.0@);
    } else if x.0@.len() > y.0@.len() {
        lemma_len_order(y.0@, x.0@);
    } else {
        lemma_same_len_val_injective(x.0@, y.0@);
    }
}

/// Well-formed signed integers of one value have the same sign and the same magnitude words.
pub proof fn law_canonical_signed(x: BigInt, y: BigInt)
    requires
        x.wf(),
        y.wf(),
        x@ == y@,
    ensures
        x.sign == y.sign,
        x.inner.0@ == y.inner.0@,
{
    assert(x.inner@ == y.inner@);
    law_canonical(x.inner, y.inner);
}

/// Addition is commutative: `a + b` and `b + a` are the same words.
pub proof fn law_add_commutative(a: BigUInt, b: BigUInt, ab: BigUInt, ba: BigUInt)
    requires
        a.wf(),
        b.wf(),
        ab.wf(),
        ba.wf(),
        ab@ == a@ + b@,
        ba@ == b@ + a@,
    ensures
        ab.0@ == ba.0@,
{
    law_canonical(ab, ba);
}

/// Addition is associative: `(a + b) + c` and `a + (b + c)` are the same words.
pub proof fn law_add_associative(
    a: BigUInt,
    b: BigUInt,
    c: BigUInt,
    ab: BigUInt,
    ab_c: BigUInt,
    bc: BigUInt,
    a_bc: BigUInt,
)
    requires
        ab_c.wf(),
        a_bc.wf(),
        ab@ == a@ + b@,
        ab_c@ == ab@ + c@,
        bc@ == b@ + c@,
        a_bc@ == a@ + bc@,
    ensures
        ab_c.0@ == a_bc.0@,
{
    law_canonical(ab_c, a_bc);
}

/// Zero is the identity of addition: `a + 0` is the words of `a`.
pub proof fn law_add_zero(a: BigUInt, zero: BigUInt, sum: BigUInt)
    requires
        a.wf(),
        sum.wf(),
        zero@ == 0,
        sum@ == a@ + zero@,
    ensures
        sum.0@ == a.0@,
{
    law_canonical(sum, a);
}

/// For magnitudes with `a >= b`, `(a - b) + b` is the words of `a`.
pub proof fn law_sub_add_unsigned(a: BigUInt, b: BigUInt, difference: BigUInt, sum: BigUInt)
    requires
        a.wf(),
        sum.wf(),
        a@ >= b@,
        difference@ == a@ - b@,
        sum@ == difference@ + b@,
    ensures
        sum.0@ == a.0@,
{
    law_canonical(sum, a);
}

/// For signed integers, `(a - b) + b` is always `a`: the same sign and magnitude words.
pub proof fn law_sub_add_signed(a: BigInt, b: BigInt, difference: BigInt, sum: BigInt)
    requires
        a.wf(),
        sum.wf(),
        difference@ == a@ - b@,
        sum@ == difference@ + b@,
    ensures
        sum.sign == a.sign,
        sum.inner.0@ == a.inner.0@,
{
    law_canonical_signed(sum, a);
}

/// Schoolbook and Karatsuba products of the same operands are the same words.
pub proof fn law_karatsuba_matches_schoolbook(a: BigUInt, b: BigUInt, schoolbook: BigUInt, karatsuba: BigUInt)
    requires
        a.wf(),
        b.wf(),
        schoolbook.wf(),
        karatsuba.wf(),
        schoolbook@ == a@ * b@,
        karatsuba@ == a@ * b@,
    ensures
        schoolbook.0@ == karatsuba.0@,
{
    law_canonical(schoolbook, karatsuba);
}

/// Unsigned division: quotient times divisor plus remainder is the dividend,
/// and the remainder is below the divisor.
pub proof fn law_div_rem_unsigned(a: nat, b: nat)
    requires
        b > 0,
    ensures
        (a / b) * b + a % b == a,
        a % b < b,
{
    lemma_fundamental_div_mod(a as int, b as int);
    lemma_mod_pos_bound(a as int, b as int);
    assert(b * (a / b) == (a / b) * b) by (nonlinear_arith);
}

/// Truncating division: quotient times divisor plus remainder is the dividend,
/// a nonzero remainder has the dividend's sign, and it is smaller than the divisor in size.
pub proof fn law_div_rem_signed(a: int, b: int)
    requires
        b != 0,
    ensures
        trunc_div(a, b) * b + trunc_rem(a, b) == a,
        trunc_rem(a, b) == 0 || ((trunc_rem(a, b) < 0) == (a < 0)),
        abs(trunc_rem(a, b)) < abs(b),
{
    let x = abs(a) as int;
    let y = abs(b) as int;
    lemma_fundamental_div_mod(x, y);
    lemma_mod_pos_bound(x, y);
    let q = x / y;
    let r = x % y;
    assert(x == y * q + r);
    assert((-q) * (-y) == q * y) by (nonlinear_arith);
    assert((-q) * y == -(q * y)) by (nonlinear_arith);
    assert(q * (-y) == -(q * y)) by (nonlinear_arith);
    assert(y * q == q * y) by (nonlinear_arith);
}

/// Shifting left by `n` bits and then right by `n` bits gives back the value,
/// of a magnitude and of a signed integer.
pub proof fn law_shift_round_trip(v: nat, x: int, n: nat)
    ensures
        (v * pow2(n)) / pow2(n) == v,
        trunc_div(x * pow2(n), pow2(n) as int) == x,
{
    lemma_pow2_pos(n);
    let p = pow2(n) as int;
    lemma_div_multiples_vanish(v as int, p);
    assert(v * pow2(n) == p * v) by (nonlinear_arith)
        requires p == pow2(n);
    let m = abs(x) as int;
    assert(abs(x * p) == m * p) by (nonlinear_arith)
        requires p > 0, m == abs(x);
    lemma_div_multiples_vanish(m, p);
    assert(m * p == p * m) by (nonlinear_arith);
    assert((x * p < 0) == (x < 0)) by (nonlinear_arith)
        requires p > 0;
}

/// Magnitude order agrees with subtraction where it is defined: for `b >= a`,
/// `a < b` exactly when `b - a` is positive.
pub proof fn law_order_unsigned(a: BigUInt, b: BigUInt, difference: BigUInt)
    requires
        b@ >= a@,
        difference@ == b@ - a@,
    ensures
        (a@ < b@) == (difference@ > 0),
{
}

/// Signed order agrees with subtraction: `a < b` exactly when the
/// well-formed difference `a - b` carries the sign `Minus`.
pub proof fn law_order_signed(a: BigInt, b: BigInt, difference: BigInt)
    requires
        difference.wf(),
        difference@ == a@ - b@,
    ensures
        (a@ < b@) == (difference.sign == Sign::Minus),
{
}

proof fn lemma_dec_digits(n: nat)
    ensures
        dec(n).len() > 0,
        all_digits(dec(n)),
        digits_val(dec(n)) == n,
        is_digit(dec(n)[0]),
    decreases n,
{
    if n < 10 {
        let s = dec(n);
        assert(s.drop_last().len() == 0);
        assert(digits_val(s.drop_last()) == 0);
    } else {
        lemma_dec_digits(n / 10);
        let s = dec(n);
        let d = dec(n / 10);
        assert(s.drop_last() =~= d);
        assert(s[0] == d[0]);
        assert forall|i: int| 0 <= i < s.len() implies is_digit(#[trigger] s[i]) by {
            if i < d.len() {
                assert(s[i] == d[i]);
            }
        }
    }
}

/// Formatting then parsing a magnitude gives back its value, and so its words.
pub proof fn law_round_trip_unsigned(x: BigUInt, parsed: BigUInt)
    requires
        x.wf(),
        parsed.wf(),
        unsigned_parse(dec(x@)) == Ok::<nat, crate::convert::ParseIntError>(parsed@),
    ensures
        unsigned_parse(dec(x@)) == Ok::<nat, crate::convert::ParseIntError>(x@),
        parsed.0@ == x.0@,
{
    lemma_dec_digits(x@);
    law_canonical(parsed, x);
}

/// Formatting then parsing a signed integer gives back its value.
pub proof fn law_round_trip_signed(x: int)
    ensures
        signed_parse(signed_dec(x)) == Ok::<int, crate::convert::ParseIntError>(x),
{
    if x < 0 {
        let m = (-x) as nat;
        lemma_dec_digits(m);
        assert((seq!['-'] + dec(m)).skip(1) =~= dec(m));
    } else {
        lemma_dec_digits(x as nat);
    }
}

} // verus!
