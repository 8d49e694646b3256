//! Karatsuba multiplication: three half-size products instead of four,
//! recombined with signed intermediate arithmetic.
use vstd::prelude::*;
use crate::words::{val, pw, lemma_val_split, lemma_pw_pos};
use crate::biguint::BigUInt;
use crate::bigint::BigInt;
use crate::helpers::mul_helper;

verus! {

/// Splits `vec` at index `at` (clamped to its length) into the words below and the words from there on.
pub fn split(vec: Vec<u64>, at: usize) -> (r: (Vec<u64>, Vec<u64>))
    ensures
        at <= vec@.len() ==> r.0@ == vec@.take(at as int) && r.1@ == vec@.skip(at as int),
        at > vec@.len() ==> r.0@ == vec@ && r.1@.len() == 0,
{
    let n = vec.len();
    let k = if at < n { at } else { n };
    let mut lower: Vec<u64> = Vec::new();
    let mut upper: Vec<u64> = Vec::new();
    let mut i: usize = 0;
    while i < n
        invariant
            n == vec@.len(),
            k <= n,
            i <= n,
            i <= k ==> lower@ == vec@.take(i as int) && upper@.len() == 0,
            i > k ==> lower@ == vec@.take(k as int) && upper@ == vec@.subrange(k as int, i as int),
        decreases n - i,
    {
        if i < k {
            lower.push(vec[i]);
        } else {
            upper.push(vec[i]);
        }
        i = i + 1;
        proof {
            if i <= k {
                assert(lower@ =~= vec@.take(i as int));
            } else {
                assert(upper@ =~= vec@.subrange(k as int, i as int));
            }
        }
    }
    proof {
        assert(vec@.take(n as int) =~= vec@);
        assert(vec@.subrange(k as int, n as int) =~= vec@.skip(k as int));
    }
    (lower, upper)
}

/// The single word of a value of at most one word.
fn only_word(v: &BigUInt) -> (r: u64)
    requires
        v.wf(),
        v.0@.len() <= 1,
    ensures
        r as nat == v@,
{
    if v.0.len() == 0 {
        0
    } else {
        proof {
            assert(v.0@.drop_last().len() == 0);
            assert(val(v.0@.drop_last()) == 0);
            assert(pw(0) == 1);
            assert(v.0@[0] as nat * 1 == v.0@[0] as nat);
        }
        v.0[0]
    }
}

/// Karatsuba multiplication. Operands of at most one word are multiplied
/// directly; larger ones are split at half the longer length.
#[verifier::spinoff_prover]
#[verifier::rlimit(30)]
pub fn karatsuba_mul(rhs: BigUInt, lhs: BigUInt) -> (r: BigUInt)
    requires
        rhs.wf(),
        lhs.wf(),
    ensures
        r.wf(),
        r@ == rhs@ * lhs@,
    decreases rhs@ + lhs@,
{
    if rhs.0.len() <= 1 && lhs.0.len() <= 1 {
        let x = only_word(&rhs);
        let y = only_word(&lhs);
        let r = mul_helper(y, x);
        proof {
            assert(y as nat * x as nat == x as nat * y as nat) by (nonlinear_arith);
        }
        return r;
    }
    let ghost a = rhs@;
    let ghost b = lhs@;
    let ghost sa = rhs.0@;
    let ghost sb = lhs.0@;
    let right = rhs.0;
    let left = lhs.0;
    let tmp = if right.len() >= left.len() { right.len() } else { left.len() };
    let split_point = tmp / 2 + tmp % 2;
    let (right_lower, right_upper) = split(right, split_point);
    let (left_lower, left_upper) = split(left, split_point);
    let right_lower = BigUInt::from_vec(right_lower);
    let right_upper = BigUInt::from_vec(right_upper);
    let left_lower = BigUInt::from_vec(left_lower);
    let left_upper = BigUInt::from_vec(left_upper);
    let ghost p = pw(split_point as nat);
    let ghost ua = right_upper@;
    let ghost la = right_lower@;
    let ghost ub = left_upper@;
    let ghost lb = left_lower@;
    proof {
        lemma_pw_pos(split_point as nat);
        lemma_pw_pos(1);
        assert(pw(1) == crate::words::base() * pw(0));
        assert(split_point < tmp);
        assert(val(Seq::<u64>::empty()) == 0);
        assert(p * 0 == 0);
        if split_point <= sa.len() {
            lemma_val_split(sa, split_point as nat);
        }
        if split_point <= sb.len() {
            lemma_val_split(sb, split_point as nat);
        }
        assert(a == la + p * ua);
        assert(b == lb + p * ub);
        // the longer operand has a nonzero upper part, so every operand sum shrinks
        if sa.len() == tmp {
            assert(sa.skip(split_point as int).last() == sa.last());
            crate::words::lemma_val_lower(sa.skip(split_point as int));
            assert(ua > 0);
        } else {
            assert(sb.skip(split_point as int).last() == sb.last());
            crate::words::lemma_val_lower(sb.skip(split_point as int));
            assert(ub > 0);
        }
        assert(p >= 2);
        assert(ua + ub < a + b) by (nonlinear_arith)
            requires a == la + p * ua, b == lb + p * ub, p >= 2, ua > 0 || ub > 0;
        assert(la + lb < a + b) by (nonlinear_arith)
            requires a == la + p * ua, b == lb + p * ub, p >= 2, ua > 0 || ub > 0;
        assert(ua + la + ub + lb < a + b) by (nonlinear_arith)
            requires a == la + p * ua, b == lb + p * ub, p >= 2, ua > 0 || ub > 0;
    }
    let upper = BigInt::from_biguint(karatsuba_mul(right_upper.copy(), left_upper.copy()));
    let lower = BigInt::from_biguint(karatsuba_mul(right_lower.copy(), left_lower.copy()));
    let middle = BigInt::from_biguint(karatsuba_mul(right_upper.add(right_lower), left_upper.add(left_lower)))
        .sub(upper.copy())
        .sub(lower.copy());
    let total = upper.shl_words(split_point).shl_words(split_point)
        .add(middle.shl_words(split_point))
        .add(lower);
    proof {
        let h = ua * ub;
        let l = la * lb;
        let m = (ua + la) * (ub + lb) - h - l;
        assert(total@ == h * p * p + m * p + l);
        assert((ua + la) * (ub + lb) == ua * ub + ua * lb + la * ub + la * lb) by (nonlinear_arith);
        assert(m == ua * lb + la * ub);
        assert((la + p * ua) * (lb + p * ub) == la * lb + p * (ua * lb + la * ub) + p * p * (ua * ub))
            by (nonlinear_arith);
        assert(h * p * p == p * p * h) by (nonlinear_arith);
        assert(m * p == p * m) by (nonlinear_arith);
        assert(h * p * p + m * p + l == a * b);
        assert(a * b >= 0) by (nonlinear_arith);
    }
    // the accumulation equals the product of two magnitudes, so it is never negative
    total.inner
}

} // verus!
