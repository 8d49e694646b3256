//! The mathematical model of a little-endian word sequence and the facts
//! about it that the arithmetic relies on.
use vstd::prelude::*;
use vstd::arithmetic::power2::{pow2, lemma_pow2_adds, lemma2_to64, lemma2_to64_rest, lemma_pow2_unfold, lemma_pow2_pos};
use vstd::std_specs::bits::u64_leading_zeros;
use vstd::arithmetic::mul::{lemma_mul_inequality, lemma_mul_strictly_positive};

verus! {

/// The radix of the representation: one 64-bit word.
pub open spec fn base() -> nat {
    0x1_0000_0000_0000_0000
}

/// `base()` raised to the power `n`.
pub open spec fn pw(n: nat) -> nat
    decreases n,
{
    if n == 0 {
        1
    } else {
        base() * pw((n - 1) as nat)
    }
}

/// The value of a little-endian sequence of words.
pub open spec fn val(s: Seq<u64>) -> nat
    decreases s.len(),
{
    if s.len() == 0 {
        0
    } else {
        val(s.drop_last()) + s.last() as nat * pw((s.len() - 1) as nat)
    }
}

/// No superfluous most-significant zero word; zero is the empty sequence.
pub open spec fn normalized(s: Seq<u64>) -> bool {
    s.len() == 0 || s.last() != 0
}

pub proof fn lemma_pw_pos(n: nat)
    ensures
        pw(n) > 0,
    decreases n,
{
    if n > 0 {
        lemma_pw_pos((n - 1) as nat);
        lemma_mul_strictly_positive(base() as int, pw((n - 1) as nat) as int);
    }
}

pub proof fn lemma_pw_adds(a: nat, b: nat)
    ensures
        pw(a + b) == pw(a) * pw(b),
    decreases a,
{
    if a > 0 {
        let a1 = (a - 1) as nat;
        lemma_pw_adds(a1, b);
        assert((a + b - 1) as nat == a1 + b);
        let x = pw(a1);
        let y = pw(b);
        let w = base();
        assert(pw(a + b) == w * pw(a1 + b));
        assert(pw(a) == w * x);
        assert(w * (x * y) == (w * x) * y) by (nonlinear_arith);
        assert(pw(a + b) == pw(a) * pw(b));
    } else {
        assert(pw(0) == 1);
        assert(a + b == b);
        assert(pw(a + b) == pw(b));
        assert(pw(a) * pw(b) == pw(b));
    }
}

pub proof fn lemma_pw_is_pow2(n: nat)
    ensures
        pw(n) == pow2(64 * n),
    decreases n,
{
    if n > 0 {
        lemma_pw_is_pow2((n - 1) as nat);
        lemma_pow2_adds(64, 64 * (n - 1) as nat);
        lemma2_to64();
        lemma2_to64_rest();
        assert(64 * n == 64 + 64 * (n - 1) as nat);
    } else {
        lemma2_to64();
    }
}

pub proof fn lemma_val_push(s: Seq<u64>, x: u64)
    ensures
        val(s.push(x)) == val(s) + x as nat * pw(s.len()),
{
    assert(s.push(x).drop_last() =~= s);
}

pub proof fn lemma_val_bound(s: Seq<u64>)
    ensures
        val(s) < pw(s.len()),
    decreases s.len(),
{
    if s.len() > 0 {
        let n = (s.len() - 1) as nat;
        lemma_val_bound(s.drop_last());
        let p = pw(n);
        let x = s.last() as nat;
        assert(x * p <= (base() - 1) * p) by {
            lemma_mul_inequality(x as int, base() - 1, p as int);
        }
        assert((base() - 1) * p + p == base() * p) by (nonlinear_arith);
    }
}

/// A normalized nonempty sequence is at least `pw(len - 1)`.
pub proof fn lemma_val_lower(s: Seq<u64>)
    requires
        s.len() > 0,
        normalized(s),
    ensures
        val(s) >= pw((s.len() - 1) as nat),
{
    let p = pw((s.len() - 1) as nat);
    assert(s.last() as nat * p >= p) by {
        lemma_mul_inequality(1, s.last() as int, p as int);
    }
}

pub proof fn lemma_val_split(s: Seq<u64>, k: nat)
    requires
        k <= s.len(),
    ensures
        val(s) == val(s.take(k as int)) + pw(k) * val(s.skip(k as int)),
    decreases s.len(),
{
    if k == s.len() {
        assert(s.take(k as int) =~= s);
        assert(s.skip(k as int).len() == 0);
        assert(val(s.skip(k as int)) == 0);
    } else {
        let d = s.drop_last();
        lemma_val_split(d, k);
        assert(d.take(k as int) =~= s.take(k as int));
        assert(s.skip(k as int).drop_last() =~= d.skip(k as int));
        let t = s.skip(k as int);
        assert(t.last() == s.last());
        let m = (t.len() - 1) as nat;
        lemma_pw_adds(k, m);
        assert(k + m == (s.len() - 1) as nat);
        assert(val(t) == val(d.skip(k as int)) + t.last() as nat * pw(m));
        assert(val(s) == val(d) + s.last() as nat * pw((s.len() - 1) as nat));
        assert(pw(k) * (val(d.skip(k as int)) + t.last() as nat * pw(m))
            == pw(k) * val(d.skip(k as int)) + t.last() as nat * (pw(k) * pw(m))) by (nonlinear_arith);
    }
}

/// Reading a sequence from its low end: the first word plus the rest, one word up.
pub proof fn lemma_val_first(s: Seq<u64>)
    requires
        s.len() > 0,
    ensures
        val(s) == s[0] as nat + base() * val(s.skip(1)),
{
    lemma_val_split(s, 1);
    let t = s.take(1);
    assert(t.drop_last().len() == 0);
    assert(val(t.drop_last()) == 0);
    assert(pw(0) == 1);
    assert(pw(1) == base() * pw(0));
    assert(pw(1) == base());
    assert(t.last() == s[0]);
    assert(val(t) == s[0] as nat * pw(0));
    assert(s[0] as nat * 1 == s[0] as nat);
    assert(val(t) == s[0] as nat);
}

/// Zero words on top do not change the value.
pub proof fn lemma_val_trailing_zeros(s: Seq<u64>, k: int)
    requires
        0 <= k <= s.len(),
        forall|i: int| k <= i < s.len() ==> s[i] == 0,
    ensures
        val(s) == val(s.take(k)),
    decreases s.len() - k,
{
    if k < s.len() {
        let d = s.drop_last();
        lemma_val_trailing_zeros(d, k);
        assert(d.take(k) =~= s.take(k));
    } else {
        assert(s.take(k) =~= s);
    }
}

pub proof fn lemma_val_all_zero(s: Seq<u64>)
    requires
        forall|i: int| 0 <= i < s.len() ==> s[i] == 0,
    ensures
        val(s) == 0,
{
    lemma_val_trailing_zeros(s, 0);
}

/// Prepending `k` zero words multiplies the value by `pw(k)`.
pub proof fn lemma_val_shift_words(s: Seq<u64>, k: nat)
    ensures
        val(Seq::new(k, |i: int| 0u64) + s) == pw(k) * val(s),
{
    let z = Seq::new(k, |i: int| 0u64);
    let t = z + s;
    lemma_val_split(t, k);
    assert(t.take(k as int) =~= z);
    assert(t.skip(k as int) =~= s);
    lemma_val_all_zero(z);
}

/// Two sequences of one length that agree above index `j` are ordered by their words at `j`.
pub proof fn lemma_val_cmp_at(s: Seq<u64>, t: Seq<u64>, j: int)
    requires
        s.len() == t.len(),
        0 <= j < s.len(),
        s.skip(j + 1) == t.skip(j + 1),
        s[j] < t[j],
    ensures
        val(s) < val(t),
{
    lemma_val_split(s, j as nat);
    lemma_val_split(t, j as nat);
    lemma_val_first(s.skip(j));
    lemma_val_first(t.skip(j));
    assert(s.skip(j).skip(1) =~= s.skip(j + 1));
    assert(t.skip(j).skip(1) =~= t.skip(j + 1));
    lemma_val_bound(s.take(j));
    let p = pw(j as nat);
    let x = val(s.skip(j + 1));
    let a = s[j] as nat;
    let b = t[j] as nat;
    assert(val(s.take(j)) < p);
    assert(p * (a + base() * x) + p <= p * (b + base() * x)) by {
        lemma_mul_inequality((a + 1) as int, b as int, p as int);
        assert(p * (a + base() * x) + p == (a + 1) * p + p * (base() * x)) by (nonlinear_arith);
        assert(p * (b + base() * x) == b * p + p * (base() * x)) by (nonlinear_arith);
    }
}

/// Extending a prefix by one word.
pub proof fn lemma_val_take_prefix(s: Seq<u64>, k: nat)
    requires
        k < s.len(),
    ensures
        val(s.take(k as int + 1)) == val(s.take(k as int)) + s[k as int] as nat * pw(k),
{
    assert(s.take(k as int + 1).drop_last() =~= s.take(k as int));
}

/// The number of binary digits of `x` (zero has none).
pub open spec fn bit_len(x: nat) -> nat
    decreases x,
{
    if x == 0 {
        0
    } else {
        1 + bit_len(x / 2)
    }
}

pub proof fn lemma_bit_len_bounds(x: nat)
    requires
        x > 0,
    ensures
        pow2((bit_len(x) - 1) as nat) <= x < pow2(bit_len(x)),
    decreases x,
{
    let h = x / 2;
    if h == 0 {
        assert(bit_len(0) == 0);
        lemma2_to64();
    } else {
        lemma_bit_len_bounds(h);
        let b = bit_len(h);
        lemma_pow2_unfold(b);
        lemma_pow2_unfold(bit_len(x));
        assert(bit_len(x) == b + 1);
        assert((bit_len(x) - 1) as nat == b);
        lemma_pow2_unfold(b);
        if b >= 1 {
            lemma_pow2_unfold(b);
            assert(pow2(b) == 2 * pow2((b - 1) as nat));
        }
    }
}

pub proof fn lemma_bit_len_word(i: u64)
    ensures
        u64_leading_zeros(i) == 64 - bit_len(i as nat),
        bit_len(i as nat) <= 64,
    decreases i,
{
    reveal(u64_leading_zeros);
    if i != 0 {
        lemma_bit_len_word(i / 2);
    }
}

/// Bits of a normalized sequence: whole words below the top one, then the top one's digits.
pub open spec fn seq_bit_len(s: Seq<u64>) -> nat {
    if s.len() == 0 {
        0
    } else {
        64 * (s.len() - 1) as nat + bit_len(s.last() as nat)
    }
}

pub proof fn lemma_seq_bit_len_bounds(s: Seq<u64>)
    requires
        normalized(s),
        s.len() > 0,
    ensures
        pow2((seq_bit_len(s) - 1) as nat) <= val(s) < pow2(seq_bit_len(s)),
        seq_bit_len(s) <= 64 * s.len(),
{
    let n = (s.len() - 1) as nat;
    let t = s.last() as nat;
    lemma_bit_len_bounds(t);
    lemma_bit_len_word(s.last());
    let b = bit_len(t);
    lemma_pw_is_pow2(n);
    lemma_val_bound(s.drop_last());
    let p = pw(n);
    lemma_pow2_adds(64 * n, (b - 1) as nat);
    lemma_pow2_adds(64 * n, b);
    assert(pow2((b - 1) as nat) * p <= t * p) by (nonlinear_arith)
        requires pow2((b - 1) as nat) <= t;
    assert(val(s) < (t + 1) * p) by (nonlinear_arith)
        requires val(s) == val(s.drop_last()) + t * p, val(s.drop_last()) < p;
    assert((t + 1) * p <= pow2(b) * p) by (nonlinear_arith)
        requires t + 1 <= pow2(b);
    assert((64 * n + b - 1) as nat == 64 * n + (b - 1) as nat);
}

/// Bit `n` of `v`.
pub open spec fn bit(v: nat, n: nat) -> bool {
    (v / pow2(n)) % 2 == 1
}

/// Replacing one word changes the value by the difference at that word's place.
pub proof fn lemma_val_update(s: Seq<u64>, j: int, x: u64)
    requires
        0 <= j < s.len(),
    ensures
        val(s.update(j, x)) + s[j] as nat * pw(j as nat) == val(s) + x as nat * pw(j as nat),
{
    let t = s.update(j, x);
    lemma_val_split(s, j as nat);
    lemma_val_split(t, j as nat);
    assert(t.take(j) =~= s.take(j));
    lemma_val_first(s.skip(j));
    lemma_val_first(t.skip(j));
    assert(s.skip(j).skip(1) =~= t.skip(j).skip(1));
    let p = pw(j as nat);
    let h = val(s.skip(j).skip(1));
    assert(p * (x as nat + base() * h) + s[j] as nat * p == p * (s[j] as nat + base() * h) + x as nat * p)
        by (nonlinear_arith);
}

/// Bit `64 * j + b` of a value is bit `b` of its word `j`.
pub proof fn lemma_bit_of_val(s: Seq<u64>, j: int, b: nat)
    requires
        0 <= j < s.len(),
        b < 64,
    ensures
        bit(val(s), (64 * j + b) as nat) == bit(s[j] as nat, b),
{
    let p = pw(j as nat);
    let q = pow2(b);
    let r = pow2((64 - b) as nat);
    lemma_pw_pos(j as nat);
    lemma_pow2_pos(b);
    lemma_pow2_pos((64 - b) as nat);
    lemma_pw_is_pow2(j as nat);
    lemma_pow2_adds(64 * j as nat, b);
    lemma_pow2_adds(b, (64 - b) as nat);
    lemma2_to64();
    assert(q * r == base());
    lemma_val_split(s, j as nat);
    lemma_val_first(s.skip(j));
    lemma_val_bound(s.take(j));
    let l = val(s.take(j));
    let h = val(s.skip(j).skip(1));
    let w = s[j] as nat;
    let v = w + base() * h;
    assert(val(s) == v * p + l) by (nonlinear_arith)
        requires val(s) == l + p * v;
    vstd::arithmetic::div_mod::lemma_fundamental_div_mod_converse(val(s) as int, p as int, v as int, l as int);
    vstd::arithmetic::div_mod::lemma_div_denominator(val(s) as int, p as int, q as int);
    assert((64 * j + b) as nat == 64 * j as nat + b);
    assert(v == w + (r * h) * q) by (nonlinear_arith)
        requires v == w + base() * h, q * r == base();
    vstd::arithmetic::div_mod::lemma_hoist_over_denominator(w as int, (r * h) as int, q);
    lemma_pow2_adds(1, (63 - b) as nat);
    assert(r == 2 * pow2((63 - b) as nat)) by {
        assert((1 + (63 - b)) as nat == (64 - b) as nat);
        assert(pow2(1) == 2);
    }
    let k = pow2((63 - b) as nat) * h;
    assert(r * h == 2 * k) by (nonlinear_arith)
        requires r == 2 * pow2((63 - b) as nat), k == pow2((63 - b) as nat) * h;
    vstd::arithmetic::div_mod::lemma_mod_multiples_vanish(k as int, (w / q) as int, 2);
}

} // verus!
