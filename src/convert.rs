//! Decimal text and native integers in and out of the arbitrary-precision types.
use vstd::prelude::*;
use vstd::string::{StrSliceExecFns, StringExecFns};
use crate::words::{val, pw, lemma_val_lower, lemma_val_bound};
use crate::biguint::BigUInt;
use crate::bigint::{BigInt, Sign};

verus! {

#[derive(Clone, Copy, Debug, PartialEq, Eq, Structural)]
pub enum ParseIntError {
    Empty,
    InvalidDigit,
}

pub open spec fn is_digit(c: char) -> bool {
    '0' <= c && c <= '9'
}

pub open spec fn all_digits(s: Seq<char>) -> bool {
    forall|i: int| 0 <= i < s.len() ==> is_digit(#[trigger] s[i])
}

/// The value of a digit character.
pub open spec fn digit_of(c: char) -> nat {
    (c as u32 - '0' as u32) as nat
}

/// The character of a digit below ten.
pub open spec fn char_of(d: nat) -> char {
    (d + '0' as u32) as char
}

/// The value of a string of decimal digits, most significant first.
pub open spec fn digits_val(s: Seq<char>) -> nat
    decreases s.len(),
{
    if s.len() == 0 {
        0
    } else {
        digits_val(s.drop_last()) * 10 + digit_of(s.last())
    }
}

/// What parsing a magnitude yields.
pub open spec fn unsigned_parse(s: Seq<char>) -> Result<nat, ParseIntError> {
    if s.len() == 0 {
        Err(ParseIntError::Empty)
    } else if !all_digits(s) {
        Err(ParseIntError::InvalidDigit)
    } else {
        Ok(digits_val(s))
    }
}

/// What parsing a signed integer yields, once surrounding whitespace is gone.
pub open spec fn signed_parse(s: Seq<char>) -> Result<int, ParseIntError> {
    if s.len() > 0 && s[0] == '-' {
        match unsigned_parse(s.skip(1)) {
            Ok(n) => Ok(-(n as int)),
            Err(e) => Err(e),
        }
    } else {
        match unsigned_parse(s) {
            Ok(n) => Ok(n as int),
            Err(e) => Err(e),
        }
    }
}

/// The canonical decimal text of a natural number.
pub open spec fn dec(n: nat) -> Seq<char>
    decreases n,
{
    if n < 10 {
        seq![char_of(n)]
    } else {
        dec(n / 10).push(char_of(n % 10))
    }
}

/// The canonical decimal text of an integer: a `-` before a negative one.
pub open spec fn signed_dec(x: int) -> Seq<char> {
    if x < 0 {
        seq!['-'] + dec((-x) as nat)
    } else {
        dec(x as nat)
    }
}

/// Digits stored least significant first, as text most significant first.
pub open spec fn rev_chars(ds: Seq<u8>) -> Seq<char> {
    Seq::new(ds.len(), |i: int| char_of(ds[ds.len() - 1 - i] as nat))
}

/// What surrounding whitespace trimming leaves of a text.
pub uninterp spec fn trimmed(s: Seq<char>) -> Seq<char>;

/// Relies on `str::trim`: the text without leading and trailing whitespace,
/// a function of the characters alone.
#[verifier::external_body]
fn trim_whitespace(s: &str) -> (r: &str)
    ensures
        r@ == trimmed(s@),
{
    s.trim()
}

/// The text of one decimal digit.
fn digit_str(d: u8) -> (r: &'static str)
    requires
        d < 10,
    ensures
        r@ == seq![char_of(d as nat)],
{
    proof {
        reveal_strlit("0");
        reveal_strlit("1");
        reveal_strlit("2");
        reveal_strlit("3");
        reveal_strlit("4");
        reveal_strlit("5");
        reveal_strlit("6");
        reveal_strlit("7");
        reveal_strlit("8");
        reveal_strlit("9");
    }
    match d {
        0 => "0",
        1 => "1",
        2 => "2",
        3 => "3",
        4 => "4",
        5 => "5",
        6 => "6",
        7 => "7",
        8 => "8",
        _ => "9",
    }
}

impl BigUInt {
    /// Parses decimal digits, accumulating `acc * 10 + digit`.
    pub fn parse(s: &str) -> (r: Result<BigUInt, ParseIntError>)
        ensures
            match r {
                Ok(v) => v.wf() && unsigned_parse(s@) == Ok::<nat, ParseIntError>(v@),
                Err(e) => unsigned_parse(s@) == Err::<nat, ParseIntError>(e),
            },
    {
        let n = s.unicode_len();
        if n == 0 {
            return Err(ParseIntError::Empty);
        }
        let mut acc = BigUInt::zero();
        let mut i: usize = 0;
        proof {
            assert(s@.take(0).len() == 0);
        }
        while i < n
            invariant
                n == s@.len(),
                i <= n,
                acc.wf(),
                all_digits(s@.take(i as int)),
                acc@ == digits_val(s@.take(i as int)),
            decreases n - i,
        {
            let c = s.get_char(i);
            if !('0' <= c && c <= '9') {
                proof {
                    assert(!is_digit(s@[i as int]));
                }
                return Err(ParseIntError::InvalidDigit);
            }
            let d = (c as u32 - '0' as u32) as u64;
            acc = acc.mul(BigUInt::from_u64(10)).add(BigUInt::from_u64(d));
            proof {
                let t = s@.take(i as int + 1);
                assert(t.drop_last() =~= s@.take(i as int));
                assert(t.last() == c);
            }
            i = i + 1;
        }
        proof {
            assert(s@.take(n as int) =~= s@);
        }
        Ok(acc)
    }

    /// The canonical decimal text: digits from repeated division by ten.
    pub fn to_string(&self) -> (r: String)
        requires
            self.wf(),
        ensures
            r@ == dec(self@),
    {
        if self.is_zero() {
            proof {
                reveal_strlit("0");
            }
            return String::from_str("0");
        }
        let ghost v = self@;
        let mut ds: Vec<u8> = Vec::new();
        let mut num = self.copy();
        while !num.is_zero()
            invariant
                num.wf(),
                num@ > 0 ==> dec(v) == dec(num@) + rev_chars(ds@),
                num@ == 0 ==> dec(v) == rev_chars(ds@),
                forall|k: int| 0 <= k < ds@.len() ==> ds@[k] < 10,
            decreases num@,
        {
            let ghost n0 = num@;
            let (q, rem) = num.div_rem(BigUInt::from_u64(10));
            let d = rem.only_word();
            proof {
                assert(rev_chars(ds@.push(d as u8)) =~= seq![char_of(d as nat)] + rev_chars(ds@));
                if n0 < 10 {
                    assert(q@ == 0);
                    assert(dec(n0) == seq![char_of(n0)]);
                } else {
                    assert(dec(n0) == dec(n0 / 10).push(char_of(n0 % 10)));
                    assert(dec(q@) + rev_chars(ds@.push(d as u8)) =~= dec(q@).push(char_of(d as nat)) + rev_chars(ds@));
                }
            }
            ds.push(d as u8);
            num = q;
        }
        let mut out = String::new();
        let mut j: usize = ds.len();
        proof {
            assert(out@ =~= rev_chars(ds@).take(0));
        }
        while j > 0
            invariant
                j <= ds@.len(),
                forall|k: int| 0 <= k < ds@.len() ==> ds@[k] < 10,
                out@ == rev_chars(ds@).take(ds@.len() - j),
            decreases j,
        {
            let piece = digit_str(ds[j - 1]);
            out.append(piece);
            j = j - 1;
            proof {
                assert(out@ =~= rev_chars(ds@).take(ds@.len() - j));
            }
        }
        proof {
            assert(rev_chars(ds@).take(ds@.len() as int) =~= rev_chars(ds@));
        }
        out
    }

    /// The value of a magnitude of at most one word.
    fn only_word(&self) -> (r: u64)
        requires
            self.wf(),
            self@ < 10,
        ensures
            r as nat == self@,
    {
        if self.0.len() == 0 {
            0
        } else {
            proof {
                if self.0@.len() > 1 {
                    lemma_val_lower(self.0@);
                    crate::biguint::lemma_pw_mono(1, (self.0@.len() - 1) as nat);
                    assert(pw(1) == crate::words::base() * pw(0));
                }
                assert(self.0@.drop_last().len() == 0);
                assert(val(self.0@.drop_last()) == 0);
                assert(pw(0) == 1);
                assert(self.0@[0] as nat * 1 == self.0@[0] as nat);
            }
            self.0[0]
        }
    }

    /// The value as one native word; fails when it needs more than one.
    pub fn to_u64(&self) -> (r: Result<u64, ()>)
        requires
            self.wf(),
        ensures
            r is Ok <==> self.0@.len() <= 1,
            r is Ok <==> self@ < crate::words::base(),
            r matches Ok(x) ==> x as nat == self@,
    {
        proof {
            assert(pw(1) == crate::words::base() * pw(0));
            assert(pw(0) == 1);
            if self.0@.len() > 1 {
                lemma_val_lower(self.0@);
                crate::biguint::lemma_pw_mono(1, (self.0@.len() - 1) as nat);
            } else {
                lemma_val_bound(self.0@);
            }
        }
        match self.0.len() {
            0 => Ok(0),
            1 => {
                proof {
                    assert(self.0@.drop_last().len() == 0);
                    assert(val(self.0@.drop_last()) == 0);
                    assert(self.0@[0] as nat * 1 == self.0@[0] as nat);
                }
                Ok(self.0[0])
            },
            _ => Err(()),
        }
    }

    /// The little-endian words.
    pub fn into_vec(self) -> (r: Vec<u64>)
        ensures
            r@ == self.0@,
    {
        self.0
    }
}

impl BigInt {
    /// Parses an optional `-` followed by decimal digits; no whitespace is accepted here.
    pub fn parse_trimmed(t: &str) -> (r: Result<BigInt, ParseIntError>)
        ensures
            match r {
                Ok(v) => v.wf() && signed_parse(t@) == Ok::<int, ParseIntError>(v@),
                Err(e) => signed_parse(t@) == Err::<int, ParseIntError>(e),
            },
    {
        let n = t.unicode_len();
        if n > 0 && t.get_char(0) == '-' {
            let rest = t.substring_char(1, n);
            proof {
                assert(rest@ =~= t@.skip(1));
            }
            match BigUInt::parse(rest) {
                Ok(m) => Ok(BigInt::from_parts(m, Sign::Minus).fix_zero()),
                Err(e) => Err(e),
            }
        } else {
            match BigUInt::parse(t) {
                Ok(m) => Ok(BigInt::from_biguint(m)),
                Err(e) => Err(e),
            }
        }
    }

    /// Parses decimal text with an optional leading `-`, ignoring surrounding whitespace.
    pub fn parse(s: &str) -> (r: Result<BigInt, ParseIntError>)
        ensures
            match r {
                Ok(v) => v.wf() && signed_parse(trimmed(s@)) == Ok::<int, ParseIntError>(v@),
                Err(e) => signed_parse(trimmed(s@)) == Err::<int, ParseIntError>(e),
            },
    {
        BigInt::parse_trimmed(trim_whitespace(s))
    }

    /// The canonical decimal text, with `-` before a negative value.
    pub fn to_string(&self) -> (r: String)
        requires
            self.wf(),
        ensures
            r@ == signed_dec(self@),
    {
        let digits = self.inner.to_string();
        match self.sign {
            Sign::Plus => digits,
            Sign::Minus => {
                proof {
                    reveal_strlit("-");
                }
                let mut out = String::from_str("-");
                out.append(digits.as_str());
                out
            },
        }
    }

    /// The magnitude, when the value is not negative.
    pub fn to_biguint(self) -> (r: Result<BigUInt, ()>)
        requires
            self.wf(),
        ensures
            r is Ok <==> self@ >= 0,
            r matches Ok(m) ==> m.wf() && m@ == self@,
    {
        match self.sign {
            Sign::Plus => Ok(self.inner),
            Sign::Minus => Err(()),
        }
    }
}

} // verus!
