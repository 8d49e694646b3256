use long_arithmetic::bigint::{BigInt, Sign};
use long_arithmetic::biguint::BigUInt;

fn i(v: i64) -> BigInt {
    BigInt::from_i64(v)
}

#[test]
fn bigint_div_rem_test() {
    let (div, rem) = BigInt::from_i32(0).div_rem(BigInt::from_i32(1));
    assert_eq!(div, BigInt::from_i32(0));
    assert_eq!(rem, BigInt::from_i32(0));

    let (div, rem) = BigInt::from_i32(127).div_rem(BigInt::from_i32(2));
    assert_eq!(div, BigInt::from_i32(63));
    assert_eq!(rem, BigInt::from_i32(1));

    let (div, rem) = BigInt::from_i32(122).div_rem(BigInt::from_i32(-3));
    assert_eq!(div, BigInt::from_i32(-40));
    assert_eq!(rem, BigInt::from_i32(2));

    let (div, rem) = BigInt::from_i32(-123456).div_rem(BigInt::from_i32(47));
    assert_eq!(div, BigInt::from_i32(-2626));
    assert_eq!(rem, BigInt::from_i32(-34));

    let (div, rem) = BigInt::parse("-1234567891011121314151617181920")
        .unwrap()
        .div_rem(BigInt::from_i64(-456789101112131415i64));
    assert_eq!(div, BigInt::from_u64(2702708729269u64));
    assert_eq!(rem, BigInt::from_i64(-423862836832296285i64));
}

#[test]
fn bigint_add_test() {
    assert_eq!(i(456_789_123).add(i(123_456_789)), i(580_245_912));
    assert_eq!(i(456_789_123).add(i(-123_456_789)), i(333_332_334));
    assert_eq!(i(-456_789_123).add(i(123_456_789)), i(-333_332_334));
    assert_eq!(i(-456_789_123).add(i(-123_456_789)), i(-580_245_912));
}

#[test]
fn bigint_sub_test() {
    assert_eq!(i(456_789_123).sub(i(-123_456_789)), i(580_245_912));
    assert_eq!(i(456_789_123).sub(i(123_456_789)), i(333_332_334));
    assert_eq!(i(-456_789_123).sub(i(-123_456_789)), i(-333_332_334));
    assert_eq!(i(-456_789_123).sub(i(123_456_789)), i(-580_245_912));
}

const ORIGINAL: [u64; 1] = [0x123_0456_0789];
const POW2: [u64; 2] = [0xDBA7_EE9B_5844_C751, 0x1_4AD2];
const POW4: [u64; 3] = [0x8601_5398_2E37_07A1, 0x0F24_B6D5_18CB_E208, 0x1_AB84_4BFA];
const POW8: [u64; 6] = [
    0x33E5_47C2_2368_3341,
    0x438A_893F_691C_BEE9,
    0x1DD8_A227_897B_FE70,
    0x8434_FDB6_53E3_A3DF,
    0xC9F2_99D2_9EF0_90E8,
    0x2,
];
const POW10: [u64; 7] = [
    0xCC35_4D9A_2913_BE91,
    0xD87F_0854_504C_4A4C,
    0x078E_81D7_CF7E_C461,
    0x063F_F73B_69F5_D08B,
    0xD396_F1E9_C39B_8D33,
    0xC7E2_8FF2_C990_3B86,
    0x3_9A9E,
];

fn minus(words: Vec<u64>) -> BigInt {
    BigInt::from_parts(BigUInt::from_vec(words), Sign::Minus)
}

#[test]
fn bigint_mul_test() {
    assert_eq!(BigInt::from_i32(0).mul(BigInt::from_u64(123_456_789)), BigInt::from_i32(0));
    assert_eq!(BigInt::from_i32(-1).mul(BigInt::from_u64(123_456_789)), BigInt::from_i32(-123_456_789));
    assert_eq!(BigInt::from_i32(-3).mul(BigInt::from_u64(123_456_789)), BigInt::from_i32(-370_370_367));
    assert_eq!(
        BigInt::from_u64(u64::MAX).mul(BigInt::from_u64(u64::MAX)),
        BigInt::from_vec(vec![0x0000_0000_0000_0001, 0xFFFF_FFFF_FFFF_FFFE])
    );
    assert_eq!(
        minus([0xFFFF_FFFF_FFFF_FFFF, 0x1111_1111_1111_1111, 0x3333].to_vec())
            .mul(BigInt::from_vec([0xFFFF_FFFF_FFFF_FFFF, 0x2222_2222_2222_2222, 0x3456].to_vec())),
        minus(
            [
                0x0000_0000_0000_0001,
                0xCCCC_CCCC_CCCC_CCCB,
                0x530E_CA86_41FD_51EC,
                0xCF13_579B_E024_C5E5,
                0xA77_9972
            ]
            .to_vec()
        )
    );

    let original = minus(ORIGINAL.to_vec());
    let pow2 = BigInt::from_vec(POW2.to_vec());
    let pow4 = BigInt::from_vec(POW4.to_vec());
    let pow5 = BigInt::from_parts(
        BigUInt::from_vec(POW4.to_vec()).mul(BigUInt::from_vec(ORIGINAL.to_vec())),
        Sign::Minus,
    );
    let pow8 = BigInt::from_vec(POW8.to_vec());
    let pow10 = BigInt::from_vec(POW10.to_vec());

    assert_eq!(original.clone().mul(original.clone()), pow2);
    assert_eq!(pow2.clone().mul(pow2.clone()), pow4);
    assert_eq!(pow4.clone().mul(pow4.clone()), pow8);
    assert_eq!(pow4.clone().mul(original), pow5);
    assert_eq!(pow2.mul(pow8), pow10);
}

#[test]
fn bigint_pow_test() {
    let original = minus(ORIGINAL.to_vec());
    let pow2 = BigInt::from_vec(POW2.to_vec());
    let pow4 = BigInt::from_vec(POW4.to_vec());
    let pow5 = BigInt::from_parts(
        BigUInt::from_vec(POW4.to_vec()).mul(BigUInt::from_vec(ORIGINAL.to_vec())),
        Sign::Minus,
    );
    let pow8 = BigInt::from_vec(POW8.to_vec());
    let pow10 = BigInt::from_vec(POW10.to_vec());

    assert_eq!(original.clone().pow(0), BigInt::from_i32(1));
    assert_eq!(original.clone().pow(1), original);
    assert_eq!(original.clone().pow(2), pow2);
    assert_eq!(original.clone().pow(4), pow4);
    assert_eq!(original.clone().pow(5), pow5);
    assert_eq!(original.clone().pow(8), pow8);
    assert_eq!(original.pow(10), pow10);
}

const LEFT: [u64; 3] = [0x0000_0000_0000_0000, 0x2000_0000_0000_0000, 0x24_608A_C0F1];
const RIGHT: [u64; 1] = [0x123_0456_0789];
const SHIFTED10: [u64; 1] = [0x4_8C11_581E_2400];

#[test]
fn bigint_shl_test() {
    let right = minus(RIGHT.to_vec());
    let left = minus(LEFT.to_vec());
    let shifted10 = minus(SHIFTED10.to_vec());

    assert_eq!(right.clone().shl(10), shifted10);

    let mut num = right.clone();
    for _ in 0..125 {
        num = num.shl(1);
    }
    assert_eq!(num, left);

    assert_eq!(right.shl(125), left);
}

#[test]
fn bigint_shr_test() {
    let right = minus(RIGHT.to_vec());
    let left = minus(LEFT.to_vec());
    let shifted10 = minus(SHIFTED10.to_vec());
    assert_eq!(shifted10.clone().shr(10), right);

    let mut num = left.clone();
    for _ in 0..125 {
        num = num.shr(1);
    }
    assert_eq!(num, right);

    assert_eq!(left.shr(125), right);
}

#[test]
fn bigint_sub_then_add_restores() {
    let a = i(-17);
    let b = BigInt::parse("123456789012345678901234567890").unwrap();
    assert_eq!(a.clone().sub(b.clone()).add(b), a);
}

#[test]
fn bigint_neg_keeps_zero_positive() {
    let z = i(0).neg();
    assert_eq!(z.sign, Sign::Plus);
    assert_eq!(i(5).neg(), i(-5));
    assert_eq!(i(-5).neg(), i(5));
}

#[test]
fn bigint_fix_zero_normalizes_sign() {
    let z = BigInt::from_parts(BigUInt::from_u64(0), Sign::Minus).fix_zero();
    assert_eq!(z.sign, Sign::Plus);
    let v = BigInt::from_parts(BigUInt::from_u64(4), Sign::Minus).fix_zero();
    assert_eq!(v.sign, Sign::Minus);
}

#[test]
fn bigint_zero_times_negative_is_positive_zero() {
    assert_eq!(i(0).mul(i(-9)).sign, Sign::Plus);
}

#[test]
fn bigint_shr_to_zero_is_positive() {
    let r = i(-1).shr(1);
    assert_eq!(r, i(0));
    assert_eq!(r.sign, Sign::Plus);
}

#[test]
fn bigint_div_rem_remainder_sign() {
    let (q, r) = i(-7).div_rem(i(-2));
    assert_eq!(q, i(3));
    assert_eq!(r, i(-1));
    let (q, r) = i(7).div_rem(i(-2));
    assert_eq!(q, i(-3));
    assert_eq!(r, i(1));
    let (q, r) = i(-6).div_rem(i(3));
    assert_eq!(q, i(-2));
    assert_eq!(r.sign, Sign::Plus);
}

#[test]
fn bigint_to_biguint() {
    assert_eq!(i(5).to_biguint(), Ok(BigUInt::from_u64(5)));
    assert_eq!(i(-5).to_biguint(), Err(()));
}

#[test]
fn bigint_in_place_operations() {
    let mut x = i(-10);
    x.add_assign(i(3));
    assert_eq!(x, i(-7));
    x.sub_assign(i(-10));
    assert_eq!(x, i(3));
    x.mul_assign(i(-4));
    assert_eq!(x, i(-12));
    x.div_assign(i(5));
    assert_eq!(x, i(-2));
    x.shl_assign(4);
    assert_eq!(x, i(-32));
    x.shr_assign(2);
    assert_eq!(x, i(-8));
    x.rem_assign(i(3));
    assert_eq!(x, i(-2));
}

#[test]
fn bigint_div_and_rem() {
    assert_eq!(i(-123456).div(i(47)), i(-2626));
    assert_eq!(i(-123456).rem(i(47)), i(-34));
}

#[test]
fn bigint_shift_round_trip() {
    let v = BigInt::parse("-98765432109876543210987654321").unwrap();
    for bits in 0..=130u32 {
        assert_eq!(v.clone().shl(bits).shr(bits), v);
    }
}
