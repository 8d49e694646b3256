use long_arithmetic::biguint::BigUInt;

fn n(v: u64) -> BigUInt {
    BigUInt::from_u64(v)
}

fn w(v: Vec<u64>) -> BigUInt {
    BigUInt::from_vec(v)
}

#[test]
fn is_zero_test() {
    assert!(n(0).is_zero());
    assert!(!n(128).is_zero());
    assert!(!n(127).is_zero());
    assert!(!w(vec![0, 0, 0, 123]).is_zero());
}

#[test]
fn divisible_by_2_test() {
    assert!(n(0).divisible_by_2());
    assert!(n(12_345_678).divisible_by_2());
    assert!(w(vec![12_345_678, 123, 456, 789]).divisible_by_2());
}

#[test]
fn bits_num_test() {
    assert_eq!(n(0).bits_num(), 0);
    assert_eq!(n(128).bits_num(), 8);
    assert_eq!(n(127).bits_num(), 7);
    assert_eq!(w(vec![0, 0, 0, 123]).bits_num(), 64 * 3 + 7);
}

#[test]
fn biguint_div_rem_test() {
    let (div, rem) = n(0).div_rem(n(1));
    assert_eq!(div, n(0));
    assert_eq!(rem, n(0));

    let (div, rem) = n(127).div_rem(n(2));
    assert_eq!(div, n(63));
    assert_eq!(rem, n(1));

    let (div, rem) = n(122).div_rem(n(3));
    assert_eq!(div, n(40));
    assert_eq!(rem, n(2));

    let (div, rem) = n(123456).div_rem(n(47));
    assert_eq!(div, n(2626));
    assert_eq!(rem, n(34));

    let (div, rem) = BigUInt::parse("1234567891011121314151617181920")
        .unwrap()
        .div_rem(n(456789101112131415));
    assert_eq!(div, n(2702708729269));
    assert_eq!(rem, n(423862836832296285));
}

#[test]
fn biguint_add_test() {
    assert_eq!(n(0).add(n(123_456_789)), n(123_456_789));
    assert_eq!(n(3).add(n(123_456_789)), n(123_456_792));
    assert_eq!(n(u64::MAX).add(n(u64::MAX)), w(vec![u64::MAX - 1, 1]));
    assert_eq!(n(0).add(w(vec![123, 456, 789])), w(vec![123, 456, 789]));
    assert_eq!(
        w(vec![987, 654, 321]).add(w(vec![123, 456, 789])),
        w(vec![1110, 1110, 1110])
    );
    assert_eq!(
        w(vec![u64::MAX, u64::MAX, u64::MAX]).add(n(1)),
        w(vec![0, 0, 0, 1])
    );
    assert_eq!(
        w(vec![u64::MAX, u64::MAX, u64::MAX]).add(w(vec![3, 2, 1])),
        w(vec![2, 2, 1, 1])
    );
}

#[test]
fn biguint_sub_test() {
    assert_eq!(n(123_456_789).sub(n(0)), n(123_456_789));
    assert_eq!(n(123_456_789).sub(n(123_456_789)), n(0));
    assert_eq!(
        w(vec![123_456_789, 123_456_789]).sub(w(vec![9, 123_456_789])),
        w(vec![123_456_780])
    );
    assert_eq!(
        w(vec![u64::MAX, u64::MAX, 3]).sub(w(vec![u64::MAX, u64::MAX, 2])),
        w(vec![0, 0, 1])
    );
    assert_eq!(
        w(vec![0x123, 0x456, 0x789]).sub(w(vec![0x987, 0x654, 0x321])),
        w(vec![0xFFFF_FFFF_FFFF_F79C, 0xFFFF_FFFF_FFFF_FE01, 0x467])
    );
    assert_eq!(
        w(vec![0, 0, 0, 1]).sub(n(1)),
        w(vec![u64::MAX, u64::MAX, u64::MAX]),
    );
    assert_eq!(
        w(vec![2, 2, 1, 1]).sub(w(vec![u64::MAX, u64::MAX, u64::MAX])),
        w(vec![3, 2, 1]),
    );
}

const ORIGINAL: [u64; 1] = [0x123_0456_0789];
const POW2: [u64; 2] = [0xDBA7_EE9B_5844_C751, 0x1_4AD2];
const POW4: [u64; 3] = [0x8601_5398_2E37_07A1, 0x0F24_B6D5_18CB_E208, 0x1_AB84_4BFA];
const POW8: [u64; 6] = [
    0x33E5_47C2_2368_3341,
    0x438A_893F_691C_BEE9,
    0x1DD8_A227_897B_FE70,
    0x8434_FDB6_53E3_A3DF,
    0xC9F2_99D2_9EF0_90E8,
    0x2,
];
const POW10: [u64; 7] = [
    0xCC35_4D9A_2913_BE91,
    0xD87F_0854_504C_4A4C,
    0x078E_81D7_CF7E_C461,
    0x063F_F73B_69F5_D08B,
    0xD396_F1E9_C39B_8D33,
    0xC7E2_8FF2_C990_3B86,
    0x3_9A9E,
];

#[test]
fn biguint_mul_test() {
    assert_eq!(n(0).mul(n(123_456_789)), n(0));
    assert_eq!(n(1).mul(n(123_456_789)), n(123_456_789));
    assert_eq!(n(3).mul(n(123_456_789)), n(370_370_367));
    assert_eq!(
        n(u64::MAX).mul(n(u64::MAX)),
        w(vec![0x0000_0000_0000_0001, 0xFFFF_FFFF_FFFF_FFFE])
    );
    assert_eq!(
        w(vec![0xFFFF_FFFF_FFFF_FFFF, 0x1111_1111_1111_1111, 0x3333])
            .mul(w(vec![0xFFFF_FFFF_FFFF_FFFF, 0x2222_2222_2222_2222, 0x3456])),
        w(vec![
            0x0000_0000_0000_0001,
            0xCCCC_CCCC_CCCC_CCCB,
            0x530E_CA86_41FD_51EC,
            0xCF13_579B_E024_C5E5,
            0xA77_9972
        ])
    );

    let original = w(ORIGINAL.to_vec());
    let pow2 = w(POW2.to_vec());
    let pow4 = w(POW4.to_vec());
    let pow8 = w(POW8.to_vec());
    let pow10 = w(POW10.to_vec());

    assert_eq!(original.clone().mul(original.clone()), pow2);
    assert_eq!(pow2.clone().mul(pow2.clone()), pow4);
    assert_eq!(pow4.clone().mul(pow4.clone()), pow8);
    assert_eq!(pow2.mul(pow8), pow10);
}

#[test]
fn biguint_pow_test() {
    let original = w(ORIGINAL.to_vec());
    let pow2 = w(POW2.to_vec());
    let pow4 = w(POW4.to_vec());
    let pow8 = w(POW8.to_vec());
    let pow10 = w(POW10.to_vec());

    assert_eq!(original.clone().pow(0), n(1));
    assert_eq!(original.clone().pow(1), original);
    assert_eq!(original.clone().pow(2), pow2);
    assert_eq!(original.clone().pow(4), pow4);
    assert_eq!(original.clone().pow(8), pow8);
    assert_eq!(original.pow(10), pow10);
}

const LEFT: [u64; 3] = [0x0000_0000_0000_0000, 0x2000_0000_0000_0000, 0x24_608A_C0F1];
const RIGHT: [u64; 1] = [0x123_0456_0789];
const SHIFTED10: [u64; 1] = [0x4_8C11_581E_2400];

#[test]
fn biguint_shl_test() {
    assert_eq!(w(RIGHT.to_vec()).shl(10), w(SHIFTED10.to_vec()));

    let original = w(RIGHT.to_vec());
    let shifted = w(LEFT.to_vec());

    let mut num = original.clone();
    for _ in 0..125 {
        num = num.shl(1);
    }
    assert_eq!(num, shifted);

    assert_eq!(original.shl(125), shifted);
}

#[test]
fn biguint_shr_test() {
    assert_eq!(w(SHIFTED10.to_vec()).shr(10), w(RIGHT.to_vec()));

    let original = w(LEFT.to_vec());
    let shifted = w(RIGHT.to_vec());

    let mut num = original.clone();
    for _ in 0..125 {
        num = num.shr(1);
    }
    assert_eq!(num, shifted);

    assert_eq!(original.shr(125), shifted);
}

#[test]
fn biguint_add_commutes_and_associates() {
    let a = w(vec![u64::MAX, 7, 3]);
    let b = w(vec![9, u64::MAX]);
    let c = n(u64::MAX);
    assert_eq!(a.clone().add(b.clone()), b.clone().add(a.clone()));
    assert_eq!(
        a.clone().add(b.clone()).add(c.clone()),
        a.clone().add(b.clone().add(c.clone()))
    );
    assert_eq!(a.clone().add(n(0)), a);
}

#[test]
fn biguint_sub_then_add_restores() {
    let a = w(vec![0, 0, 5]);
    let b = w(vec![u64::MAX, 3]);
    assert_eq!(a.clone().sub(b.clone()).add(b), a);
}

#[test]
fn biguint_shift_round_trip() {
    let v = w(vec![0x0123_4567_89AB_CDEF, 0xFEDC_BA98_7654_3210, 42]);
    for bits in 0..=130u32 {
        assert_eq!(v.clone().shl(bits).shr(bits), v);
    }
}

#[test]
fn biguint_shr_past_the_top_is_zero() {
    assert_eq!(n(1).shr(200), n(0));
    assert_eq!(w(vec![1, 2, 3]).shr(64 * 3), n(0));
}

#[test]
fn biguint_from_vec_drops_top_zeros() {
    assert_eq!(w(vec![5, 0, 0]).into_vec(), vec![5]);
    assert_eq!(w(vec![0, 0]).into_vec(), Vec::<u64>::new());
}

#[test]
fn biguint_div_rem_law() {
    let a = w(vec![0x1234, 0x5678, 0x9ABC, 0xDEF0]);
    let b = w(vec![0xFFFF_FFFF, 0x3]);
    let (q, r) = a.clone().div_rem(b.clone());
    assert_eq!(q.mul(b.clone()).add(r.clone()), a);
    assert!(r.cmp(&b) == std::cmp::Ordering::Less);
}

#[test]
fn biguint_divisor_larger_than_dividend() {
    let (q, r) = n(5).div_rem(w(vec![0, 1]));
    assert_eq!(q, n(0));
    assert_eq!(r, n(5));
}

#[test]
fn biguint_to_u64_narrowing() {
    assert_eq!(n(0).to_u64(), Ok(0));
    assert_eq!(n(77).to_u64(), Ok(77));
    assert_eq!(w(vec![1, 1]).to_u64(), Err(()));
}

#[test]
fn biguint_order_agrees_with_sub() {
    let a = n(10);
    let b = w(vec![3, 1]);
    assert!(a.cmp(&b) == std::cmp::Ordering::Less);
    assert!(!b.clone().sub(a.clone()).is_zero());
    assert!(b.ge(&a));
}

#[test]
fn set_bit_test() {
    let mut num = n(0);
    num.set_bit(130);
    assert_eq!(num, w(vec![0, 0, 4]));

    let mut num = n(128);
    num.set_bit(130);
    assert_eq!(num, w(vec![128, 0, 4]));

    let mut num = w(vec![128, 0, 9]);
    num.set_bit(130);
    assert_eq!(num, w(vec![128, 0, 13]));

    let mut num = w(vec![128, 0, 8]);
    num.set_bit(131);
    assert_eq!(num, w(vec![128, 0, 8]));

    let mut num = n(128);
    num.set_bit(4);
    assert_eq!(num, n(144));

    let mut num = n(0);
    num.set_bit(0);
    assert_eq!(num, n(1));

    let mut num = n(0);
    num.set_bit(1);
    assert_eq!(num, n(2));
}

#[test]
fn biguint_in_place_operations() {
    let mut x = n(100);
    x.add_assign(n(28));
    assert_eq!(x, n(128));
    x.sub_assign(n(3));
    assert_eq!(x, n(125));
    x.mul_assign(w(vec![0, 1]));
    assert_eq!(x, w(vec![0, 125]));
    x.shr_assign(64);
    assert_eq!(x, n(125));
    x.shl_assign(3);
    assert_eq!(x, n(1000));
    x.div_assign(n(7));
    assert_eq!(x, n(142));
    x.rem_assign(n(10));
    assert_eq!(x, n(2));
}

#[test]
fn biguint_div_and_rem() {
    assert_eq!(n(127).div(n(2)), n(63));
    assert_eq!(n(127).rem(n(2)), n(1));
    assert_eq!(w(vec![0, 1]).div(n(2)), n(1 << 63));
}
