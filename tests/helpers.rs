use long_arithmetic::biguint::BigUInt;
use long_arithmetic::helpers::{mul_helper, shl64, shl_n64, shr64, shr_n64, split_shl, split_shr};

fn w(v: Vec<u64>) -> BigUInt {
    BigUInt::from_vec(v)
}

#[test]
fn shl64_test() {
    assert_eq!(shl64(BigUInt::from_u64(1), 0), BigUInt::from_u64(1));
    assert_eq!(
        shl64(w(vec![0, 0, 0, 3 << 62, 1 << 63]), 1),
        w(vec![0, 0, 0, 1 << 63, 1, 1])
    );
    assert_eq!(
        shl64(BigUInt::from_u64(0x123_0456_0789), 61),
        w(vec![0x2000_0000_0000_0000, 0x24_608A_C0F1]),
    );
}

#[test]
fn shl_n64_test() {
    assert_eq!(shr_n64(&BigUInt::from_u64(1), 0), BigUInt::from_u64(1));
    assert_eq!(shl_n64(BigUInt::from_u64(123), 5), w(vec![0, 0, 0, 0, 0, 123]));
    assert_eq!(
        shl_n64(w(vec![0x2000_0000_0000_0000, 0x24_608A_C0F1]), 1),
        w(vec![0x0000_0000_0000_0000, 0x2000_0000_0000_0000, 0x24_608A_C0F1]),
    );
}

#[test]
fn shr64_test() {
    assert_eq!(shr64(BigUInt::from_u64(1), 0), BigUInt::from_u64(1));
    assert_eq!(
        shr64(w(vec![0, 0, 0, 1 << 63, 1, 1]), 1),
        w(vec![0, 0, 0, 3 << 62, 1 << 63])
    );
    assert_eq!(
        shr64(w(vec![0x2000_0000_0000_0000, 0x24_608A_C0F1]), 61),
        BigUInt::from_u64(0x123_0456_0789)
    );
}

#[test]
fn shr_n64_test() {
    assert_eq!(shr_n64(&BigUInt::from_u64(1), 0), BigUInt::from_u64(1));
    assert_eq!(shr_n64(&w(vec![0, 0, 0, 0, 0, 123]), 5), BigUInt::from_u64(123));
    assert_eq!(
        shr_n64(&w(vec![0x0000_0000_0000_0000, 0x2000_0000_0000_0000, 0x24_608A_C0F1]), 1),
        w(vec![0x2000_0000_0000_0000, 0x24_608A_C0F1]),
    );
}

#[test]
fn split_shl_values() {
    assert_eq!(split_shl(0xF000_0000_0000_0001, 4), (0xF, 0x10));
    assert_eq!(split_shl(7, 0), (0, 7));
    assert_eq!(split_shl(7, 64), (7, 0));
}

#[test]
fn split_shr_values() {
    assert_eq!(split_shr(0xF000_0000_0000_0011, 4), (0x0F00_0000_0000_0001, 0x1000_0000_0000_0000));
    assert_eq!(split_shr(7, 0), (7, 0));
    assert_eq!(split_shr(7, 64), (0, 7));
}

#[test]
fn mul_helper_values() {
    assert_eq!(mul_helper(u64::MAX, u64::MAX), w(vec![1, 0xFFFF_FFFF_FFFF_FFFE]));
    assert_eq!(mul_helper(0, 5), BigUInt::from_u64(0));
    assert_eq!(mul_helper(6, 7), BigUInt::from_u64(42));
}

#[test]
fn shl_by_61_scenario() {
    assert_eq!(
        BigUInt::from_u64(0x123_0456_0789).shl(61),
        w(vec![0x2000_0000_0000_0000, 0x24_608A_C0F1])
    );
}
