use core::cmp::Ordering;
use fixed::f128::{FpCategory, F128};

struct Params {
    mantissa_digits: u32,
    min_exp: i32,
    max_exp: i32,
    digits: u32,
    min_10_exp: i32,
    max_10_exp: i32,
}

impl Params {
    fn check(self) {
        let p = f64::from(self.mantissa_digits);
        let e_min = f64::from(self.min_exp);
        let e_max = f64::from(self.max_exp);
        assert_eq!(self.digits, ((p - 1.) * 2f64.log10()).floor() as u32);
        assert_eq!(self.min_10_exp, ((e_min - 1.) * 2f64.log10()).ceil() as i32);
        assert_eq!(
            self.max_10_exp,
            ((-(-p).exp2()).ln_1p() / 10f64.ln() + e_max * 2f64.log10()).floor() as i32
        );
    }
}

#[test]
fn decimal_constants_f32() {
    let params = Params {
        mantissa_digits: f32::MANTISSA_DIGITS,
        min_exp: f32::MIN_EXP,
        max_exp: f32::MAX_EXP,
        digits: f32::DIGITS,
        min_10_exp: f32::MIN_10_EXP,
        max_10_exp: f32::MAX_10_EXP,
    };
    params.check();
}

#[test]
fn decimal_constants_f64() {
    let params = Params {
        mantissa_digits: f64::MANTISSA_DIGITS,
        min_exp: f64::MIN_EXP,
        max_exp: f64::MAX_EXP,
        digits: f64::DIGITS,
        min_10_exp: f64::MIN_10_EXP,
        max_10_exp: f64::MAX_10_EXP,
    };
    params.check();
}

#[test]
fn decimal_constants_f128() {
    let params = Params {
        mantissa_digits: F128::MANTISSA_DIGITS,
        min_exp: F128::MIN_EXP,
        max_exp: F128::MAX_EXP,
        digits: F128::DIGITS,
        min_10_exp: F128::MIN_10_EXP,
        max_10_exp: F128::MAX_10_EXP,
    };
    params.check();
}

const EXP_MASK: u128 = 0x7FFF << 112;
const SIGN_MASK: u128 = 1 << 127;
const ONE_BITS: u128 = 0x3FFF << 112;

#[test]
fn f128_classes() {
    assert!(F128::from_bits(EXP_MASK | (1u128 << 111)).is_nan());
    assert!(!F128::from_bits(ONE_BITS).is_nan());
    assert!(F128::from_bits(EXP_MASK).is_infinite());
    assert!(F128::from_bits(SIGN_MASK | EXP_MASK).is_infinite());
    assert!(!F128::from_bits(EXP_MASK).is_finite());
    assert!(F128::from_bits(EXP_MASK - 1).is_finite());
    assert!(F128::from_bits(0).is_zero());
    assert!(F128::from_bits(SIGN_MASK).is_zero());
    assert!(F128::from_bits(1).is_subnormal());
    assert!(!F128::from_bits(0).is_subnormal());
    assert!(F128::from_bits(1u128 << 112).is_normal());
    assert!(!F128::from_bits(1).is_normal());
    assert_eq!(F128::from_bits(0).classify(), FpCategory::Zero);
    assert_eq!(F128::from_bits(1).classify(), FpCategory::Subnormal);
    assert_eq!(F128::from_bits(1u128 << 112).classify(), FpCategory::Normal);
    assert_eq!(F128::from_bits(EXP_MASK).classify(), FpCategory::Infinite);
    assert_eq!(F128::from_bits(EXP_MASK | 1).classify(), FpCategory::Nan);
}

#[test]
fn f128_signs_and_compare() {
    let pos_one = F128::from_bits(ONE_BITS);
    let neg_one = F128::from_bits(SIGN_MASK | ONE_BITS);
    let neg_zero = F128::from_bits(SIGN_MASK);
    let pos_zero = F128::from_bits(0);
    let nan = F128::from_bits(EXP_MASK | 1);

    assert!(pos_one.is_sign_positive());
    assert!(neg_one.is_sign_negative());
    assert_eq!(neg_one.abs().to_bits(), ONE_BITS);
    assert_eq!(pos_one.copysign(neg_zero).to_bits(), SIGN_MASK | ONE_BITS);
    assert_eq!(neg_one.copysign(pos_zero).to_bits(), ONE_BITS);
    assert_eq!(pos_one.signum().to_bits(), ONE_BITS);
    assert_eq!(neg_zero.signum().to_bits(), SIGN_MASK | ONE_BITS);
    assert!(nan.signum().is_nan());

    assert_eq!(neg_one.total_cmp(&pos_one), Ordering::Less);
    assert_eq!(pos_one.total_cmp(&neg_one), Ordering::Greater);
    assert_eq!(neg_zero.total_cmp(&pos_zero), Ordering::Less);
    assert_eq!(pos_one.total_cmp(&pos_one), Ordering::Equal);

    // the numeric order: the zeros are one value, NaNs compare to nothing
    assert!(pos_zero == neg_zero);
    assert!(!(nan == nan));
    assert_eq!(pos_one.partial_cmp(&neg_one), Some(Ordering::Greater));
    assert_eq!(neg_one.partial_cmp(&pos_one), Some(Ordering::Less));
    assert_eq!(pos_zero.partial_cmp(&neg_zero), Some(Ordering::Equal));
    assert_eq!(nan.partial_cmp(&pos_one), None);
    assert!(neg_one < pos_one);
}

#[test]
fn f128_byte_orders() {
    let x = F128::from_bits(0x0102030405060708090A0B0C0D0E0F10);
    let be = x.to_be_bytes();
    assert_eq!(be, [1, 2, 3, 4, 5, 6, 7, 8, 9, 10, 11, 12, 13, 14, 15, 16]);
    let le = x.to_le_bytes();
    assert_eq!(le, [16, 15, 14, 13, 12, 11, 10, 9, 8, 7, 6, 5, 4, 3, 2, 1]);
    assert_eq!(F128::from_be_bytes(be).to_bits(), x.to_bits());
    assert_eq!(F128::from_le_bytes(le).to_bits(), x.to_bits());
    assert_eq!(F128::from_be_bytes([0; 16]).to_bits(), 0);
    assert_eq!(F128::from_le_bytes([0xFF; 16]).to_bits(), u128::MAX);
}
