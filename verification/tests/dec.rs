use fixed::dec::{dec_to_bin, dec_to_bin_128, Round};

// The packed digit group always spans 27 decimal digits, so a value over a
// smaller decimal range is padded to that scale before decoding.

#[test]
fn check_dec_8() {
    let two_pow = 8f64.exp2();
    let limit = 1000;
    for i in 0..limit {
        let ans = dec_to_bin(i as u128 * 10u128.pow(24), 8, Round::Nearest);
        let approx = two_pow * f64::from(i) / f64::from(limit);
        let error = (ans.map(|x| x as f64).unwrap_or(two_pow) - approx).abs();
        assert!(error <= 0.5, "i {} ans {:?}  approx {} error {}", i, ans, approx, error);
    }
}

#[test]
fn check_dec_16() {
    let two_pow = 16f64.exp2();
    let limit = 1_000_000;
    for i in 0..limit {
        let ans = dec_to_bin(i as u128 * 10u128.pow(21), 16, Round::Nearest);
        let approx = two_pow * f64::from(i) / f64::from(limit);
        let error = (ans.map(|x| x as f64).unwrap_or(two_pow) - approx).abs();
        assert!(error <= 0.5, "i {} ans {:?}  approx {} error {}", i, ans, approx, error);
    }
}

#[test]
fn check_dec_32() {
    let two_pow = 32f64.exp2();
    let limit = 10_000_000_000_000u64;
    for iter in 0..1_000_000 {
        for &i in &[
            iter,
            limit / 4 - 1 - iter,
            limit / 4 + iter,
            limit / 3 - 1 - iter,
            limit / 3 + iter,
            limit / 2 - 1 - iter,
            limit / 2 + iter,
            limit - iter - 1,
        ] {
            let ans = dec_to_bin(i as u128 * 10u128.pow(14), 32, Round::Nearest);
            let approx = two_pow * i as f64 / limit as f64;
            let error = (ans.map(|x| x as f64).unwrap_or(two_pow) - approx).abs();
            assert!(error <= 0.5, "i {} ans {:?}  approx {} error {}", i, ans, approx, error);
        }
    }
}

#[test]
fn check_dec_64() {
    let two_pow = 64f64.exp2();
    let limit = 1_000_000_000_000_000_000_000_000_000u128;
    for iter in 0..200_000 {
        for &i in &[
            iter,
            limit / 4 - 1 - iter,
            limit / 4 + iter,
            limit / 3 - 1 - iter,
            limit / 3 + iter,
            limit / 2 - 1 - iter,
            limit / 2 + iter,
            limit - iter - 1,
        ] {
            let ans = dec_to_bin(i, 64, Round::Nearest);
            let approx = two_pow * i as f64 / limit as f64;
            let error = (ans.map(|x| x as f64).unwrap_or(two_pow) - approx).abs();
            assert!(error <= 0.5, "i {} ans {:?}  approx {} error {}", i, ans, approx, error);
        }
    }
}

#[test]
fn check_dec_128() {
    let nines = 10u128.pow(27) - 1;
    let zeros = 0;
    let too_big = dec_to_bin_128(nines, nines, 128, Round::Nearest);
    assert_eq!(too_big, None);
    let big = dec_to_bin_128(nines, zeros, 128, Round::Nearest);
    assert_eq!(big, Some(340_282_366_920_938_463_463_374_607_091_485_844_535));
    let small = dec_to_bin_128(zeros, nines, 128, Round::Nearest);
    assert_eq!(small, Some(340_282_366_921));
    let zero = dec_to_bin_128(zeros, zeros, 128, Round::Nearest);
    assert_eq!(zero, Some(0));
    let x = dec_to_bin_128(
        123_456_789_012_345_678_901_234_567,
        987_654_321_098_765_432_109_876_543,
        128,
        Round::Nearest,
    );
    assert_eq!(x, Some(42_010_168_377_579_896_403_540_037_811_203_677_112));
}

#[test]
fn check_dec_floor() {
    // floor(999...9 * 2^8 / 10^27) and the exact grid point below it
    let nines = 10u128.pow(27) - 1;
    assert_eq!(dec_to_bin(nines, 8, Round::Floor), Some(255));
    assert_eq!(dec_to_bin(nines, 8, Round::Nearest), None);
    assert_eq!(dec_to_bin(nines, 5, Round::Floor), Some(31));
    assert_eq!(dec_to_bin(nines, 5, Round::Nearest), None);
    assert_eq!(dec_to_bin(499 * 10u128.pow(24), 0, Round::Floor), Some(0));
    assert_eq!(dec_to_bin(499 * 10u128.pow(24), 0, Round::Nearest), Some(0));
    // an exact half into zero bits rounds to the even zero
    assert_eq!(dec_to_bin(500 * 10u128.pow(24), 0, Round::Nearest), Some(0));
    assert_eq!(dec_to_bin(500 * 10u128.pow(24) + 1, 0, Round::Nearest), None);
}

#[test]
fn check_dec_truncated_ties() {
    // a value just past a tie point must round up even where the shifted
    // numerator drops its lowest bits
    assert_eq!(dec_to_bin(250_000_000_000_000_000_000_000_002, 1, Round::Nearest), Some(1));
    assert_eq!(dec_to_bin(250_000_000_000_000_000_000_000_000, 1, Round::Nearest), Some(0));
    assert_eq!(dec_to_bin(812_500_000_000_000_000_000_000_001, 3, Round::Nearest), Some(7));
    assert_eq!(dec_to_bin(812_500_000_000_000_000_000_000_000, 3, Round::Nearest), Some(6));
}
