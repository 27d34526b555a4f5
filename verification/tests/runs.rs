use fixed::bytes::{Bytes, DigitsExp, DigitsUnds};

fn collect_unds(d: DigitsUnds) -> Vec<u8> {
    let mut out = Vec::new();
    let mut cur = d;
    while let Some((digit, rest)) = cur.split_first() {
        out.push(digit);
        cur = rest;
    }
    out
}

fn collect_exp(e: DigitsExp) -> Vec<u8> {
    let mut out = Vec::new();
    let mut cur = e;
    while let Some((digit, rest)) = cur.split_first() {
        out.push(digit);
        cur = rest;
    }
    out
}

#[test]
fn byte_view_basics() {
    let v = Bytes::new(b"12_34");
    assert_eq!(v.len(), 5);
    assert!(!v.is_empty());
    assert_eq!(v.get(2), b'_');
    let (a, b) = v.split(2);
    assert_eq!(a.len(), 2);
    assert_eq!(b.len(), 3);
    let (first, rest) = v.split_first().unwrap();
    assert_eq!(first, b'1');
    assert_eq!(rest.len(), 4);
    assert!(Bytes::new(b"").split_first().is_none());
}

#[test]
fn digit_runs_skip_separators() {
    let d = DigitsUnds::new(Bytes::new(b"_1_234_"));
    assert_eq!(d.n_digits(), 4);
    assert!(!d.is_empty());
    assert_eq!(collect_unds(d), b"1234");
    let (head, tail) = d.split(2);
    assert_eq!(collect_unds(head), b"12");
    assert_eq!(collect_unds(tail), b"34");
    let (rest, last) = d.split_last().unwrap();
    assert_eq!(last, b'4');
    assert_eq!(collect_unds(rest), b"123");
    assert!(DigitsUnds::new(Bytes::new(b"___")).is_empty());
}

#[test]
fn digit_runs_trim_zeros() {
    let d = DigitsUnds::new(Bytes::new(b"00_1200"));
    let (zeros, rest) = d.split_leading_zeros();
    assert_eq!(zeros, 2);
    assert_eq!(collect_unds(rest), b"1200");
    let (head, zeros) = rest.split_trailing_zeros();
    assert_eq!(zeros, 2);
    assert_eq!(collect_unds(head), b"12");
}

#[test]
fn exponent_folding_shifts_the_point() {
    // 1.23 times ten to the 5th: integer digits 123000, no fraction
    let int_part = DigitsUnds::new(Bytes::new(b"1"));
    let frac_part = DigitsUnds::new(Bytes::new(b"23"));
    let (ip, fp) = DigitsExp::new_int_frac(int_part, frac_part, 5).unwrap();
    assert_eq!(collect_exp(ip), b"123000");
    assert!(fp.is_empty());

    // 1_234 times ten to the -2nd: integer digits 12, fraction 34
    let int_part = DigitsUnds::new(Bytes::new(b"1_234"));
    let frac_part = DigitsUnds::new(Bytes::new(b""));
    let (ip, fp) = DigitsExp::new_int_frac(int_part, frac_part, -2).unwrap();
    assert_eq!(collect_exp(ip), b"12");
    assert_eq!(collect_exp(fp), b"34");

    // 5 times ten to the -3rd: no integer digits, fraction 005
    let int_part = DigitsUnds::new(Bytes::new(b"5"));
    let frac_part = DigitsUnds::new(Bytes::new(b""));
    let (ip, fp) = DigitsExp::new_int_frac(int_part, frac_part, -3).unwrap();
    assert!(ip.is_empty());
    assert_eq!(collect_exp(fp), b"005");

    // shifting within the fraction: 0.0625 times ten gives 0.625
    let int_part = DigitsUnds::new(Bytes::new(b"0"));
    let frac_part = DigitsUnds::new(Bytes::new(b"0625"));
    let (ip, fp) = DigitsExp::new_int_frac(int_part, frac_part, 1).unwrap();
    assert!(ip.is_empty());
    assert_eq!(collect_exp(fp), b"625");
}

#[test]
fn exponent_runs_split() {
    let int_part = DigitsUnds::new(Bytes::new(b"1"));
    let frac_part = DigitsUnds::new(Bytes::new(b"23"));
    let (ip, _) = DigitsExp::new_int_frac(int_part, frac_part, 5).unwrap();
    assert_eq!(ip.n_digits(), 6);
    let (a, b) = ip.split(4);
    assert_eq!(collect_exp(a), b"1230");
    assert_eq!(collect_exp(b), b"00");
    let (a, b) = ip.split(0);
    assert!(a.is_empty());
    assert_eq!(b.n_digits(), 6);
}
