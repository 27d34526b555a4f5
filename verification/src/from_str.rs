//! The lexical bounds scanner: split a numeral into sign, trimmed integer
//! digits and trimmed fraction digits, enforcing the sign, point and digit
//! rules of the chosen radix, and report the first structural fault.

use vstd::prelude::*;

use crate::digits::{all_digits, digit_val, digits_val, is_digit, is_radix};
use vstd::arithmetic::power2::pow2;

verus! {

/// Why a numeral was rejected.
#[derive(Clone, Copy, Debug, PartialEq, Eq, Structural)]
pub enum ParseErrorKind {
    InvalidDigit,
    NoDigits,
    TooManyPoints,
    Overflow,
}

/// An error which can be returned when parsing a fixed-point number.
#[derive(Clone, Copy, Debug, PartialEq, Eq, Structural)]
pub struct ParseFixedError {
    pub kind: ParseErrorKind,
}

impl ParseFixedError {
    /// The fixed wording for each kind of parse failure.
    pub fn message(&self) -> (r: &'static str)
        ensures
            self.kind is InvalidDigit ==> r@ == "invalid digit found in string"@,
            self.kind is NoDigits ==> r@ == "string has no digits"@,
            self.kind is TooManyPoints ==> r@ == "more than one decimal point found in string"@,
            self.kind is Overflow ==> r@ == "overflow"@,
    {
        match self.kind {
            ParseErrorKind::InvalidDigit => "invalid digit found in string",
            ParseErrorKind::NoDigits => "string has no digits",
            ParseErrorKind::TooManyPoints => "more than one decimal point found in string",
            ParseErrorKind::Overflow => "overflow",
        }
    }
}

/// Whether the byte at `j` is structurally wrong there: a sign anywhere but
/// first, a minus where none is allowed, a second point, or a byte that is
/// no digit of the radix.
pub open spec fn bad_at(s: Seq<u8>, can_be_neg: bool, radix: u32, j: int) -> Option<
    ParseErrorKind,
>
    recommends
        0 <= j < s.len(),
{
    let b = s[j];
    if b == 0x2Bu8 {
        if j == 0 {
            None
        } else {
            Some(ParseErrorKind::InvalidDigit)
        }
    } else if b == 0x2Du8 {
        if j == 0 && can_be_neg {
            None
        } else {
            Some(ParseErrorKind::InvalidDigit)
        }
    } else if b == 0x2Eu8 {
        if exists|k: int| 0 <= k < j && s[k] == 0x2Eu8 {
            Some(ParseErrorKind::TooManyPoints)
        } else {
            None
        }
    } else if is_digit(b, radix) {
        None
    } else {
        Some(ParseErrorKind::InvalidDigit)
    }
}

pub open spec fn has_digit(s: Seq<u8>, radix: u32) -> bool {
    exists|j: int| 0 <= j < s.len() && is_digit(s[j], radix)
}

/// The scanner's verdict from position `i` on: the first structural fault,
/// or `NoDigits` when the text holds no digit byte at all.
pub open spec fn scan_from(s: Seq<u8>, can_be_neg: bool, radix: u32, i: int) -> Option<
    ParseErrorKind,
>
    decreases s.len() - i,
{
    if i < 0 || i >= s.len() {
        if has_digit(s, radix) {
            None
        } else {
            Some(ParseErrorKind::NoDigits)
        }
    } else if bad_at(s, can_be_neg, radix, i) is Some {
        bad_at(s, can_be_neg, radix, i)
    } else {
        scan_from(s, can_be_neg, radix, i + 1)
    }
}

/// The scanner's verdict on the whole text.
pub open spec fn scan_err(s: Seq<u8>, can_be_neg: bool, radix: u32) -> Option<ParseErrorKind> {
    scan_from(s, can_be_neg, radix, 0)
}

/// Whether the numeral carries a leading minus.
pub open spec fn is_neg(s: Seq<u8>) -> bool {
    s.len() > 0 && s[0] == 0x2Du8
}

/// How many bytes the sign takes.
pub open spec fn sign_len(s: Seq<u8>) -> int {
    if s.len() > 0 && (s[0] == 0x2Bu8 || s[0] == 0x2Du8) {
        1
    } else {
        0
    }
}

/// The index of the first decimal point, or the length when there is none.
pub open spec fn point_from(s: Seq<u8>, i: int) -> int
    decreases s.len() - i,
{
    if i < 0 || i >= s.len() {
        s.len() as int
    } else if s[i] == 0x2Eu8 {
        i
    } else {
        point_from(s, i + 1)
    }
}

pub open spec fn point_idx(s: Seq<u8>) -> int {
    point_from(s, 0)
}

/// The raw integer digits: between the sign and the point.
pub open spec fn int_span(s: Seq<u8>) -> Seq<u8> {
    s.subrange(sign_len(s), point_idx(s))
}

/// The raw fraction digits: after the point.
pub open spec fn frac_span(s: Seq<u8>) -> Seq<u8> {
    if point_idx(s) < s.len() {
        s.subrange(point_idx(s) + 1, s.len() as int)
    } else {
        Seq::<u8>::empty()
    }
}

/// Drop leading zero digits.
pub open spec fn trim_front_zeros(q: Seq<u8>) -> Seq<u8>
    decreases q.len(),
{
    if q.len() > 0 && q[0] == 0x30u8 {
        trim_front_zeros(q.skip(1))
    } else {
        q
    }
}

/// Drop trailing zero digits.
pub open spec fn trim_back_zeros(q: Seq<u8>) -> Seq<u8>
    decreases q.len(),
{
    if q.len() > 0 && q[q.len() - 1] == 0x30u8 {
        trim_back_zeros(q.drop_last())
    } else {
        q
    }
}

/// The trimmed integer digits of a numeral.
pub open spec fn int_digits(s: Seq<u8>) -> Seq<u8> {
    trim_front_zeros(int_span(s))
}

/// The trimmed fraction digits of a numeral.
pub open spec fn frac_digits(s: Seq<u8>) -> Seq<u8> {
    trim_back_zeros(frac_span(s))
}

/// The sign and the two trimmed digit spans of a numeral, borrowing the
/// caller's buffer.
#[derive(Clone, Copy, Debug)]
pub struct Parse<'a> {
    pub neg: bool,
    pub int: &'a [u8],
    pub frac: &'a [u8],
}

/// A clean scan from `i` on matches a clean scan from the start.
proof fn lemma_scan_skip(s: Seq<u8>, can_be_neg: bool, radix: u32, i: int)
    requires
        0 <= i <= s.len(),
        forall|k: int| 0 <= k < i ==> bad_at(s, can_be_neg, radix, k) is None,
    ensures
        scan_err(s, can_be_neg, radix) == scan_from(s, can_be_neg, radix, i),
    decreases i,
{
    if i > 0 {
        lemma_scan_skip(s, can_be_neg, radix, i - 1);
    }
}

/// Trimming the front of a run whose first `m` digits are zero drops
/// exactly those digits.
pub proof fn lemma_trim_front_at(q: Seq<u8>, m: int)
    requires
        0 <= m <= q.len(),
        forall|k: int| 0 <= k < m ==> q[k] == 0x30u8,
        m < q.len() ==> q[m] != 0x30u8,
    ensures
        trim_front_zeros(q) == q.skip(m),
    decreases m,
{
    if m == 0 {
        if q.len() > 0 {
        }
        assert(q.skip(0) =~= q);
    } else {
        assert(q[0] == 0x30u8);
        lemma_trim_front_at(q.skip(1), m - 1);
        assert(q.skip(1).skip(m - 1) =~= q.skip(m));
    }
}

/// Trimming the back of a run whose digits from `e` on are zero drops
/// exactly those digits.
pub proof fn lemma_trim_back_at(q: Seq<u8>, e: int)
    requires
        0 <= e <= q.len(),
        forall|k: int| e <= k < q.len() ==> q[k] == 0x30u8,
        e > 0 ==> q[e - 1] != 0x30u8,
    ensures
        trim_back_zeros(q) == q.take(e),
    decreases q.len() - e,
{
    if e == q.len() {
        if e > 0 {
        }
        assert(q.take(e) =~= q);
    } else {
        assert(q[q.len() - 1] == 0x30u8);
        lemma_trim_back_at(q.drop_last(), e);
        assert(q.drop_last().take(e) =~= q.take(e));
    }
}

/// Scan a numeral: enforce the sign, point and digit rules, and hand back
/// the sign with the trimmed integer and fraction digit spans.
#[verifier::rlimit(60)]
pub fn parse_bounds<'a>(bytes: &'a [u8], can_be_neg: bool, radix: u32) -> (r: Result<
    Parse<'a>,
    ParseFixedError,
>)
    requires
        is_radix(radix),
    ensures
        ({
            let s = bytes@;
            match r {
                Ok(p) => {
                    &&& scan_err(s, can_be_neg, radix) is None
                    &&& p.neg == is_neg(s)
                    &&& (p.neg ==> can_be_neg)
                    &&& p.int@ == int_digits(s)
                    &&& p.frac@ == frac_digits(s)
                    &&& all_digits(p.int@, radix)
                    &&& all_digits(p.frac@, radix)
                    &&& (p.int@.len() > 0 ==> p.int@[0] != 0x30u8)
                    &&& (p.frac@.len() > 0 ==> p.frac@[p.frac@.len() - 1] != 0x30u8)
                },
                Err(e) => scan_err(s, can_be_neg, radix) == Some(e.kind),
            }
        }),
{
    let ghost s = bytes@;
    let n = bytes.len();
    let mut sign: Option<bool> = None;
    let mut trimmed_int_start: Option<usize> = None;
    let mut point: Option<usize> = None;
    let mut trimmed_frac_end: Option<usize> = None;
    let mut has_any_digit = false;
    let mut index: usize = 0;
    proof {
        lemma_point_first(s);
    }
    while index < n
        invariant
            s == bytes@,
            n == s.len(),
            is_radix(radix),
            0 <= index <= n,
            forall|k: int| 0 <= k < index ==> bad_at(s, can_be_neg, radix, k) is None,
            sign is Some <==> (index >= 1 && (s[0] == 0x2Bu8 || s[0] == 0x2Du8)),
            sign == Some(true) <==> (index >= 1 && s[0] == 0x2Du8),
            sign == Some(true) ==> can_be_neg,
            point is Some <==> point_idx(s) < index,
            point matches Some(p) ==> p == point_idx(s),
            has_any_digit <==> exists|k: int| 0 <= k < index && is_digit(#[trigger] s[k], radix),
            ({
                let reg_end: int = if point is Some {
                    point_idx(s)
                } else {
                    index as int
                };
                &&& (trimmed_int_start matches Some(st) ==> sign_len(s) <= st < reg_end
                    && s[st as int] != 0x30u8 && is_digit(s[st as int], radix) && (forall|k: int|
                    sign_len(s) <= k < st ==> s[k] == 0x30u8))
                &&& (trimmed_int_start is None ==> forall|k: int|
                    sign_len(s) <= k < reg_end ==> s[k] == 0x30u8)
            }),
            ({
                let p = point_idx(s);
                &&& (trimmed_frac_end matches Some(e) ==> point is Some && p + 1 <= e <= index && (
                forall|k: int| e <= k < index ==> s[k] == 0x30u8) && (e > p + 1 ==> s[e - 1]
                    != 0x30u8 && is_digit(s[e - 1], radix)))
                &&& (point is Some ==> trimmed_frac_end is Some)
                &&& (point is None ==> trimmed_frac_end is None)
            }),
            forall|k: int|
                0 <= k < index && k != point_idx(s) && k >= sign_len(s) ==> is_digit(
                    #[trigger] s[k],
                    radix,
                ),
        decreases n - index,
    {
        let byte = bytes[index];
        proof {
            lemma_scan_skip(s, can_be_neg, radix, index as int);
            lemma_point_first(s);
        }
        if byte == 0x2B {
            // a plus sign: legal only as the very first byte
            if sign.is_some() || point.is_some() || has_any_digit {
                return Err(ParseFixedError { kind: ParseErrorKind::InvalidDigit });
            }
            proof {
                // nothing was seen yet, so this is the first byte
                if index >= 1 {
                    assert(bad_at(s, can_be_neg, radix, 0) is None);
                    if s[0] == 0x2Eu8 {
                        assert(point_idx(s) == 0) by {
                            lemma_point_stops(s, 0);
                        }
                    }
                    assert(false);
                }
            }
            sign = Some(false);
        } else if byte == 0x2D {
            if !can_be_neg || sign.is_some() || point.is_some() || has_any_digit {
                return Err(ParseFixedError { kind: ParseErrorKind::InvalidDigit });
            }
            proof {
                if index >= 1 {
                    assert(bad_at(s, can_be_neg, radix, 0) is None);
                    if s[0] == 0x2Eu8 {
                        assert(point_idx(s) == 0) by {
                            lemma_point_stops(s, 0);
                        }
                    }
                    assert(false);
                }
            }
            sign = Some(true);
        } else if byte == 0x2E {
            if point.is_some() {
                return Err(ParseFixedError { kind: ParseErrorKind::TooManyPoints });
            }
            proof {
                assert(point_idx(s) == index as int) by {
                    lemma_point_stops(s, index as int);
                }
            }
            point = Some(index);
            trimmed_frac_end = Some(index + 1);
        } else {
            let digit_ok = match radix {
                2 => byte >= 0x30 && byte <= 0x31,
                8 => byte >= 0x30 && byte <= 0x37,
                10 => byte >= 0x30 && byte <= 0x39,
                _ => (byte >= 0x30 && byte <= 0x39) || (byte >= 0x61 && byte <= 0x66) || (byte
                    >= 0x41 && byte <= 0x46),
            };
            if !digit_ok {
                return Err(ParseFixedError { kind: ParseErrorKind::InvalidDigit });
            }
            proof {
                assert(is_digit(s[index as int], radix));
                if point is None {
                    assert(point_idx(s) >= index + 1) by {
                        lemma_point_past(s, index as int);
                    }
                }
                if index == 0 {
                    assert(sign_len(s) == 0);
                }
            }
            if trimmed_int_start.is_none() && point.is_none() && byte != 0x30 {
                trimmed_int_start = Some(index);
            }
            if trimmed_frac_end.is_some() && byte != 0x30 {
                trimmed_frac_end = Some(index + 1);
            }
            has_any_digit = true;
        }
        index = index + 1;
    }
    if !has_any_digit {
        proof {
            lemma_scan_skip(s, can_be_neg, radix, n as int);
        }
        return Err(ParseFixedError { kind: ParseErrorKind::NoDigits });
    }
    proof {
        lemma_scan_skip(s, can_be_neg, radix, n as int);
        if point is None {
            assert(point_idx(s) >= n) by {
                lemma_point_past_all(s);
            }
            assert(point_idx(s) == n);
        }
    }
    let neg = match sign {
        Some(v) => v,
        None => false,
    };
    let int_slice: &[u8] = match (trimmed_int_start, point) {
        (Some(start), Some(p)) => vstd::slice::slice_subrange(bytes, start, p),
        (Some(start), None) => vstd::slice::slice_subrange(bytes, start, bytes.len()),
        (None, _) => vstd::slice::slice_subrange(bytes, 0, 0),
    };
    let frac_slice: &[u8] = match (point, trimmed_frac_end) {
        (Some(p), Some(end)) => vstd::slice::slice_subrange(bytes, p + 1, end),
        _ => vstd::slice::slice_subrange(bytes, 0, 0),
    };
    proof {
        lemma_point_first(s);
        let sl = sign_len(s);
        let p = point_idx(s);
        assert(sl <= p) by {
            if sl == 1 && p == 0 {
                assert(s[0] == 0x2Eu8);
            }
        }
        // the integer span holds digits only, so trimming drops the zeros
        // counted by the scan
        assert(int_span(s).len() == p - sl);
        match trimmed_int_start {
            Some(st) => {
                lemma_trim_front_at(int_span(s), st - sl);
                assert(int_span(s).skip(st - sl) =~= s.subrange(st as int, p));
                assert(int_slice@ =~= s.subrange(st as int, p));
            },
            None => {
                lemma_trim_front_at(int_span(s), p - sl);
                assert(int_span(s).skip(p - sl) =~= Seq::<u8>::empty());
                assert(int_slice@ =~= Seq::<u8>::empty());
            },
        }
        match (point, trimmed_frac_end) {
            (Some(pp), Some(end)) => {
                assert(frac_span(s).len() == n - p - 1);
                lemma_trim_back_at(frac_span(s), end - p - 1);
                assert(frac_span(s).take(end - p - 1) =~= s.subrange(p + 1, end as int));
                assert(frac_slice@ =~= s.subrange(p + 1, end as int));
            },
            _ => {
                assert(frac_span(s) =~= Seq::<u8>::empty());
                assert(frac_slice@ =~= Seq::<u8>::empty());
            },
        }
    }
    Ok(Parse { neg, int: int_slice, frac: frac_slice })
}

/// The storage widths the engine serves.
pub open spec fn is_width(width: int) -> bool {
    width == 8 || width == 16 || width == 32 || width == 64 || width == 128
}

/// Whether a trimmed fraction span is exactly one half: a single digit worth
/// half the radix.
pub fn frac_is_half(bytes: &[u8], radix: u32) -> (r: bool)
    requires
        is_radix(radix),
        all_digits(bytes@, radix),
    ensures
        r == (bytes@.len() == 1 && digit_val(bytes@[0]) == radix / 2),
{
    // since zeros are trimmed, a half is exactly one byte
    if bytes.len() != 1 {
        return false;
    }
    let d = crate::radix::byte_digit(bytes[0], radix);
    (d as u32) == radix / 2
}

/// The integer digits of a numeral, converted and left-justified against the
/// fractional bit count: the value scaled by `2^(width - nbits)`, or `None`
/// past `nbits` integer bits.
pub fn get_int(int_part: &[u8], radix: u32, nbits: u32, width: u32) -> (r: Option<u128>)
    requires
        is_radix(radix),
        8 <= width <= 128,
        nbits <= width,
        all_digits(int_part@, radix),
        int_part@.len() > 0 ==> int_part@[0] != 0x30u8,
    ensures
        ({
            let iv = digits_val(int_part@, radix);
            &&& iv < pow2(nbits as nat) ==> r == Some(
                ((iv * pow2((width - nbits) as nat)) as u128),
            )
            &&& iv >= pow2(nbits as nat) ==> r.is_none()
        }),
{
    proof {
        vstd::arithmetic::power2::lemma_pow2_pos(nbits as nat);
        vstd::arithmetic::power2::lemma_pow2_pos(width as nat);
        vstd::arithmetic::power2::lemma_pow2_pos((width - nbits) as nat);
    }
    if int_part.len() == 0 {
        proof {
            vstd::arithmetic::mul::lemma_mul_by_zero_is_zero(pow2((width - nbits) as nat) as int);
        }
        return Some(0);
    }
    if nbits == 0 {
        proof {
            crate::digits::lemma_digits_val_lower(int_part@, radix);
            vstd::arithmetic::power::lemma_pow_positive(
                radix as int,
                (int_part@.len() - 1) as nat,
            );
            assert(pow2(0) == 1) by {
                vstd::arithmetic::power2::lemma2_to64();
            }
        }
        return None;
    }
    let parsed = match radix {
        2 => crate::radix::bin_str_int_to_bin(int_part, width),
        8 => crate::radix::oct_str_int_to_bin(int_part, width),
        16 => crate::radix::hex_str_int_to_bin(int_part, width),
        _ => crate::radix::dec_str_int_to_bin(int_part, width),
    };
    let p = match parsed {
        Some(p) => p,
        None => {
            proof {
                // past the width means past the narrower nbits too
                if (nbits as nat) < (width as nat) {
                    vstd::arithmetic::power2::lemma_pow2_strictly_increases(
                        nbits as nat,
                        width as nat,
                    );
                }
            }
            return None;
        },
    };
    if nbits < width {
        let lim = crate::nums::pow2_u128(nbits);
        if p >= lim {
            return None;
        }
        let shift = crate::nums::pow2_u128(width - nbits);
        proof {
            vstd::arithmetic::power2::lemma_pow2_adds(nbits as nat, (width - nbits) as nat);
            assert((p as int) * (shift as int) < pow2(width as nat)) by {
                crate::arith::lemma_mul_lt(p as int, pow2(nbits as nat) as int, shift as int);
            }
            crate::nums::lemma_pow2_128();
            if width < 128 {
                crate::nums::lemma_pow2_fits_u128(width as nat);
            }
        }
        return Some(p * shift);
    }
    proof {
        assert(pow2(0) == 1) by {
            vstd::arithmetic::power2::lemma2_to64();
        }
        vstd::arithmetic::mul::lemma_mul_basics(digits_val(int_part@, radix) as int);
    }
    Some(p)
}

/// The fraction digits of a numeral, rounded to `nbits` bits, ties to even;
/// `None` when even the rounded value needs more than `nbits` bits.
pub fn get_frac(frac: &[u8], radix: u32, nbits: u32, width: u32) -> (r: Option<u128>)
    requires
        is_radix(radix),
        is_width(width as int),
        nbits <= width,
        all_digits(frac@, radix),
        frac@.len() > 0 ==> frac@[frac@.len() - 1] != 0x30u8,
    ensures
        ({
            let v = crate::arith::round_half_even(
                digits_val(frac@, radix) as int * pow2(nbits as nat) as int,
                vstd::arithmetic::power::pow(radix as int, frac@.len()),
            );
            &&& (v < pow2(nbits as nat)) ==> r == Some(v as u128)
            &&& (v >= pow2(nbits as nat)) ==> r.is_none()
        }),
{
    if frac.len() == 0 {
        proof {
            vstd::arithmetic::power::lemma_pow0(radix as int);
            vstd::arithmetic::power2::lemma_pow2_pos(nbits as nat);
            vstd::arithmetic::mul::lemma_mul_by_zero_is_zero(pow2(nbits as nat) as int);
            assert(digits_val(frac@, radix) == 0);
            assert(crate::arith::round_half_even(0, 1) == 0);
        }
        return Some(0);
    }
    if radix == 2 {
        crate::radix::bin_str_frac_to_bin(frac, nbits, width)
    } else if radix == 8 {
        crate::radix::oct_str_frac_to_bin(frac, nbits, width)
    } else if radix == 16 {
        crate::radix::hex_str_frac_to_bin(frac, nbits, width)
    } else if width <= 64 {
        proof {
            assert(vstd::arithmetic::power::pow(10, frac@.len()) == vstd::arithmetic::power::pow(
                radix as int,
                frac@.len(),
            ));
        }
        crate::dec::dec_str_frac_to_bin(frac, nbits, width)
    } else {
        crate::dec::dec_str_frac_to_bin_128(frac, nbits)
    }
}

/// The magnitude a valid numeral stands for, in units of one fractional
/// step: the rational value of its digits, scaled by `2^frac_nbits` and
/// rounded to the nearest, ties to even.
pub open spec fn parse_mag(s: Seq<u8>, radix: u32, frac_nbits: u32) -> int {
    let iv = digits_val(int_digits(s), radix) as int;
    let fv = digits_val(frac_digits(s), radix) as int;
    let fl = frac_digits(s).len();
    crate::arith::round_half_even(
        (iv * vstd::arithmetic::power::pow(radix as int, fl) + fv) * pow2(frac_nbits as nat) as int,
        vstd::arithmetic::power::pow(radix as int, fl),
    )
}

/// What scanning and converting a numeral yields: its sign and magnitude
/// bits, or the first error.
pub open spec fn parse_fixed_spec(
    s: Seq<u8>,
    can_be_neg: bool,
    radix: u32,
    int_nbits: u32,
    frac_nbits: u32,
) -> Result<(bool, int), ParseErrorKind> {
    match scan_err(s, can_be_neg, radix) {
        Some(e) => Err(e),
        None => {
            let m = parse_mag(s, radix, frac_nbits);
            if m < pow2((int_nbits + frac_nbits) as nat) {
                Ok((is_neg(s), m))
            } else {
                Err(ParseErrorKind::Overflow)
            }
        },
    }
}

/// On a trimmed fraction span, an exact half is exactly a single digit
/// worth half the radix.
proof fn lemma_half_iff(q: Seq<u8>, radix: u32)
    requires
        is_radix(radix),
        all_digits(q, radix),
        q.len() > 0 ==> q[q.len() - 1] != 0x30u8,
    ensures
        (2 * digits_val(q, radix) == vstd::arithmetic::power::pow(radix as int, q.len())) <==> (
        q.len() == 1 && digit_val(q[0]) == radix / 2),
{
    let b = digits_val(q, radix) as int;
    let den = vstd::arithmetic::power::pow(radix as int, q.len());
    if q.len() == 0 {
        assert(den == 1) by {
            vstd::arithmetic::power::lemma_pow0(radix as int);
        }
    } else if q.len() == 1 {
        assert(q.drop_last() =~= Seq::<u8>::empty());
        assert(q.last() == q[0]);
        assert(digits_val(q, radix) == digits_val(q.drop_last(), radix) * (radix as nat)
            + digit_val(q.last()));
        assert(digits_val(q.drop_last(), radix) == 0);
        assert(b == digit_val(q[0]));
        assert(den == radix) by {
            vstd::arithmetic::power::lemma_pow1(radix as int);
        }
    } else {
        // a longer span ending in a non-zero digit cannot be a half: the
        // half of radix^len ends in a zero digit
        let b1 = digits_val(q.drop_last(), radix) as int;
        let dl = digit_val(q.last()) as int;
        assert(b == b1 * radix + dl);
        assert(q.last() == q[q.len() - 1]);
        assert(dl >= 1);
        assert(dl < radix) by {
            crate::digits::lemma_digit_val_bound(q.last(), radix);
        }
        if 2 * b == den {
            let den1 = vstd::arithmetic::power::pow(radix as int, (q.len() - 1) as nat);
            assert(den == den1 * radix) by {
                vstd::arithmetic::power::lemma_pow_adds(radix as int, (q.len() - 1) as nat, 1);
                vstd::arithmetic::power::lemma_pow1(radix as int);
            }
            // 2*dl is a positive multiple of radix below 2*radix, so 2*dl == radix
            assert((2 * b1) * (radix as int) + 2 * dl == den1 * radix) by {
                vstd::arithmetic::mul::lemma_mul_is_associative(2, b1, radix as int);
            }
            assert(2 * dl == (den1 - 2 * b1) * (radix as int)) by {
                vstd::arithmetic::mul::lemma_mul_is_distributive_sub_other_way(
                    radix as int,
                    den1,
                    2 * b1,
                );
            }
            let m = den1 - 2 * b1;
            assert(m >= 1) by {
                if m <= 0 {
                    assert(m * (radix as int) <= 0) by (nonlinear_arith)
                        requires
                            m <= 0,
                            radix as int >= 2,
                    ;
                }
            }
            assert(m <= 1) by {
                if m >= 2 {
                    assert(m * (radix as int) >= 2 * (radix as int)) by (nonlinear_arith)
                        requires
                            m >= 2,
                            radix as int >= 2,
                    ;
                }
            }
            // so dl is half the radix and den1 == 2*b1 + 1, making den1 odd
            assert(2 * dl == radix as int);
            assert(den1 == 2 * b1 + 1);
            // but radix is even, so radix^(len-1) with len >= 2 is even
            let den2 = vstd::arithmetic::power::pow(radix as int, (q.len() - 2) as nat);
            assert(den1 == den2 * radix) by {
                vstd::arithmetic::power::lemma_pow_adds(radix as int, (q.len() - 2) as nat, 1);
                vstd::arithmetic::power::lemma_pow1(radix as int);
            }
            let h = (radix / 2) as int;
            assert(den2 * (radix as int) == 2 * (den2 * h)) by (nonlinear_arith)
                requires
                    radix as int == 2 * h,
            ;
            assert(den1 % 2 == 0) by {
                vstd::arithmetic::div_mod::lemma_mod_multiples_basic(den2 * h, 2);
                vstd::arithmetic::mul::lemma_mul_is_commutative(den2 * h, 2);
            }
            assert((2 * b1 + 1) % 2 == 1) by {
                vstd::arithmetic::div_mod::lemma_mod_multiples_vanish(b1, 1, 2);
            }
            assert(false);
        }
    }
}

/// Scan and convert a numeral: the sign and the assembled magnitude bits,
/// rounded to `frac_nbits` fraction bits, or the first error met.
#[verifier::rlimit(100)]
pub fn get_int_frac(
    bytes: &[u8],
    can_be_neg: bool,
    radix: u32,
    int_nbits: u32,
    frac_nbits: u32,
) -> (r: Result<(bool, u128), ParseFixedError>)
    requires
        is_radix(radix),
        is_width(int_nbits + frac_nbits),
    ensures
        ({
            let spec_r = parse_fixed_spec(bytes@, can_be_neg, radix, int_nbits, frac_nbits);
            match r {
                Ok((neg, mag)) => spec_r == Ok::<_, ParseErrorKind>((neg, mag as int)),
                Err(e) => spec_r == Err::<(bool, int), _>(e.kind),
            }
        }),
{
    let width = int_nbits + frac_nbits;
    let ghost s = bytes@;
    let p = match parse_bounds(bytes, can_be_neg, radix) {
        Ok(p) => p,
        Err(e) => {
            return Err(e);
        },
    };
    let ghost iv = digits_val(p.int@, radix) as int;
    let ghost fv = digits_val(p.frac@, radix) as int;
    let ghost fl = p.frac@.len();
    let ghost den = vstd::arithmetic::power::pow(radix as int, fl);
    let ghost pnf = pow2(frac_nbits as nat) as int;
    let ghost pni = pow2(int_nbits as nat) as int;
    let ghost pw = pow2(width as nat) as int;
    proof {
        vstd::arithmetic::power::lemma_pow_positive(radix as int, fl);
        vstd::arithmetic::power2::lemma_pow2_pos(frac_nbits as nat);
        vstd::arithmetic::power2::lemma_pow2_pos(int_nbits as nat);
        vstd::arithmetic::power2::lemma_pow2_pos(width as nat);
        vstd::arithmetic::power2::lemma_pow2_adds(int_nbits as nat, frac_nbits as nat);
        crate::digits::lemma_digits_val_bound(p.frac@, radix);
        crate::arith::lemma_rhe_assemble(iv, fv, den, frac_nbits as nat);
        lemma_half_iff(p.frac@, radix);
    }
    let int_val = match get_int(p.int, radix, int_nbits, width) {
        Some(v) => v,
        None => {
            proof {
                // the integer part alone is past the integer bits
                lemma_mag_lower(iv, fv, den, frac_nbits as nat, int_nbits as nat);
                assert(iv * pnf >= pni * pnf) by {
                    vstd::arithmetic::mul::lemma_mul_inequality(pni, iv, pnf);
                    vstd::arithmetic::mul::lemma_mul_is_commutative(pni, pnf);
                    vstd::arithmetic::mul::lemma_mul_is_commutative(iv, pnf);
                }
                assert(parse_mag(s, radix, frac_nbits) >= pw);
            }
            return Err(ParseFixedError { kind: ParseErrorKind::Overflow });
        },
    };
    let (frac_val, frac_overflow) = match get_frac(p.frac, radix, frac_nbits, width) {
        Some(v) => (v, false),
        None => (0, true),
    };
    let ghost vfrac = crate::arith::round_half_even(fv * pnf, den);
    proof {
        // the rounded fraction never exceeds one whole step
        assert(vfrac <= pnf) by {
            crate::arith::lemma_rhe_bounds(fv * pnf, den);
            assert(fv * pnf < den * pnf) by {
                crate::arith::lemma_mul_lt(fv, den, pnf);
                vstd::arithmetic::mul::lemma_mul_is_commutative(fv, pnf);
                vstd::arithmetic::mul::lemma_mul_is_commutative(den, pnf);
            }
            if vfrac > pnf {
                assert(2 * den * vfrac >= 2 * den * (pnf + 1)) by {
                    vstd::arithmetic::mul::lemma_mul_inequality(pnf + 1, vfrac, 2 * den);
                    vstd::arithmetic::mul::lemma_mul_is_commutative(pnf + 1, 2 * den);
                    vstd::arithmetic::mul::lemma_mul_is_commutative(vfrac, 2 * den);
                }
                assert(2 * den * (pnf + 1) == 2 * (den * pnf) + 2 * den) by {
                    vstd::arithmetic::mul::lemma_mul_is_distributive_add(2 * den, pnf, 1);
                    vstd::arithmetic::mul::lemma_mul_is_associative(2, den, pnf);
                }
                assert(2 * (fv * pnf) + den < 2 * (den * pnf) + 2 * den);
                assert(false);
            }
        }
        vstd::arithmetic::mul::lemma_mul_nonnegative(fv, pnf);
        crate::arith::lemma_rhe_bounds(fv * pnf, den);
    }
    if frac_overflow && int_nbits == 0 {
        proof {
            // the rounded fraction already fills a whole step, and with no
            // integer bits one step is the whole width
            assert(pow2(0) == 1) by {
                vstd::arithmetic::power2::lemma2_to64();
            }
            assert(vfrac == pnf);
            if frac_nbits == 0 && iv % 2 == 1 && 2 * fv == den {
                assert(vfrac == 0);
                assert(false);
            }
            assert(parse_mag(s, radix, frac_nbits) == iv * pnf + vfrac);
            vstd::arithmetic::mul::lemma_mul_nonnegative(iv, pnf);
            assert(parse_mag(s, radix, frac_nbits) >= pw);
        }
        return Err(ParseFixedError { kind: ParseErrorKind::Overflow });
    }
    proof {
        crate::nums::lemma_pow2_128();
        assert(pw <= pow2(128) as int) by {
            if width < 128 {
                vstd::arithmetic::power2::lemma_pow2_strictly_increases(width as nat, 128);
            }
        }
        assert((frac_val as int) < pnf) by {
            if !frac_overflow {
                assert(vfrac < pnf);
            }
        }
        // the integer bits and the fraction bits occupy disjoint ranges
        assert((int_val as int) + (frac_val as int) < pw) by {
            if !(iv < pni) {
                assert(false);
            }
            assert(iv * pnf + pnf <= pni * pnf) by {
                vstd::arithmetic::mul::lemma_mul_inequality(iv + 1, pni, pnf);
                vstd::arithmetic::mul::lemma_mul_is_distributive_add_other_way(pnf, iv, 1);
                vstd::arithmetic::mul::lemma_mul_is_commutative(iv + 1, pnf);
                vstd::arithmetic::mul::lemma_mul_is_commutative(pni, pnf);
            }
        }
    }
    let val = int_val + frac_val;
    let carry = frac_overflow || (int_val % 2 == 1 && frac_nbits == 0 && frac_is_half(
        p.frac,
        radix,
    ));
    if carry {
        let step = crate::nums::pow2_u128(frac_nbits);
        proof {
            crate::nums::lemma_pow2_128();
            crate::nums::lemma_pow2_fits_u128(frac_nbits as nat);
            assert(pow2(0) == 1) by {
                vstd::arithmetic::power2::lemma2_to64();
            }
            assert(iv * pnf + pnf <= pni * pnf) by {
                vstd::arithmetic::mul::lemma_mul_inequality(iv + 1, pni, pnf);
                vstd::arithmetic::mul::lemma_mul_is_distributive_add_other_way(pnf, iv, 1);
                vstd::arithmetic::mul::lemma_mul_is_commutative(iv + 1, pnf);
                vstd::arithmetic::mul::lemma_mul_is_commutative(pni, pnf);
            }
            assert(pw <= pow2(128) as int) by {
                if width < 128 {
                    vstd::arithmetic::power2::lemma_pow2_strictly_increases(width as nat, 128);
                }
            }
            vstd::arithmetic::mul::lemma_mul_nonnegative(iv, pnf);
            assert(int_val as int == iv * pnf);
            // with a carry the rounded fraction vanished into a whole step,
            // so the magnitude is the raised value
            if frac_overflow {
                assert(vfrac == pnf);
                assert(frac_val == 0);
                if frac_nbits == 0 && iv % 2 == 1 && 2 * fv == den {
                    // an exact half into zero bits rounds to zero, which
                    // would have fit
                    vstd::arithmetic::mul::lemma_mul_basics(fv);
                    vstd::arithmetic::mul::lemma_mul_by_zero_is_zero(den);
                    vstd::arithmetic::div_mod::lemma_fundamental_div_mod_converse(fv, den, 0, fv);
                    assert(vfrac == 0);
                    assert(false);
                }
                assert(parse_mag(s, radix, frac_nbits) == iv * pnf + pnf);
            } else {
                // an exact half against an odd integer part
                assert(int_val as int == iv * pnf);
                assert(frac_nbits == 0 && iv % 2 == 1 && 2 * fv == den) by {
                    if pnf == 1 {
                        vstd::arithmetic::mul::lemma_mul_basics(iv);
                    }
                    assert(pnf == 1 ==> int_val as int == iv);
                    if frac_nbits != 0 {
                        assert(pnf % 2 == 0) by {
                            vstd::arithmetic::power2::lemma_pow2_adds(
                                (frac_nbits - 1) as nat,
                                1,
                            );
                            assert(pow2(1) == 2) by {
                                vstd::arithmetic::power2::lemma2_to64();
                            }
                            vstd::arithmetic::div_mod::lemma_mod_multiples_basic(
                                pow2((frac_nbits - 1) as nat) as int,
                                2,
                            );
                            vstd::arithmetic::mul::lemma_mul_is_commutative(
                                pow2((frac_nbits - 1) as nat) as int,
                                2,
                            );
                        }
                        assert((iv * pnf) % 2 == 0) by {
                            let h = pnf / 2;
                            assert(iv * pnf == 2 * (iv * h)) by (nonlinear_arith)
                                requires
                                    pnf == 2 * h,
                            ;
                            vstd::arithmetic::div_mod::lemma_mod_multiples_basic(iv * h, 2);
                            vstd::arithmetic::mul::lemma_mul_is_commutative(iv * h, 2);
                        }
                        assert(false);
                    }
                }
                assert(parse_mag(s, radix, frac_nbits) == iv + 1);
                assert(vfrac == 0);
                assert(frac_val as int == vfrac);
            }
            assert(frac_val == 0);
            assert(val as int == iv * pnf);
            // one more step still fits the width, or overflows it exactly
            assert((val as int) + (step as int) <= pw) by {
                vstd::arithmetic::mul::lemma_mul_inequality(iv + 1, pni, pnf);
                vstd::arithmetic::mul::lemma_mul_is_distributive_add_other_way(pnf, iv, 1);
                vstd::arithmetic::mul::lemma_mul_is_commutative(iv + 1, pnf);
                vstd::arithmetic::mul::lemma_mul_is_commutative(pni, pnf);
            }
            assert(parse_mag(s, radix, frac_nbits) == (val as int) + (step as int)) by {
                if !frac_overflow {
                    assert(pnf == 1);
                    vstd::arithmetic::mul::lemma_mul_basics(iv);
                }
            }
        }
        if val > u128::MAX - step {
            proof {
                crate::nums::lemma_pow2_128();
            }
            return Err(ParseFixedError { kind: ParseErrorKind::Overflow });
        }
        let val2 = val + step;
        if width < 128 {
            let lim = crate::nums::pow2_u128(width);
            if val2 == lim {
                return Err(ParseFixedError { kind: ParseErrorKind::Overflow });
            }
        }
        proof {
            if width == 128 {
                crate::nums::lemma_pow2_128();
            }
        }
        return Ok((p.neg, val2));
    }
    proof {
        // no carry: the magnitude is the plain combination
        if frac_nbits == 0 && iv % 2 == 1 && 2 * fv == den {
            // an exact half with an odd integer part always carries
            assert(pow2(0) == 1) by {
                vstd::arithmetic::power2::lemma2_to64();
            }
            assert(pnf == 1);
            vstd::arithmetic::mul::lemma_mul_basics(iv);
            assert(int_val as int == iv * pnf);
            assert(int_val as int == iv);
            assert(false);
        }
        assert(parse_mag(s, radix, frac_nbits) == iv * pnf + vfrac);
        assert(!frac_overflow) by {
            if frac_overflow {
                assert(vfrac == pnf);
                vstd::arithmetic::mul::lemma_mul_nonnegative(iv, pnf);
            }
        }
        assert(0 <= vfrac < pnf);
        crate::nums::lemma_pow2_128();
        assert(pw <= pow2(128) as int) by {
            if width < 128 {
                vstd::arithmetic::power2::lemma_pow2_strictly_increases(width as nat, 128);
            }
        }
        assert(iv * pnf + pnf <= pni * pnf) by {
            vstd::arithmetic::mul::lemma_mul_inequality(iv + 1, pni, pnf);
            vstd::arithmetic::mul::lemma_mul_is_distributive_add_other_way(pnf, iv, 1);
            vstd::arithmetic::mul::lemma_mul_is_commutative(iv + 1, pnf);
            vstd::arithmetic::mul::lemma_mul_is_commutative(pni, pnf);
        }
        assert(frac_val as int == vfrac);
        assert(int_val as int == iv * pnf);
    }
    Ok((p.neg, val))
}

/// The magnitude is at least the integer part, scaled into place.
proof fn lemma_mag_lower(iv: int, fv: int, den: int, f: nat, i: nat)
    requires
        iv >= 0,
        0 <= fv < den,
        den >= 1,
    ensures
        crate::arith::round_half_even((iv * den + fv) * pow2(f) as int, den) >= iv * pow2(f),
{
    crate::arith::lemma_rhe_assemble(iv, fv, den, f);
    let vfrac = crate::arith::round_half_even(fv * pow2(f) as int, den);
    vstd::arithmetic::mul::lemma_mul_nonnegative(fv, pow2(f) as int);
    crate::arith::lemma_rhe_bounds(fv * pow2(f) as int, den);
    if f == 0 && iv % 2 == 1 && 2 * fv == den {
        assert(pow2(0) == 1) by {
            vstd::arithmetic::power2::lemma2_to64();
        }
    }
}

/// What parsing into an unsigned target yields: the magnitude bits, or the
/// first error.
pub open spec fn from_str_u_spec(s: Seq<u8>, radix: u32, int_nbits: u32, frac_nbits: u32) -> Result<
    int,
    ParseErrorKind,
> {
    match parse_fixed_spec(s, false, radix, int_nbits, frac_nbits) {
        Err(e) => Err(e),
        Ok((_, m)) => Ok(m),
    }
}

/// What parsing into a signed target yields: the two's-complement value, or
/// the first error; a negated magnitude may reach one past the positive
/// range.
pub open spec fn from_str_i_spec(s: Seq<u8>, radix: u32, int_nbits: u32, frac_nbits: u32) -> Result<
    int,
    ParseErrorKind,
> {
    match parse_fixed_spec(s, true, radix, int_nbits, frac_nbits) {
        Err(e) => Err(e),
        Ok((neg, m)) => if neg {
            if m > pow2((int_nbits + frac_nbits - 1) as nat) {
                Err(ParseErrorKind::Overflow)
            } else {
                Ok(-m)
            }
        } else {
            if m >= pow2((int_nbits + frac_nbits - 1) as nat) {
                Err(ParseErrorKind::Overflow)
            } else {
                Ok(m)
            }
        },
    }
}

/// Parse a numeral into the bit pattern of an unsigned 8-bit fixed-point
/// value with `int_nbits` integer and `frac_nbits` fraction bits.
pub fn from_str_u8(bytes: &[u8], radix: u32, int_nbits: u32, frac_nbits: u32) -> (r: Result<
    u8,
    ParseFixedError,
>)
    requires
        is_radix(radix),
        int_nbits + frac_nbits == 8,
    ensures
        ({
            let spec_r = from_str_u_spec(bytes@, radix, int_nbits, frac_nbits);
            match r {
                Ok(v) => spec_r == Ok::<int, ParseErrorKind>(v as int),
                Err(e) => spec_r == Err::<int, ParseErrorKind>(e.kind),
            }
        }),
{
    proof {
        assert(pow2(8) == 256) by {
            vstd::arithmetic::power2::lemma2_to64();
        }
    }
    match get_int_frac(bytes, false, radix, int_nbits, frac_nbits) {
        Ok((_, abs)) => Ok(abs as u8),
        Err(e) => Err(e),
    }
}

/// Parse a numeral into the bit pattern of a signed 8-bit fixed-point value.
pub fn from_str_i8(bytes: &[u8], radix: u32, int_nbits: u32, frac_nbits: u32) -> (r: Result<
    i8,
    ParseFixedError,
>)
    requires
        is_radix(radix),
        int_nbits + frac_nbits == 8,
    ensures
        ({
            let spec_r = from_str_i_spec(bytes@, radix, int_nbits, frac_nbits);
            match r {
                Ok(v) => spec_r == Ok::<int, ParseErrorKind>(v as int),
                Err(e) => spec_r == Err::<int, ParseErrorKind>(e.kind),
            }
        }),
{
    proof {
        assert(pow2(7) == 128) by {
            vstd::arithmetic::power2::lemma2_to64();
        }
    }
    match get_int_frac(bytes, true, radix, int_nbits, frac_nbits) {
        Err(e) => Err(e),
        Ok((neg, abs)) => {
            if neg {
                if abs > 128 {
                    Err(ParseFixedError { kind: ParseErrorKind::Overflow })
                } else if abs == 128 {
                    Ok(i8::MIN)
                } else {
                    Ok(-(abs as i8))
                }
            } else {
                if abs > 127 {
                    Err(ParseFixedError { kind: ParseErrorKind::Overflow })
                } else {
                    Ok(abs as i8)
                }
            }
        },
    }
}

/// Parse a numeral into the bit pattern of an unsigned 16-bit fixed-point
/// value.
pub fn from_str_u16(bytes: &[u8], radix: u32, int_nbits: u32, frac_nbits: u32) -> (r: Result<
    u16,
    ParseFixedError,
>)
    requires
        is_radix(radix),
        int_nbits + frac_nbits == 16,
    ensures
        ({
            let spec_r = from_str_u_spec(bytes@, radix, int_nbits, frac_nbits);
            match r {
                Ok(v) => spec_r == Ok::<int, ParseErrorKind>(v as int),
                Err(e) => spec_r == Err::<int, ParseErrorKind>(e.kind),
            }
        }),
{
    proof {
        assert(pow2(16) == 65536) by {
            vstd::arithmetic::power2::lemma2_to64();
        }
    }
    match get_int_frac(bytes, false, radix, int_nbits, frac_nbits) {
        Ok((_, abs)) => Ok(abs as u16),
        Err(e) => Err(e),
    }
}

/// Parse a numeral into the bit pattern of a signed 16-bit fixed-point
/// value.
pub fn from_str_i16(bytes: &[u8], radix: u32, int_nbits: u32, frac_nbits: u32) -> (r: Result<
    i16,
    ParseFixedError,
>)
    requires
        is_radix(radix),
        int_nbits + frac_nbits == 16,
    ensures
        ({
            let spec_r = from_str_i_spec(bytes@, radix, int_nbits, frac_nbits);
            match r {
                Ok(v) => spec_r == Ok::<int, ParseErrorKind>(v as int),
                Err(e) => spec_r == Err::<int, ParseErrorKind>(e.kind),
            }
        }),
{
    proof {
        assert(pow2(15) == 32768) by {
            vstd::arithmetic::power2::lemma2_to64();
        }
    }
    match get_int_frac(bytes, true, radix, int_nbits, frac_nbits) {
        Err(e) => Err(e),
        Ok((neg, abs)) => {
            if neg {
                if abs > 32768 {
                    Err(ParseFixedError { kind: ParseErrorKind::Overflow })
                } else if abs == 32768 {
                    Ok(i16::MIN)
                } else {
                    Ok(-(abs as i16))
                }
            } else {
                if abs > 32767 {
                    Err(ParseFixedError { kind: ParseErrorKind::Overflow })
                } else {
                    Ok(abs as i16)
                }
            }
        },
    }
}

/// Parse a numeral into the bit pattern of an unsigned 32-bit fixed-point
/// value.
pub fn from_str_u32(bytes: &[u8], radix: u32, int_nbits: u32, frac_nbits: u32) -> (r: Result<
    u32,
    ParseFixedError,
>)
    requires
        is_radix(radix),
        int_nbits + frac_nbits == 32,
    ensures
        ({
            let spec_r = from_str_u_spec(bytes@, radix, int_nbits, frac_nbits);
            match r {
                Ok(v) => spec_r == Ok::<int, ParseErrorKind>(v as int),
                Err(e) => spec_r == Err::<int, ParseErrorKind>(e.kind),
            }
        }),
{
    proof {
        assert(pow2(32) == 0x100000000) by {
            vstd::arithmetic::power2::lemma2_to64();
        }
    }
    match get_int_frac(bytes, false, radix, int_nbits, frac_nbits) {
        Ok((_, abs)) => Ok(abs as u32),
        Err(e) => Err(e),
    }
}

/// Parse a numeral into the bit pattern of a signed 32-bit fixed-point
/// value.
pub fn from_str_i32(bytes: &[u8], radix: u32, int_nbits: u32, frac_nbits: u32) -> (r: Result<
    i32,
    ParseFixedError,
>)
    requires
        is_radix(radix),
        int_nbits + frac_nbits == 32,
    ensures
        ({
            let spec_r = from_str_i_spec(bytes@, radix, int_nbits, frac_nbits);
            match r {
                Ok(v) => spec_r == Ok::<int, ParseErrorKind>(v as int),
                Err(e) => spec_r == Err::<int, ParseErrorKind>(e.kind),
            }
        }),
{
    proof {
        assert(pow2(31) == 0x80000000) by {
            vstd::arithmetic::power2::lemma2_to64();
        }
    }
    match get_int_frac(bytes, true, radix, int_nbits, frac_nbits) {
        Err(e) => Err(e),
        Ok((neg, abs)) => {
            if neg {
                if abs > 0x80000000 {
                    Err(ParseFixedError { kind: ParseErrorKind::Overflow })
                } else if abs == 0x80000000 {
                    Ok(i32::MIN)
                } else {
                    Ok(-(abs as i32))
                }
            } else {
                if abs > 0x7FFFFFFF {
                    Err(ParseFixedError { kind: ParseErrorKind::Overflow })
                } else {
                    Ok(abs as i32)
                }
            }
        },
    }
}

/// Parse a numeral into the bit pattern of an unsigned 64-bit fixed-point
/// value.
pub fn from_str_u64(bytes: &[u8], radix: u32, int_nbits: u32, frac_nbits: u32) -> (r: Result<
    u64,
    ParseFixedError,
>)
    requires
        is_radix(radix),
        int_nbits + frac_nbits == 64,
    ensures
        ({
            let spec_r = from_str_u_spec(bytes@, radix, int_nbits, frac_nbits);
            match r {
                Ok(v) => spec_r == Ok::<int, ParseErrorKind>(v as int),
                Err(e) => spec_r == Err::<int, ParseErrorKind>(e.kind),
            }
        }),
{
    proof {
        assert(pow2(64) == 0x10000000000000000) by {
            vstd::arithmetic::power2::lemma2_to64_rest();
        }
    }
    match get_int_frac(bytes, false, radix, int_nbits, frac_nbits) {
        Ok((_, abs)) => Ok(abs as u64),
        Err(e) => Err(e),
    }
}

/// Parse a numeral into the bit pattern of a signed 64-bit fixed-point
/// value.
pub fn from_str_i64(bytes: &[u8], radix: u32, int_nbits: u32, frac_nbits: u32) -> (r: Result<
    i64,
    ParseFixedError,
>)
    requires
        is_radix(radix),
        int_nbits + frac_nbits == 64,
    ensures
        ({
            let spec_r = from_str_i_spec(bytes@, radix, int_nbits, frac_nbits);
            match r {
                Ok(v) => spec_r == Ok::<int, ParseErrorKind>(v as int),
                Err(e) => spec_r == Err::<int, ParseErrorKind>(e.kind),
            }
        }),
{
    proof {
        assert(pow2(63) == 0x8000000000000000) by {
            vstd::arithmetic::power2::lemma2_to64_rest();
        }
    }
    match get_int_frac(bytes, true, radix, int_nbits, frac_nbits) {
        Err(e) => Err(e),
        Ok((neg, abs)) => {
            if neg {
                if abs > 0x8000000000000000 {
                    Err(ParseFixedError { kind: ParseErrorKind::Overflow })
                } else if abs == 0x8000000000000000 {
                    Ok(i64::MIN)
                } else {
                    Ok(-(abs as i64))
                }
            } else {
                if abs > 0x7FFFFFFFFFFFFFFF {
                    Err(ParseFixedError { kind: ParseErrorKind::Overflow })
                } else {
                    Ok(abs as i64)
                }
            }
        },
    }
}

/// Parse a numeral into the bit pattern of an unsigned 128-bit fixed-point
/// value.
pub fn from_str_u128(bytes: &[u8], radix: u32, int_nbits: u32, frac_nbits: u32) -> (r: Result<
    u128,
    ParseFixedError,
>)
    requires
        is_radix(radix),
        int_nbits + frac_nbits == 128,
    ensures
        ({
            let spec_r = from_str_u_spec(bytes@, radix, int_nbits, frac_nbits);
            match r {
                Ok(v) => spec_r == Ok::<int, ParseErrorKind>(v as int),
                Err(e) => spec_r == Err::<int, ParseErrorKind>(e.kind),
            }
        }),
{
    proof {
        crate::nums::lemma_pow2_128();
    }
    match get_int_frac(bytes, false, radix, int_nbits, frac_nbits) {
        Ok((_, abs)) => Ok(abs),
        Err(e) => Err(e),
    }
}

/// Parse a numeral into the bit pattern of a signed 128-bit fixed-point
/// value.
pub fn from_str_i128(bytes: &[u8], radix: u32, int_nbits: u32, frac_nbits: u32) -> (r: Result<
    i128,
    ParseFixedError,
>)
    requires
        is_radix(radix),
        int_nbits + frac_nbits == 128,
    ensures
        ({
            let spec_r = from_str_i_spec(bytes@, radix, int_nbits, frac_nbits);
            match r {
                Ok(v) => spec_r == Ok::<int, ParseErrorKind>(v as int),
                Err(e) => spec_r == Err::<int, ParseErrorKind>(e.kind),
            }
        }),
{
    proof {
        crate::nums::lemma_pow2_128();
    }
    match get_int_frac(bytes, true, radix, int_nbits, frac_nbits) {
        Err(e) => Err(e),
        Ok((neg, abs)) => {
            if neg {
                if abs > 0x80000000000000000000000000000000 {
                    Err(ParseFixedError { kind: ParseErrorKind::Overflow })
                } else if abs == 0x80000000000000000000000000000000 {
                    Ok(i128::MIN)
                } else {
                    Ok(-(abs as i128))
                }
            } else {
                if abs > 0x7FFFFFFFFFFFFFFFFFFFFFFFFFFFFFFF {
                    Err(ParseFixedError { kind: ParseErrorKind::Overflow })
                } else {
                    Ok(abs as i128)
                }
            }
        },
    }
}

/// `point_from` returns the first point at or past its start.
proof fn lemma_point_stops(s: Seq<u8>, j: int)
    requires
        0 <= j < s.len(),
        s[j] == 0x2Eu8,
        forall|k: int| 0 <= k < j ==> s[k] != 0x2Eu8,
    ensures
        point_idx(s) == j,
{
    lemma_point_from_first(s, 0, j);
}

proof fn lemma_point_from_first(s: Seq<u8>, i: int, j: int)
    requires
        0 <= i <= j < s.len(),
        s[j] == 0x2Eu8,
        forall|k: int| i <= k < j ==> s[k] != 0x2Eu8,
    ensures
        point_from(s, i) == j,
    decreases j - i,
{
    if i < j {
        lemma_point_from_first(s, i + 1, j);
    }
}

/// With no point in the prefix, the first point lies past it.
proof fn lemma_point_past(s: Seq<u8>, i: int)
    requires
        0 <= i < s.len(),
        forall|k: int| 0 <= k <= i ==> s[k] != 0x2Eu8,
    ensures
        point_idx(s) >= i + 1,
{
    lemma_point_from_ge(s, 0, i + 1);
}

proof fn lemma_point_past_all(s: Seq<u8>)
    requires
        forall|k: int| 0 <= k < s.len() ==> s[k] != 0x2Eu8,
    ensures
        point_idx(s) == s.len(),
{
    lemma_point_from_ge(s, 0, s.len() as int);
    lemma_point_first(s);
}

/// The first point really is first: nothing before it is a point, and it
/// is one when inside the text.
proof fn lemma_point_first(s: Seq<u8>)
    ensures
        0 <= point_idx(s) <= s.len(),
        forall|k: int| 0 <= k < point_idx(s) ==> s[k] != 0x2Eu8,
        point_idx(s) < s.len() ==> s[point_idx(s)] == 0x2Eu8,
{
    lemma_point_from_props(s, 0);
}

proof fn lemma_point_from_props(s: Seq<u8>, i: int)
    requires
        0 <= i <= s.len(),
    ensures
        i <= point_from(s, i) <= s.len(),
        forall|k: int| i <= k < point_from(s, i) ==> s[k] != 0x2Eu8,
        point_from(s, i) < s.len() ==> s[point_from(s, i)] == 0x2Eu8,
    decreases s.len() - i,
{
    if i < s.len() && s[i] != 0x2Eu8 {
        lemma_point_from_props(s, i + 1);
    }
}

proof fn lemma_point_from_ge(s: Seq<u8>, i: int, m: int)
    requires
        0 <= i,
        i <= m <= s.len(),
        forall|k: int| i <= k < m ==> s[k] != 0x2Eu8,
    ensures
        point_from(s, i) >= m,
    decreases m - i,
{
    if i < m {
        lemma_point_from_ge(s, i + 1, m);
    } else {
        lemma_point_from_props(s, i);
    }
}

} // verus!
