//! Laws of the conversion engine: parsing is monotone in the numeral's real
//! value, and numerals of equal value — even across radices — parse to the
//! same bit pattern.

use vstd::prelude::*;

use crate::arith::{lemma_rhe_equal, lemma_rhe_mono};
use crate::digits::{digits_val, is_radix};
use crate::from_str::{
    frac_digits, from_str_i_spec, from_str_u_spec, int_digits, is_neg, parse_mag,
};
use vstd::arithmetic::power::{lemma_pow_positive, pow};
use vstd::arithmetic::power2::{lemma_pow2_pos, pow2};

verus! {

/// The magnitude a numeral's digits stand for, as a fraction's numerator
/// against `numeral_den`.
pub open spec fn numeral_mag(s: Seq<u8>, radix: u32) -> int {
    digits_val(int_digits(s), radix) * pow(radix as int, frac_digits(s).len()) + digits_val(
        frac_digits(s),
        radix,
    )
}

/// The denominator of the numeral's value: one for each fraction digit.
pub open spec fn numeral_den(s: Seq<u8>, radix: u32) -> int {
    pow(radix as int, frac_digits(s).len())
}

/// The signed numerator of the numeral's real value.
pub open spec fn numeral_num(s: Seq<u8>, radix: u32) -> int {
    if is_neg(s) {
        -numeral_mag(s, radix)
    } else {
        numeral_mag(s, radix)
    }
}

/// The magnitude bits of a valid numeral are monotone in its real value:
/// rounding to the nearest cannot cross over.
proof fn lemma_mag_mono(s1: Seq<u8>, s2: Seq<u8>, radix1: u32, radix2: u32, frac_nbits: u32)
    requires
        is_radix(radix1),
        is_radix(radix2),
        numeral_mag(s1, radix1) * numeral_den(s2, radix2) < numeral_mag(s2, radix2) * numeral_den(
            s1,
            radix1,
        ),
    ensures
        parse_mag(s1, radix1, frac_nbits) <= parse_mag(s2, radix2, frac_nbits),
{
    let m1 = numeral_mag(s1, radix1);
    let m2 = numeral_mag(s2, radix2);
    let d1 = numeral_den(s1, radix1);
    let d2 = numeral_den(s2, radix2);
    let pf = pow2(frac_nbits as nat) as int;
    lemma_pow2_pos(frac_nbits as nat);
    lemma_pow_positive(radix1 as int, frac_digits(s1).len());
    lemma_pow_positive(radix2 as int, frac_digits(s2).len());
    lemma_mag_nonneg(s1, radix1);
    lemma_mag_nonneg(s2, radix2);
    assert((m1 * pf) * d2 < (m2 * pf) * d1) by (nonlinear_arith)
        requires
            m1 * d2 < m2 * d1,
            pf >= 1,
    ;
    assert(m1 * pf >= 0) by {
        vstd::arithmetic::mul::lemma_mul_nonnegative(m1, pf);
    }
    assert(m2 * pf >= 0) by {
        vstd::arithmetic::mul::lemma_mul_nonnegative(m2, pf);
    }
    lemma_rhe_mono(m1 * pf, d1, m2 * pf, d2);
}

/// Equal real values give equal magnitude bits, whatever the radices.
proof fn lemma_mag_equal(s1: Seq<u8>, s2: Seq<u8>, radix1: u32, radix2: u32, frac_nbits: u32)
    requires
        is_radix(radix1),
        is_radix(radix2),
        numeral_mag(s1, radix1) * numeral_den(s2, radix2) == numeral_mag(s2, radix2) * numeral_den(
            s1,
            radix1,
        ),
    ensures
        parse_mag(s1, radix1, frac_nbits) == parse_mag(s2, radix2, frac_nbits),
{
    let m1 = numeral_mag(s1, radix1);
    let m2 = numeral_mag(s2, radix2);
    let d1 = numeral_den(s1, radix1);
    let d2 = numeral_den(s2, radix2);
    let pf = pow2(frac_nbits as nat) as int;
    lemma_pow2_pos(frac_nbits as nat);
    lemma_pow_positive(radix1 as int, frac_digits(s1).len());
    lemma_pow_positive(radix2 as int, frac_digits(s2).len());
    lemma_mag_nonneg(s1, radix1);
    lemma_mag_nonneg(s2, radix2);
    assert((m1 * pf) * d2 == (m2 * pf) * d1) by (nonlinear_arith)
        requires
            m1 * d2 == m2 * d1,
    ;
    assert(m1 * pf >= 0) by {
        vstd::arithmetic::mul::lemma_mul_nonnegative(m1, pf);
    }
    assert(m2 * pf >= 0) by {
        vstd::arithmetic::mul::lemma_mul_nonnegative(m2, pf);
    }
    lemma_rhe_equal(m1 * pf, d1, m2 * pf, d2);
}

proof fn lemma_mag_nonneg(s: Seq<u8>, radix: u32)
    requires
        is_radix(radix),
    ensures
        numeral_mag(s, radix) >= 0,
        numeral_den(s, radix) >= 1,
{
    lemma_pow_positive(radix as int, frac_digits(s).len());
    vstd::arithmetic::mul::lemma_mul_nonnegative(
        digits_val(int_digits(s), radix) as int,
        pow(radix as int, frac_digits(s).len()),
    );
}

/// Parsing into an unsigned target is monotone: of two numerals that both
/// parse, the one with the strictly smaller real value yields a bit pattern
/// no greater.
pub proof fn lemma_from_str_u_monotonic(
    s1: Seq<u8>,
    s2: Seq<u8>,
    radix: u32,
    int_nbits: u32,
    frac_nbits: u32,
    v1: int,
    v2: int,
)
    requires
        is_radix(radix),
        from_str_u_spec(s1, radix, int_nbits, frac_nbits) == Ok::<int, crate::from_str::ParseErrorKind>(v1),
        from_str_u_spec(s2, radix, int_nbits, frac_nbits) == Ok::<int, crate::from_str::ParseErrorKind>(v2),
        numeral_num(s1, radix) * numeral_den(s2, radix) < numeral_num(s2, radix) * numeral_den(
            s1,
            radix,
        ),
    ensures
        v1 <= v2,
{
    // a minus sign is rejected on the unsigned path, so both values are the
    // plain magnitudes
    lemma_unsigned_not_neg(s1, radix);
    lemma_unsigned_not_neg(s2, radix);
    lemma_mag_mono(s1, s2, radix, radix, frac_nbits);
}

/// A numeral that scans cleanly with the minus sign barred is not negative.
proof fn lemma_unsigned_not_neg(s: Seq<u8>, radix: u32)
    requires
        crate::from_str::scan_err(s, false, radix) is None,
    ensures
        !is_neg(s),
{
    if is_neg(s) {
        assert(crate::from_str::bad_at(s, false, radix, 0) is Some);
        assert(crate::from_str::scan_from(s, false, radix, 0) == crate::from_str::bad_at(
            s,
            false,
            radix,
            0,
        ));
    }
}

/// Parsing into a signed target is monotone: of two numerals that both
/// parse, the one with the strictly smaller real value yields a
/// two's-complement value no greater.
pub proof fn lemma_from_str_i_monotonic(
    s1: Seq<u8>,
    s2: Seq<u8>,
    radix: u32,
    int_nbits: u32,
    frac_nbits: u32,
    v1: int,
    v2: int,
)
    requires
        is_radix(radix),
        from_str_i_spec(s1, radix, int_nbits, frac_nbits) == Ok::<int, crate::from_str::ParseErrorKind>(v1),
        from_str_i_spec(s2, radix, int_nbits, frac_nbits) == Ok::<int, crate::from_str::ParseErrorKind>(v2),
        numeral_num(s1, radix) * numeral_den(s2, radix) < numeral_num(s2, radix) * numeral_den(
            s1,
            radix,
        ),
    ensures
        v1 <= v2,
{
    let m1 = numeral_mag(s1, radix);
    let m2 = numeral_mag(s2, radix);
    let d1 = numeral_den(s1, radix);
    let d2 = numeral_den(s2, radix);
    lemma_mag_nonneg(s1, radix);
    lemma_mag_nonneg(s2, radix);
    let p1 = parse_mag(s1, radix, frac_nbits);
    let p2 = parse_mag(s2, radix, frac_nbits);
    lemma_parse_mag_nonneg(s1, radix, frac_nbits);
    lemma_parse_mag_nonneg(s2, radix, frac_nbits);
    if is_neg(s1) && is_neg(s2) {
        // deeper below zero means a larger magnitude
        assert(m2 * d1 < m1 * d2) by (nonlinear_arith)
            requires
                (-m1) * d2 < (-m2) * d1,
        ;
        lemma_mag_mono(s2, s1, radix, radix, frac_nbits);
        assert(v1 == -p1 && v2 == -p2);
    } else if is_neg(s1) && !is_neg(s2) {
        assert(v1 == -p1 && v2 == p2);
    } else if !is_neg(s1) && is_neg(s2) {
        // a non-negative value cannot lie strictly below a non-positive one
        assert(m1 * d2 >= 0) by {
            vstd::arithmetic::mul::lemma_mul_nonnegative(m1, d2);
        }
        assert((-m2) * d1 <= 0) by (nonlinear_arith)
            requires
                m2 >= 0,
                d1 >= 1,
        ;
        assert(false);
    } else {
        lemma_mag_mono(s1, s2, radix, radix, frac_nbits);
    }
}

/// The magnitude bits are never negative.
proof fn lemma_parse_mag_nonneg(s: Seq<u8>, radix: u32, frac_nbits: u32)
    requires
        is_radix(radix),
    ensures
        parse_mag(s, radix, frac_nbits) >= 0,
{
    lemma_mag_nonneg(s, radix);
    lemma_pow2_pos(frac_nbits as nat);
    vstd::arithmetic::mul::lemma_mul_nonnegative(
        numeral_mag(s, radix),
        pow2(frac_nbits as nat) as int,
    );
    crate::arith::lemma_rhe_bounds(
        numeral_mag(s, radix) * pow2(frac_nbits as nat) as int,
        numeral_den(s, radix),
    );
}

/// Numerals of equal real value parse to identical bit patterns into the
/// same target, even written in different radices.
pub proof fn lemma_from_str_u_radix_equivalence(
    s1: Seq<u8>,
    s2: Seq<u8>,
    radix1: u32,
    radix2: u32,
    int_nbits: u32,
    frac_nbits: u32,
    v1: int,
    v2: int,
)
    requires
        is_radix(radix1),
        is_radix(radix2),
        from_str_u_spec(s1, radix1, int_nbits, frac_nbits) == Ok::<int, crate::from_str::ParseErrorKind>(v1),
        from_str_u_spec(s2, radix2, int_nbits, frac_nbits) == Ok::<int, crate::from_str::ParseErrorKind>(v2),
        numeral_num(s1, radix1) * numeral_den(s2, radix2) == numeral_num(s2, radix2) * numeral_den(
            s1,
            radix1,
        ),
    ensures
        v1 == v2,
{
    lemma_unsigned_not_neg(s1, radix1);
    lemma_unsigned_not_neg(s2, radix2);
    lemma_mag_equal(s1, s2, radix1, radix2, frac_nbits);
}

/// The same, into a signed target: equal real values parse to identical
/// two's-complement values across radices.
pub proof fn lemma_from_str_i_radix_equivalence(
    s1: Seq<u8>,
    s2: Seq<u8>,
    radix1: u32,
    radix2: u32,
    int_nbits: u32,
    frac_nbits: u32,
    v1: int,
    v2: int,
)
    requires
        is_radix(radix1),
        is_radix(radix2),
        from_str_i_spec(s1, radix1, int_nbits, frac_nbits) == Ok::<
            int,
            crate::from_str::ParseErrorKind,
        >(v1),
        from_str_i_spec(s2, radix2, int_nbits, frac_nbits) == Ok::<
            int,
            crate::from_str::ParseErrorKind,
        >(v2),
        numeral_num(s1, radix1) * numeral_den(s2, radix2) == numeral_num(s2, radix2) * numeral_den(
            s1,
            radix1,
        ),
    ensures
        v1 == v2,
{
    let m1 = numeral_mag(s1, radix1);
    let m2 = numeral_mag(s2, radix2);
    let d1 = numeral_den(s1, radix1);
    let d2 = numeral_den(s2, radix2);
    lemma_mag_nonneg(s1, radix1);
    lemma_mag_nonneg(s2, radix2);
    lemma_parse_mag_nonneg(s1, radix1, frac_nbits);
    lemma_parse_mag_nonneg(s2, radix2, frac_nbits);
    if is_neg(s1) == is_neg(s2) {
        // the magnitudes stand for the same fraction
        assert(m1 * d2 == m2 * d1) by (nonlinear_arith)
            requires
                (if is_neg(s1) {
                    -m1
                } else {
                    m1
                }) * d2 == (if is_neg(s2) {
                    -m2
                } else {
                    m2
                }) * d1,
                is_neg(s1) == is_neg(s2),
        ;
        lemma_mag_equal(s1, s2, radix1, radix2, frac_nbits);
        if is_neg(s1) {
            // equal magnitudes past the range check leave equal negations,
            // and a zero magnitude leaves zero on both sides
            assert(v1 == -parse_mag(s1, radix1, frac_nbits));
            assert(v2 == -parse_mag(s2, radix2, frac_nbits));
        }
    } else {
        // opposite signs with equal value force both magnitudes to zero
        assert(m1 == 0 && m2 == 0) by (nonlinear_arith)
            requires
                (if is_neg(s1) {
                    -m1
                } else {
                    m1
                }) * d2 == (if is_neg(s2) {
                    -m2
                } else {
                    m2
                }) * d1,
                is_neg(s1) != is_neg(s2),
                m1 >= 0,
                m2 >= 0,
                d1 >= 1,
                d2 >= 1,
        ;
        lemma_mag_equal(s1, s2, radix1, radix2, frac_nbits);
        // a zero magnitude rounds to zero
        lemma_zero_mag(s1, radix1, frac_nbits);
        lemma_zero_mag(s2, radix2, frac_nbits);
    }
}

/// A numeral worth zero parses to the zero pattern.
proof fn lemma_zero_mag(s: Seq<u8>, radix: u32, frac_nbits: u32)
    requires
        is_radix(radix),
        numeral_mag(s, radix) == 0,
    ensures
        parse_mag(s, radix, frac_nbits) == 0,
{
    lemma_mag_nonneg(s, radix);
    lemma_pow2_pos(frac_nbits as nat);
    vstd::arithmetic::mul::lemma_mul_by_zero_is_zero(pow2(frac_nbits as nat) as int);
    vstd::arithmetic::div_mod::lemma_fundamental_div_mod_converse(
        0,
        numeral_den(s, radix),
        0,
        0,
    );
    vstd::arithmetic::mul::lemma_mul_by_zero_is_zero(numeral_den(s, radix));
}

} // verus!
