//! The decimal fractional converter: packing decimal digit groups into native
//! integers, the wide scaled-rounding primitive, and the digit-by-digit
//! boundary walk that settles rounding for long digit runs.

use vstd::prelude::*;

use crate::arith::{
    lemma_div_mod_scale, lemma_rhe_from_half_offset, lemma_rhe_near_floor, round_half_even,
};
use crate::digits::{
    all_digits, digits_val, lemma_digits_val_bound, lemma_digits_val_split,
};
use crate::nums::{
    lemma_dec_pack_values, lemma_pow10_values, lemma_pow2_128, lemma_pow2_fits_u128, pow10_u128,
    pow2_u128,
};
use vstd::arithmetic::div_mod::{
    lemma_div_denominator, lemma_fundamental_div_mod, lemma_fundamental_div_mod_converse,
    lemma_hoist_over_denominator, lemma_mod_breakdown,
};
use vstd::arithmetic::mul::{lemma_mul_inequality, lemma_mul_is_commutative};
use vstd::arithmetic::power::{lemma_pow_adds, lemma_pow_positive, pow};
use vstd::arithmetic::power2::{lemma_pow2_adds, lemma_pow2_pos, pow2};

verus! {

/// How the scaled-rounding primitive resolves the discarded digits.
pub enum Round {
    Nearest,
    Floor,
}

/// The number of leading decimal digits packed into one `u128` group:
/// `2 * 5^27` fits well under `2^128`, so a group scales exactly.
pub const DEC_DIGITS: u32 = 27;

/// `5^27`.
pub const FIVES: u128 = 7450580596923828125;

/// `10^27`, the scale of one packed digit group.
pub const GROUP_SCALE: u128 = 1000000000000000000000000000;

/// Decode a packed group of `DEC_DIGITS` decimal fraction digits into
/// `nbits` fraction bits: either the floor, or the nearest value with ties
/// to even. `None` reports a nearest result that needs more than `nbits`
/// bits; the exception is an exact half rounding into zero bits, whose
/// correct, even answer is 0.
#[verifier::rlimit(60)]
pub fn dec_to_bin(val: u128, nbits: u32, round: Round) -> (r: Option<u128>)
    requires
        (val as nat) < pow(10, DEC_DIGITS as nat),
        nbits <= 64,
    ensures
        ({
            let v = round_half_even(
                val as int * pow2(nbits as nat) as int,
                pow(10, DEC_DIGITS as nat),
            );
            match round {
                Round::Nearest => (v < pow2(nbits as nat) ==> r == Some(v as u128)) && (v >= pow2(
                    nbits as nat,
                ) ==> r.is_none()),
                Round::Floor => r == Some(
                    ((val as int * pow2(nbits as nat) as int / pow(10, DEC_DIGITS as nat)) as u128),
                ),
            }
        }),
{
    proof {
        lemma_dec_pack_values();
        lemma_pow2_fits_u128(38);
        lemma_pow2_128();
        vstd::arithmetic::power2::lemma2_to64_rest();
        vstd::arithmetic::power2::lemma2_to64();
        vstd::arithmetic::mul::lemma_mul_nonnegative(
            val as int,
            pow2(nbits as nat) as int,
        );
    }
    let p38 = pow2_u128(38);
    assert(val * p38 <= u128::MAX) by {
        assert((val as int) * (p38 as int) < pow(10, 27) * pow2(38)) by {
            crate::arith::lemma_mul_lt(val as int, pow(10, 27), p38 as int);
        }
    }
    let big = val * p38;
    let shift: u32 = 64 - nbits;
    let psh = pow2_u128(shift);
    let numer0 = big / psh;
    let exact = big % psh == 0;
    let ghost p10 = pow(10, 27);
    let ghost num_t = val as int * pow2(nbits as nat) as int;
    let ghost xx = 2 * num_t;
    proof {
        // numer0 == (val * 2^(nbits+1)) / 2^27, and exactness carries over:
        // scale both divisions to a common denominator of 2^64
        lemma_pow2_pos(shift as nat);
        lemma_pow2_pos(27);
        lemma_pow2_pos(37);
        lemma_pow2_pos(nbits as nat);
        assert(xx == val as int * pow2((nbits + 1) as nat)) by {
            lemma_pow2_adds(nbits as nat, 1);
            assert(pow2(1) == 2) by {
                vstd::arithmetic::power2::lemma2_to64();
            }
            vstd::arithmetic::mul::lemma_mul_is_associative(val as int, pow2(nbits as nat) as int, 2);
        }
        let common = val as int * pow2((38 + nbits) as nat);
        assert((big as int) * (pow2(nbits as nat) as int) == common) by {
            lemma_pow2_adds(38, nbits as nat);
            vstd::arithmetic::mul::lemma_mul_is_associative(
                val as int,
                pow2(38) as int,
                pow2(nbits as nat) as int,
            );
        }
        assert((psh as int) * (pow2(nbits as nat) as int) == pow2(64) as int) by {
            lemma_pow2_adds(shift as nat, nbits as nat);
        }
        lemma_div_mod_scale(big as int, psh as int, pow2(nbits as nat) as int);
        assert(xx * (pow2(37) as int) == common) by {
            lemma_pow2_adds((nbits + 1) as nat, 37);
            vstd::arithmetic::mul::lemma_mul_is_associative(
                val as int,
                pow2((nbits + 1) as nat) as int,
                pow2(37) as int,
            );
        }
        assert((pow2(27) as int) * (pow2(37) as int) == pow2(64) as int) by {
            lemma_pow2_adds(27, 37);
        }
        lemma_div_mod_scale(xx, pow2(27) as int, pow2(37) as int);
        assert(numer0 as int == xx / (pow2(27) as int));
        assert(exact <==> xx % (pow2(27) as int) == 0) by {
            lemma_pow2_pos(37);
            assert((big as int % psh as int) * (pow2(nbits as nat) as int) == (xx % (pow2(
                27,
            ) as int)) * (pow2(37) as int));
            vstd::arithmetic::div_mod::lemma_mod_bound(big as int, psh as int);
            vstd::arithmetic::div_mod::lemma_mod_bound(xx, pow2(27) as int);
            crate::arith::lemma_mul_zero_factor(big as int % psh as int, pow2(nbits as nat) as int);
            crate::arith::lemma_mul_zero_factor(xx % (pow2(27) as int), pow2(37) as int);
        }
        // the floored quotient against 2*5^27 is the half-offset division
        lemma_pow2_pos(27);
        assert((xx + FIVES as int * pow2(27) as int) / (pow2(27) as int) == numer0 as int
            + FIVES as int) by {
            lemma_hoist_over_denominator(xx, FIVES as int, pow2(27) as nat);
        }
        assert(FIVES as int * pow2(27) as int == p10);
        assert((pow2(27) as int) * (2 * FIVES as int) == 2 * p10) by {
            lemma_mul_is_commutative(pow2(27) as int, 2 * FIVES as int);
        }
    }
    match round {
        Round::Floor => {
            let div = numer0 / (2 * FIVES);
            proof {
                // (numer0 / (2*5^27)) == num_t / 10^27
                lemma_div_denominator(xx, pow2(27) as int, 2 * FIVES as int);
                assert(numer0 as int / (2 * FIVES as int) == xx / (2 * p10));
                lemma_div_mod_scale(num_t, p10, 2);
                lemma_mul_is_commutative(num_t, 2);
                lemma_mul_is_commutative(p10, 2);
            }
            Some(div)
        },
        Round::Nearest => {
            assert(numer0 + FIVES <= u128::MAX) by {
                assert(numer0 as int <= big as int);
                assert((big as int) < pow(10, 27) * (pow2(38) as int));
            }
            let numer = numer0 + FIVES;
            let pnb = pow2_u128(nbits);
            let ghost div_g = (xx + p10) / (2 * p10);
            let ghost tie_g = (xx + p10) % (2 * p10) == 0;
            proof {
                // numer / (2*5^27) is the half-offset division by 2*10^27
                lemma_div_denominator(xx + p10, pow2(27) as int, 2 * FIVES as int);
                assert(numer as int / (2 * FIVES as int) == div_g);
                // exactness of the whole division needs the dropped low bits
                // to be zero as well
                lemma_mod_breakdown(xx + p10, pow2(27) as int, 2 * FIVES as int);
                assert(tie_g <==> (numer as int % (2 * FIVES as int) == 0 && (xx + p10) % (pow2(
                    27,
                ) as int) == 0));
                assert((xx + p10) % (pow2(27) as int) == xx % (pow2(27) as int)) by {
                    assert(p10 == (pow2(27) as int) * (FIVES as int));
                    vstd::arithmetic::div_mod::lemma_mod_multiples_vanish(
                        FIVES as int,
                        xx,
                        pow2(27) as int,
                    );
                    lemma_mul_is_commutative(pow2(27) as int, FIVES as int);
                }
                lemma_rhe_from_half_offset(num_t, p10);
            }
            if numer / pnb >= 2 * FIVES {
                proof {
                    // the nearest value needs more than nbits bits, except at
                    // the lone even tie into zero bits
                    assert(numer as int >= (2 * FIVES as int) * (pnb as int)) by {
                        lemma_fundamental_div_mod(numer as int, pnb as int);
                        lemma_mul_inequality(
                            2 * FIVES as int,
                            numer as int / pnb as int,
                            pnb as int,
                        );
                        lemma_mul_is_commutative(numer as int / pnb as int, pnb as int);
                        lemma_mul_is_commutative(2 * FIVES as int, pnb as int);
                    }
                    assert(div_g >= pow2(nbits as nat)) by {
                        vstd::arithmetic::div_mod::lemma_div_is_ordered(
                            (2 * (FIVES as int)) * (pnb as int),
                            numer as int,
                            2 * FIVES as int,
                        );
                        vstd::arithmetic::div_mod::lemma_div_by_multiple(
                            pnb as int,
                            2 * FIVES as int,
                        );
                        lemma_mul_is_commutative(pnb as int, 2 * FIVES as int);
                    }
                }
                if nbits == 0 && val == 500000000000000000000000000 {
                    proof {
                        assert(pow2(0) == 1) by {
                            vstd::arithmetic::power2::lemma2_to64();
                        }
                        lemma_fundamental_div_mod_converse(num_t, p10, 0, num_t);
                    }
                    return Some(0);
                }
                proof {
                    let v = round_half_even(num_t, p10);
                    lemma_pow2_pos(nbits as nat);
                    if tie_g && div_g % 2 == 1 {
                        // an odd raised candidate at 2^nbits would mean an
                        // exact half into zero bits with value 5*10^26
                        if div_g == pow2(nbits as nat) {
                            assert(nbits == 0) by {
                                if nbits >= 1 {
                                    assert(pow2(nbits as nat) % 2 == 0) by {
                                        lemma_pow2_adds((nbits - 1) as nat, 1);
                                        assert(pow2(1) == 2) by {
                                            vstd::arithmetic::power2::lemma2_to64();
                                        }
                                        lemma_mul_is_commutative(
                                            pow2((nbits - 1) as nat) as int,
                                            2,
                                        );
                                        vstd::arithmetic::div_mod::lemma_mod_multiples_basic(
                                            pow2((nbits - 1) as nat) as int,
                                            2,
                                        );
                                    }
                                }
                            }
                            assert(xx + p10 == 2 * p10) by {
                                lemma_fundamental_div_mod(xx + p10, 2 * p10);
                            }
                            assert(val == 500000000000000000000000000) by {
                                assert(pow2(0) == 1) by {
                                    vstd::arithmetic::power2::lemma2_to64();
                                }
                            }
                            assert(false);
                        }
                        assert(v >= pow2(nbits as nat));
                    } else {
                        assert(v == div_g);
                    }
                }
                return None;
            }
            let div = numer / (2 * FIVES);
            let tie = numer % (2 * FIVES) == 0 && exact;
            proof {
                // within range: div < 2^nbits
                assert(div_g < pow2(nbits as nat)) by {
                    lemma_fundamental_div_mod(numer as int, pnb as int);
                    vstd::arithmetic::div_mod::lemma_mod_bound(numer as int, pnb as int);
                    assert((numer as int) < (2 * (FIVES as int)) * (pnb as int)) by {
                        assert(numer as int / pnb as int <= 2 * FIVES as int - 1);
                        lemma_mul_inequality(
                            numer as int / pnb as int,
                            2 * FIVES as int - 1,
                            pnb as int,
                        );
                        lemma_mul_is_commutative(numer as int / pnb as int, pnb as int);
                        lemma_mul_is_commutative(2 * FIVES as int - 1, pnb as int);
                        vstd::arithmetic::mul::lemma_mul_is_distributive_sub_other_way(
                            pnb as int,
                            2 * FIVES as int,
                            1,
                        );
                    }
                    vstd::arithmetic::div_mod::lemma_multiply_divide_lt(
                        numer as int,
                        2 * FIVES as int,
                        pnb as int,
                    );
                    lemma_div_denominator(numer as int, 2 * FIVES as int, pnb as int);
                    vstd::arithmetic::div_mod::lemma_basic_div(div_g, pnb as int);
                }
            }
            if tie && div % 2 == 1 {
                Some(div - 1)
            } else {
                Some(div)
            }
        },
    }
}

/// One step of generating the decimal expansion of a `width`-bit binary
/// fraction: returns the next decimal digit and the remaining fraction.
fn mul10_assign(b: u128, width: u32) -> (r: (u128, u8))
    requires
        8 <= width <= 128,
        (b as nat) < pow2(width as nat),
    ensures
        (r.0 as nat) < pow2(width as nat),
        r.1 < 10,
        10 * (b as int) == (r.1 as int) * (pow2(width as nat) as int) + (r.0 as int),
{
    proof {
        lemma_pow2_pos(width as nat);
        vstd::arithmetic::power2::lemma2_to64_rest();
        if width < 128 {
            lemma_pow2_fits_u128(width as nat);
        } else {
            lemma_pow2_128();
        }
        if width < 64 {
            vstd::arithmetic::power2::lemma_pow2_strictly_increases(width as nat, 64);
        }
    }
    if width <= 64 {
        let p = pow2_u128(width);
        let t = b * 10;
        let q = t / p;
        let nb = t % p;
        proof {
            lemma_fundamental_div_mod(t as int, p as int);
            vstd::arithmetic::div_mod::lemma_mod_bound(t as int, p as int);
            assert((t as int) < 10 * (p as int));
            vstd::arithmetic::div_mod::lemma_multiply_divide_lt(t as int, p as int, 10);
            lemma_mul_is_commutative(p as int, t as int / p as int);
        }
        let digit = q as u8;
        (nb, digit)
    } else {
        let p64 = pow2_u128(64);
        let bl = b % p64;
        let bh = b / p64;
        let lo = bl * 10;
        proof {
            vstd::arithmetic::div_mod::lemma_mod_bound(b as int, p64 as int);
            assert((bh as nat) < pow2((width - 64) as nat)) by {
                lemma_pow2_adds((width - 64) as nat, 64);
                vstd::arithmetic::div_mod::lemma_multiply_divide_lt(
                    b as int,
                    p64 as int,
                    pow2((width - 64) as nat) as int,
                );
                lemma_mul_is_commutative(pow2((width - 64) as nat) as int, p64 as int);
            }
            lemma_pow2_fits_u128((width - 64) as nat);
        }
        proof {
            if width - 64 < 64 {
                vstd::arithmetic::power2::lemma_pow2_strictly_increases((width - 64) as nat, 64);
            }
        }
        let hi = bh * 10 + lo / p64;
        let pw_hi = pow2_u128(width - 64);
        let q = hi / pw_hi;
        proof {
            let phi = pw_hi as int;
            let pw = pow2(width as nat) as int;
            lemma_pow2_adds((width - 64) as nat, 64);
            lemma_fundamental_div_mod(hi as int, phi);
            vstd::arithmetic::div_mod::lemma_mod_bound(hi as int, phi);
            assert((hi as int) < 10 * phi) by (nonlinear_arith)
                requires
                    hi as int == (bh as int) * 10 + (lo as int) / (p64 as int),
                    (bh as int) < phi,
                    0 <= (lo as int) / (p64 as int) < 10,
                    phi >= 1,
            ;
            assert((lo as int) / (p64 as int) < 10) by {
                assert((lo as int) < 10 * (p64 as int)) by {
                    vstd::arithmetic::div_mod::lemma_mod_bound(b as int, p64 as int);
                }
                vstd::arithmetic::div_mod::lemma_multiply_divide_lt(
                    lo as int,
                    p64 as int,
                    10,
                );
            }
            vstd::arithmetic::div_mod::lemma_multiply_divide_lt(hi as int, phi, 10);
        }
        let digit = q as u8;
        let nb = (hi % pw_hi) * p64 + lo % p64;
        proof {
            let p64i = p64 as int;
            let phi = pw_hi as int;
            let pw = pow2(width as nat) as int;
            lemma_pow2_adds((width - 64) as nat, 64);
            assert(pw == phi * p64i);
            // 10*b splits along the 64-bit boundary
            lemma_fundamental_div_mod(b as int, p64i);
            lemma_fundamental_div_mod(lo as int, p64i);
            vstd::arithmetic::div_mod::lemma_mod_bound(lo as int, p64i);
            assert(10 * (b as int) == (hi as int) * p64i + (lo as int) % p64i)
                by (nonlinear_arith)
                requires
                    b as int == p64i * (bh as int) + (bl as int),
                    lo as int == 10 * (bl as int),
                    lo as int == p64i * ((lo as int) / p64i) + (lo as int) % p64i,
                    hi as int == (bh as int) * 10 + (lo as int) / p64i,
            ;
            // and hi splits along the top width-64 bits
            lemma_fundamental_div_mod(hi as int, phi);
            vstd::arithmetic::div_mod::lemma_mod_bound(hi as int, phi);
            assert(10 * (b as int) == (digit as int) * pw + (nb as int)) by (nonlinear_arith)
                requires
                    10 * (b as int) == (hi as int) * p64i + (lo as int) % p64i,
                    hi as int == phi * ((hi as int) / phi) + (hi as int) % phi,
                    digit as int == (hi as int) / phi,
                    nb as int == ((hi as int) % phi) * p64i + (lo as int) % p64i,
                    pw == phi * p64i,
            ;
            assert((nb as int) < pw) by (nonlinear_arith)
                requires
                    nb as int == ((hi as int) % phi) * p64i + (lo as int) % p64i,
                    (hi as int) % phi <= phi - 1,
                    (lo as int) % p64i < p64i,
                    p64i >= 1,
                    pw == phi * p64i,
            ;
        }
        (nb, digit)
    }
}

/// Step the rounded value up by one, unless it then needs more than
/// `nbits` bits.
fn incr_within(floor: u128, nbits: u32) -> (r: Option<u128>)
    requires
        nbits <= 128,
        (floor as nat) < pow2(nbits as nat),
    ensures
        (floor as nat) + 1 < pow2(nbits as nat) ==> r == Some((floor + 1) as u128),
        (floor as nat) + 1 >= pow2(nbits as nat) ==> r.is_none(),
{
    if nbits == 128 {
        proof {
            lemma_pow2_128();
        }
        if floor == u128::MAX {
            return None;
        }
        return Some(floor + 1);
    }
    let lim = pow2_u128(nbits);
    if floor + 1 == lim {
        return None;
    }
    Some(floor + 1)
}

/// Pack the leading group of decimal fraction digits into one integer,
/// reporting whether the whole run fit; a short run is padded with zeros to
/// the full group scale.
pub fn parse_is_short(bytes: &[u8]) -> (r: (u128, bool))
    requires
        all_digits(bytes@, 10),
    ensures
        r.1 == (bytes@.len() <= DEC_DIGITS),
        (r.0 as nat) < pow(10, DEC_DIGITS as nat),
        r.1 ==> (r.0 as nat) == digits_val(bytes@, 10) * pow(
            10,
            (DEC_DIGITS - bytes@.len()) as nat,
        ),
        !r.1 ==> (r.0 as nat) == digits_val(bytes@.take(DEC_DIGITS as int), 10),
{
    proof {
        lemma_pow10_values();
        lemma_pow2_128();
    }
    if bytes.len() <= 27 {
        proof {
            lemma_digits_val_bound(bytes@, 10);
            crate::nums::lemma_pow_increases_10(bytes@.len(), 27);
            vstd::arithmetic::power2::lemma2_to64();
        }
        let v = match crate::radix::dec_str_int_to_bin(bytes, 128) {
            Some(v) => v,
            None => {
                proof {
                    assert(false);
                }
                0
            },
        };
        let pad = pow10_u128(27 - (bytes.len() as u32));
        proof {
            lemma_pow_adds(10, bytes@.len(), (27 - bytes@.len()) as nat);
            assert((v as int) * (pad as int) < pow(10, 27)) by {
                crate::arith::lemma_mul_lt(v as int, pow(10, bytes@.len()), pad as int);
                lemma_pow_positive(10, (27 - bytes@.len()) as nat);
            }
        }
        (v * pad, true)
    } else {
        let head = vstd::slice::slice_subrange(bytes, 0, 27);
        proof {
            assert(head@ =~= bytes@.take(27));
            lemma_digits_val_bound(head@, 10);
            crate::nums::lemma_pow_increases_10(27, 27);
        }
        let v = match crate::radix::dec_str_int_to_bin(head, 128) {
            Some(v) => v,
            None => {
                proof {
                    assert(false);
                }
                0
            },
        };
        (v, false)
    }
}

/// A floor computed from the leading digit group of a long run sits within
/// half a unit of the exact scaled value, so the comparison against the
/// half-way point decides the rounded value.
#[verifier::rlimit(60)]
proof fn lemma_stage2_value(s: Seq<u8>, nbits: u32, dd: int, f: int)
    requires
        all_digits(s, 10),
        0 < dd < s.len(),
        nbits <= 128,
        pow2((nbits + 1) as nat) <= pow(10, dd as nat),
        f == (digits_val(s.take(dd), 10) as int) * (pow2(nbits as nat) as int) / pow(
            10,
            dd as nat,
        ),
    ensures
        0 <= f < pow2(nbits as nat),
        ({
            let v = round_half_even(
                digits_val(s, 10) as int * pow2(nbits as nat) as int,
                pow(10, s.len()),
            );
            let dglob = 2 * (digits_val(s, 10) as int * pow2(nbits as nat) as int) - (2 * f + 1)
                * pow(10, s.len());
            &&& (dglob > 0 ==> v == f + 1)
            &&& (dglob == 0 ==> v == if f % 2 == 0 {
                f
            } else {
                f + 1
            })
            &&& (dglob < 0 ==> v == f)
        }),
{
    let n = s.len() as int;
    let nd = digits_val(s.take(dd), 10) as int;
    let rest = digits_val(s.skip(dd), 10) as int;
    let nv = digits_val(s, 10) as int;
    let pnb = pow2(nbits as nat) as int;
    let p10d = pow(10, dd as nat);
    let q10 = pow(10, (n - dd) as nat);
    let den = pow(10, s.len());
    let num = nv * pnb;
    lemma_pow2_pos(nbits as nat);
    lemma_pow_positive(10, dd as nat);
    lemma_pow_positive(10, (n - dd) as nat);
    lemma_pow_positive(10, s.len());
    lemma_pow_adds(10, dd as nat, (n - dd) as nat);
    assert(den == p10d * q10);
    lemma_digits_val_split(s, 10, dd);
    assert(nv == nd * q10 + rest);
    assert(rest < q10) by {
        lemma_digits_val_bound(s.skip(dd), 10);
    }
    assert(nd < p10d) by {
        lemma_digits_val_bound(s.take(dd), 10);
    }
    assert(2 * pnb <= p10d) by {
        lemma_pow2_adds(nbits as nat, 1);
        assert(pow2(1) == 2) by {
            vstd::arithmetic::power2::lemma2_to64();
        }
    }
    lemma_fundamental_div_mod(nd * pnb, p10d);
    vstd::arithmetic::div_mod::lemma_mod_bound(nd * pnb, p10d);
    assert(nd * pnb >= 0) by {
        vstd::arithmetic::mul::lemma_mul_nonnegative(nd, pnb);
    }
    vstd::arithmetic::div_mod::lemma_div_pos_is_pos(nd * pnb, p10d);
    assert(f < pnb) by {
        assert(nd * pnb < p10d * pnb) by {
            crate::arith::lemma_mul_lt(nd, p10d, pnb);
            lemma_mul_is_commutative(nd, pnb);
            lemma_mul_is_commutative(p10d, pnb);
        }
        vstd::arithmetic::div_mod::lemma_multiply_divide_lt(nd * pnb, p10d, pnb);
    }
    // the floor sits no higher than the exact value
    assert(f * den <= num) by (nonlinear_arith)
        requires
            nd * pnb == p10d * f + (nd * pnb) % p10d,
            (nd * pnb) % p10d >= 0,
            den == p10d * q10,
            nv == nd * q10 + rest,
            num == nv * pnb,
            rest >= 0,
            q10 >= 1,
            pnb >= 1,
            f >= 0,
    ;
    // and within half a unit below it
    assert(2 * num < (2 * f + 3) * den) by (nonlinear_arith)
        requires
            nd * pnb == p10d * f + (nd * pnb) % p10d,
            (nd * pnb) % p10d < p10d,
            den == p10d * q10,
            nv == nd * q10 + rest,
            num == nv * pnb,
            rest < q10,
            rest >= 0,
            q10 >= 1,
            pnb >= 1,
            p10d >= 1,
            2 * pnb <= p10d,
            f >= 0,
            nd >= 0,
    ;
    assert(num >= 0) by {
        vstd::arithmetic::mul::lemma_mul_nonnegative(nv, pnb);
    }
    lemma_rhe_near_floor(num, den, f);
}

/// Settle the rounding of a long decimal run: walk the remaining digits
/// against the decimal expansion of the half-way boundary above `floor`,
/// generated digit by digit, and round up only strictly above it, or at an
/// exact tie with an odd floor.
#[verifier::rlimit(100)]
fn dec_frac_stage2(
    bytes: &[u8],
    nbits: u32,
    width: u32,
    floor: u128,
    Ghost(dd): Ghost<int>,
) -> (r: Option<u128>)
    requires
        8 <= width <= 128,
        nbits <= width,
        all_digits(bytes@, 10),
        bytes@.len() >= 1,
        bytes@[bytes@.len() - 1] != 0x30u8,
        0 < dd < bytes@.len(),
        pow2((nbits + 1) as nat) <= pow(10, dd as nat),
        floor as int == (digits_val(bytes@.take(dd), 10) as int) * (pow2(nbits as nat) as int)
            / pow(10, dd as nat),
    ensures
        ({
            let v = round_half_even(
                digits_val(bytes@, 10) as int * pow2(nbits as nat) as int,
                pow(10, bytes@.len()),
            );
            &&& (v < pow2(nbits as nat)) ==> r == Some(v as u128)
            &&& (v >= pow2(nbits as nat)) ==> r.is_none()
        }),
{
    let ghost s = bytes@;
    let n = bytes.len();
    let ghost f = floor as int;
    let ghost pnb = pow2(nbits as nat) as int;
    let ghost den = pow(10, s.len());
    let ghost nv = digits_val(s, 10) as int;
    let ghost dglob = 2 * (nv * pnb) - (2 * f + 1) * den;
    let ghost p_w1 = pow2((width + 1) as nat) as int;
    let ghost p_gap = pow2((width - nbits) as nat) as int;
    proof {
        lemma_stage2_value(s, nbits, dd, f);
        lemma_pow2_pos((width + 1) as nat);
        lemma_pow2_pos((width - nbits) as nat);
        lemma_pow2_pos(nbits as nat);
        lemma_pow2_pos(width as nat);
        lemma_pow_positive(10, s.len());
        if width < 128 {
            lemma_pow2_fits_u128(width as nat);
        } else {
            lemma_pow2_128();
        }
    }
    let mut add5: bool = false;
    let mut boundary: u128;
    if nbits == 0 {
        boundary = pow2_u128(width - 1);
        proof {
            assert(pow2(0) == 1) by {
                vstd::arithmetic::power2::lemma2_to64();
            }
            assert(f == 0);
            assert(2 * (boundary as int) == (2 * f + 1) * p_gap) by {
                lemma_pow2_adds((width - 1) as nat, 1);
                assert(pow2(1) == 2) by {
                    vstd::arithmetic::power2::lemma2_to64();
                }
                assert(pow2(0) == 1) by {
                    vstd::arithmetic::power2::lemma2_to64();
                }
            }
        }
    } else if nbits == width {
        boundary = floor;
        add5 = true;
        proof {
            assert(pow2((width - nbits) as nat) == 1) by {
                vstd::arithmetic::power2::lemma2_to64();
            }
        }
    } else {
        let pg = pow2_u128(width - nbits);
        let ph = pow2_u128(width - nbits - 1);
        proof {
            lemma_pow2_adds(nbits as nat, (width - nbits) as nat);
            lemma_pow2_adds((width - nbits - 1) as nat, 1);
            assert(pow2(1) == 2) by {
                vstd::arithmetic::power2::lemma2_to64();
            }
            assert((floor as int) * (pg as int) + (ph as int) < pow2(width as nat))
                by (nonlinear_arith)
                requires
                    (floor as int) < pnb,
                    pnb >= 1,
                    pg as int == 2 * (ph as int),
                    ph as int >= 1,
                    pow2(width as nat) == pnb * (pg as int),
            ;
        }
        boundary = floor * pg + ph;
        proof {
            assert(2 * (boundary as int) == (2 * f + 1) * p_gap) by (nonlinear_arith)
                requires
                    boundary as int == f * (pg as int) + (ph as int),
                    pg as int == p_gap,
                    pg as int == 2 * (ph as int),
            ;
        }
    }
    proof {
        assert(p_w1 == p_gap * (2 * pnb)) by {
            lemma_pow2_adds((width - nbits) as nat, (nbits + 1) as nat);
            lemma_pow2_adds(nbits as nat, 1);
            assert(pow2(1) == 2) by {
                vstd::arithmetic::power2::lemma2_to64();
            }
        }
        // the comparison of the run with the boundary, scaled to integers
        assert(nv * p_w1 - (2 * (boundary as int) + (if add5 {
            1int
        } else {
            0int
        })) * den == p_gap * dglob) by (nonlinear_arith)
            requires
                2 * (boundary as int) + (if add5 {
                    1int
                } else {
                    0int
                }) == (2 * f + 1) * p_gap,
                p_w1 == p_gap * (2 * pnb),
                dglob == 2 * (nv * pnb) - (2 * f + 1) * den,
        ;
        assert(s.skip(0) =~= s);
        assert(pow(10, (n - 0) as nat) == den);
    }
    let mut i: usize = 0;
    while i < n
        invariant
            s == bytes@,
            0 <= i <= n,
            n == s.len(),
            8 <= width <= 128,
            nbits <= width,
            all_digits(s, 10),
            s[s.len() - 1] != 0x30u8,
            (boundary as nat) < pow2(width as nat),
            nv == digits_val(s, 10) as int,
            pnb == pow2(nbits as nat) as int,
            den == pow(10, s.len()),
            p_w1 == pow2((width + 1) as nat) as int,
            p_gap == pow2((width - nbits) as nat) as int,
            dglob == 2 * (nv * pnb) - (2 * f + 1) * den,
            f == floor as int,
            0 <= f < pnb,
            ({
                let v = round_half_even(nv * pnb, den);
                &&& (dglob > 0 ==> v == f + 1)
                &&& (dglob == 0 ==> v == if f % 2 == 0 {
                    f
                } else {
                    f + 1
                })
                &&& (dglob < 0 ==> v == f)
            }),
            (digits_val(s.skip(i as int), 10) as int) * p_w1 - (2 * (boundary as int) + (if add5 {
                1int
            } else {
                0int
            })) * pow(10, (n - i) as nat) == p_gap * dglob,
        decreases n - i,
    {
        proof {
            lemma_pow_positive(10, (n - i) as nat);
            lemma_pow_positive(10, (n - i - 1) as nat);
            lemma_pow2_pos((width + 1) as nat);
            lemma_pow2_pos((width - nbits) as nat);
            lemma_pow2_pos(nbits as nat);
            lemma_pow2_pos(width as nat);
        }
        if !add5 && boundary == 0 {
            // the boundary's digits are exhausted; the trimmed run still has
            // a non-zero digit, so it lies strictly above
            proof {
                crate::digits::lemma_digits_val_last_pos(s.skip(i as int), 10);
                assert((digits_val(s.skip(i as int), 10) as int) * p_w1 >= p_w1) by {
                    lemma_mul_inequality(1, digits_val(s.skip(i as int), 10) as int, p_w1);
                    lemma_mul_is_commutative(1, p_w1);
                    lemma_mul_is_commutative(digits_val(s.skip(i as int), 10) as int, p_w1);
                }
                vstd::arithmetic::mul::lemma_mul_by_zero_is_zero(pow(10, (n - i) as nat));
                assert((2 * (boundary as int) + 0int) * pow(10, (n - i) as nat) == 0);
                assert(p_gap * dglob > 0);
                assert(dglob > 0) by {
                    if dglob <= 0 {
                        assert(p_gap * dglob <= 0) by (nonlinear_arith)
                            requires
                                p_gap >= 1,
                                dglob <= 0,
                        ;
                    }
                }
            }
            return incr_within(floor, nbits);
        }
        let (nb0, dg0) = mul10_assign(boundary, width);
        let mut digit: u8 = dg0;
        let mut nb: u128 = nb0;
        if add5 {
            // fold in the pending half unit the first time around
            if width == 128 {
                if nb > u128::MAX - 5 {
                    digit = digit + 1;
                    nb = nb - (u128::MAX - 4);
                    proof {
                        lemma_pow2_128();
                    }
                } else {
                    nb = nb + 5;
                }
            } else {
                let p = pow2_u128(width);
                proof {
                    assert(pow2(8) == 256) by {
                        vstd::arithmetic::power2::lemma2_to64();
                    }
                    if width > 8 {
                        vstd::arithmetic::power2::lemma_pow2_strictly_increases(8, width as nat);
                    }
                }
                if nb >= p - 5 {
                    digit = digit + 1;
                    nb = nb - (p - 5);
                } else {
                    nb = nb + 5;
                }
            }
            proof {
                assert((digit as int) <= 10);
            }
        }
        proof {
            // one decimal digit of the boundary: 10*r == digit*2^(width+1) + r'
            let pw = pow2(width as nat) as int;
            assert(p_w1 == 2 * pw) by {
                lemma_pow2_adds(width as nat, 1);
                assert(pow2(1) == 2) by {
                    vstd::arithmetic::power2::lemma2_to64();
                }
                lemma_mul_is_commutative(pw, 2);
            }
            assert(2 * ((dg0 as int) * pw) == (dg0 as int) * p_w1) by {
                vstd::arithmetic::mul::lemma_mul_is_associative(2, dg0 as int, pw);
                vstd::arithmetic::mul::lemma_mul_is_associative(dg0 as int, 2, pw);
                lemma_mul_is_commutative(2, dg0 as int);
            }
            assert(((dg0 + 1) as int) * p_w1 == (dg0 as int) * p_w1 + p_w1) by {
                vstd::arithmetic::mul::lemma_mul_is_distributive_add_other_way(
                    p_w1,
                    dg0 as int,
                    1,
                );
            }
            assert(10 * (2 * (boundary as int) + (if add5 {
                1int
            } else {
                0int
            })) == (digit as int) * p_w1 + 2 * (nb as int));
            if width == 128 {
                lemma_pow2_128();
            }
            assert((nb as nat) < pow2(width as nat));
        }
        let db = crate::radix::byte_digit(bytes[i], 10);
        proof {
            // peel the next digit of the run off the comparison
            lemma_digits_val_split(s.skip(i as int), 10, 1);
            assert(s.skip(i as int).skip(1) =~= s.skip(i as int + 1));
            assert(s.skip(i as int).take(1).drop_last() =~= Seq::<u8>::empty());
            assert(s.skip(i as int).take(1).last() == s[i as int]);
            assert(digits_val(s.skip(i as int).take(1), 10) == digits_val(
                s.skip(i as int).take(1).drop_last(),
                10,
            ) * 10nat + crate::digits::digit_val(s.skip(i as int).take(1).last()));
            lemma_pow_adds(10, 1, (n - i - 1) as nat);
            vstd::arithmetic::power::lemma_pow1(10);
            let nrest = digits_val(s.skip(i as int), 10) as int;
            let nrest1 = digits_val(s.skip(i as int + 1), 10) as int;
            let dvi = crate::digits::digit_val(s[i as int]) as int;
            let q1 = pow(10, (n - i - 1) as nat);
            let rc = 2 * (boundary as int) + (if add5 {
                1int
            } else {
                0int
            });
            let rc1 = 2 * (nb as int);
            assert(nrest == dvi * q1 + nrest1);
            assert(pow(10, (n - i) as nat) == 10 * q1);
            assert(nrest * p_w1 - rc * (10 * q1) == ((dvi - digit as int) * p_w1) * q1 + (nrest1
                * p_w1 - rc1 * q1)) by (nonlinear_arith)
                requires
                    nrest == dvi * q1 + nrest1,
                    10 * rc == (digit as int) * p_w1 + rc1,
            ;
            assert(nrest1 < q1) by {
                lemma_digits_val_bound(s.skip(i as int + 1), 10);
            }
            assert(0 <= rc1 <= p_w1 - 2) by {
                lemma_pow2_adds(width as nat, 1);
                assert(pow2(1) == 2) by {
                    vstd::arithmetic::power2::lemma2_to64();
                }
            }
            // the residues stay strictly inside one scaled unit
            assert(nrest1 * p_w1 - rc1 * q1 < p_w1 * q1) by (nonlinear_arith)
                requires
                    nrest1 < q1,
                    rc1 >= 0,
                    p_w1 >= 1,
                    q1 >= 1,
            ;
            assert(nrest1 * p_w1 - rc1 * q1 > 0 - p_w1 * q1) by (nonlinear_arith)
                requires
                    nrest1 >= 0,
                    rc1 <= p_w1 - 2,
                    p_w1 >= 1,
                    q1 >= 1,
            ;
            if (db as int) < digit as int {
                assert(nrest * p_w1 - rc * (10 * q1) < 0) by (nonlinear_arith)
                    requires
                        nrest * p_w1 - rc * (10 * q1) == ((dvi - digit as int) * p_w1) * q1 + (
                        nrest1 * p_w1 - rc1 * q1),
                        dvi - digit as int <= 0 - 1,
                        nrest1 * p_w1 - rc1 * q1 < p_w1 * q1,
                        p_w1 >= 1,
                        q1 >= 1,
                        dvi == db as int,
                ;
                assert(p_gap * dglob < 0);
                assert(dglob < 0) by {
                    if dglob >= 0 {
                        vstd::arithmetic::mul::lemma_mul_nonnegative(p_gap, dglob);
                    }
                }
            }
            if (db as int) > digit as int {
                assert(nrest * p_w1 - rc * (10 * q1) > 0) by (nonlinear_arith)
                    requires
                        nrest * p_w1 - rc * (10 * q1) == ((dvi - digit as int) * p_w1) * q1 + (
                        nrest1 * p_w1 - rc1 * q1),
                        dvi - digit as int >= 1,
                        nrest1 * p_w1 - rc1 * q1 > 0 - p_w1 * q1,
                        p_w1 >= 1,
                        q1 >= 1,
                        dvi == db as int,
                ;
                assert(p_gap * dglob > 0);
            }
        }
        if db < digit {
            return Some(floor);
        }
        if db > digit {
            proof {
                assert(dglob > 0) by {
                    if dglob <= 0 {
                        assert(p_gap * dglob <= 0) by (nonlinear_arith)
                            requires
                                p_gap >= 1,
                                dglob <= 0,
                        ;
                    }
                }
            }
            return incr_within(floor, nbits);
        }
        proof {
            // the digits agree, so the comparison carries to the next step
            let q1 = pow(10, (n - i - 1) as nat);
            let dvi = crate::digits::digit_val(s[i as int]) as int;
            assert(dvi == digit as int);
            assert(((dvi - digit as int) * p_w1) * q1 == 0) by {
                vstd::arithmetic::mul::lemma_mul_by_zero_is_zero(p_w1);
                vstd::arithmetic::mul::lemma_mul_by_zero_is_zero(q1);
            }
        }
        boundary = nb;
        add5 = false;
        i = i + 1;
    }
    // every digit of the run matched the boundary's expansion
    proof {
        lemma_pow2_pos((width + 1) as nat);
        lemma_pow2_pos((width - nbits) as nat);
        lemma_pow2_pos(nbits as nat);
        assert(s.skip(n as int) =~= Seq::<u8>::empty());
        assert(pow(10, (n - n) as nat) == 1) by {
            vstd::arithmetic::power::lemma_pow0(10);
        }
        assert(digits_val(s.skip(n as int), 10) == 0);
        vstd::arithmetic::mul::lemma_mul_by_zero_is_zero(p_w1);
        assert((digits_val(s.skip(n as int), 10) as int) * p_w1 == 0);
    }
    if add5 || boundary != 0 {
        // the boundary continues with a non-zero digit: the run is below it
        proof {
            let rc = 2 * (boundary as int) + (if add5 {
                1int
            } else {
                0int
            });
            assert(0 - rc == p_gap * dglob);
            assert(dglob < 0) by {
                if dglob >= 0 {
                    vstd::arithmetic::mul::lemma_mul_nonnegative(p_gap, dglob);
                }
            }
        }
        return Some(floor);
    }
    proof {
        assert(0 == p_gap * dglob);
        assert(dglob == 0) by {
            if dglob > 0 {
                vstd::arithmetic::mul::lemma_mul_strictly_positive(p_gap, dglob);
            }
            if dglob < 0 {
                assert(p_gap * dglob < 0) by (nonlinear_arith)
                    requires
                        p_gap >= 1,
                        dglob < 0,
                ;
            }
        }
    }
    if floor % 2 == 0 {
        return Some(floor);
    }
    incr_within(floor, nbits)
}

/// Decimal fraction digits, rounded to `nbits` bits for a storage width of
/// up to 64 bits: a short run is settled by one scaled rounding of its
/// packed digits; a longer run gets the floor from its leading group and
/// the boundary walk for the rest.
pub fn dec_str_frac_to_bin(bytes: &[u8], nbits: u32, width: u32) -> (r: Option<u128>)
    requires
        8 <= width <= 64,
        nbits <= width,
        bytes@.len() >= 1,
        all_digits(bytes@, 10),
        bytes@[bytes@.len() - 1] != 0x30u8,
    ensures
        ({
            let v = round_half_even(
                digits_val(bytes@, 10) as int * pow2(nbits as nat) as int,
                pow(10, bytes@.len()),
            );
            &&& (v < pow2(nbits as nat)) ==> r == Some(v as u128)
            &&& (v >= pow2(nbits as nat)) ==> r.is_none()
        }),
{
    let ghost s = bytes@;
    let n = bytes.len();
    let ghost nv = digits_val(s, 10) as int;
    let ghost pnb = pow2(nbits as nat) as int;
    proof {
        lemma_pow2_pos(nbits as nat);
        lemma_pow_positive(10, s.len());
        lemma_dec_pack_values();
    }
    let (val, is_short) = parse_is_short(bytes);
    if is_short {
        proof {
            // the padded group stands for the same fraction
            let c = pow(10, (27 - n) as nat);
            lemma_pow_positive(10, (27 - n) as nat);
            lemma_pow_adds(10, s.len(), (27 - n) as nat);
            assert((val as int) * pnb == (nv * pnb) * c) by (nonlinear_arith)
                requires
                    val as int == nv * c,
            ;
            crate::arith::lemma_rhe_scale(nv * pnb, pow(10, s.len()), c);
            assert(pow(10, 27) == pow(10, s.len()) * c);
            vstd::arithmetic::mul::lemma_mul_nonnegative(nv, pnb);
        }
        return dec_to_bin(val, nbits, Round::Nearest);
    }
    proof {
        vstd::arithmetic::mul::lemma_mul_nonnegative(val as int, pnb);
        assert((val as int) * pnb < pow(10, 27) * pnb) by {
            crate::arith::lemma_mul_lt(val as int, pow(10, 27), pnb);
        }
        vstd::arithmetic::div_mod::lemma_multiply_divide_lt(
            (val as int) * pnb,
            pow(10, 27),
            pnb,
        );
        vstd::arithmetic::div_mod::lemma_div_pos_is_pos((val as int) * pnb, pow(10, 27));
    }
    let fl = match dec_to_bin(val, nbits, Round::Floor) {
        Some(f) => f,
        None => {
            proof {
                assert(false);
            }
            0
        },
    };
    proof {
        assert(pow2((nbits + 1) as nat) <= pow(10, 27)) by {
            vstd::arithmetic::power2::lemma2_to64_rest();
            lemma_pow2_adds(64, 1);
            assert(pow2(1) == 2) by {
                vstd::arithmetic::power2::lemma2_to64();
            }
            if nbits + 1 < 65 {
                vstd::arithmetic::power2::lemma_pow2_strictly_increases((nbits + 1) as nat, 65);
            }
            lemma_pow10_values();
        }
        assert(fl as int == (digits_val(s.take(27), 10) as int) * pnb / pow(10, 27)) by {
            vstd::arithmetic::power2::lemma2_to64_rest();
            if nbits < 64 {
                vstd::arithmetic::power2::lemma_pow2_strictly_increases(nbits as nat, 64);
            }
            assert(0 <= (val as int) * pnb / pow(10, 27) < 0x10000000000000000);
        }
    }
    dec_frac_stage2(bytes, nbits, width, fl, Ghost(27int))
}

/// `5^54`.
pub const FIVES_128: u128 = 55511151231257827021181583404541015625;

/// Decode two packed groups of `DEC_DIGITS` decimal fraction digits —
/// together the leading 54 digits — into `nbits` fraction bits for the
/// 128-bit width. `10^54` and the scaled products exceed one word, so the
/// shift and the division run over two-word pairs.
#[verifier::rlimit(100)]
pub fn dec_to_bin_128(hi: u128, lo: u128, nbits: u32, round: Round) -> (r: Option<u128>)
    requires
        (hi as nat) < pow(10, DEC_DIGITS as nat),
        (lo as nat) < pow(10, DEC_DIGITS as nat),
        nbits <= 128,
    ensures
        ({
            let val = (hi as int) * pow(10, DEC_DIGITS as nat) + lo;
            let v = round_half_even(val * pow2(nbits as nat) as int, pow(10, 54));
            match round {
                Round::Nearest => (v < pow2(nbits as nat) ==> r == Some(v as u128)) && (v >= pow2(
                    nbits as nat,
                ) ==> r.is_none()),
                Round::Floor => r == Some(((val * pow2(nbits as nat) as int / pow(10, 54)) as u128)),
            }
        }),
{
    let ghost val = (hi as int) * pow(10, DEC_DIGITS as nat) + lo;
    let ghost p10 = pow(10, 54);
    let ghost pp54 = pow2(54) as int;
    let ghost num_t = val * pow2(nbits as nat) as int;
    let ghost xx = 2 * num_t;
    let ghost pp128 = pow2(128) as int;
    proof {
        lemma_dec_pack_values();
        lemma_pow10_values();
        lemma_pow2_128();
        lemma_pow2_pos(nbits as nat);
        lemma_pow2_pos(54);
        vstd::arithmetic::mul::lemma_mul_nonnegative(hi as int, pow(10, 27));
        assert(val < p10) by (nonlinear_arith)
            requires
                val == (hi as int) * pow(10, 27) + lo,
                (hi as int) < pow(10, 27),
                (lo as int) < pow(10, 27),
                p10 == pow(10, 27) * pow(10, 27),
        ;
        assert(p10 == pow(10, 27) * pow(10, 27)) by {
            lemma_pow_adds(10, 27, 27);
        }
        vstd::arithmetic::mul::lemma_mul_nonnegative(val, pow2(nbits as nat) as int);
        assert(xx == val * pow2((nbits + 1) as nat)) by {
            lemma_pow2_adds(nbits as nat, 1);
            assert(pow2(1) == 2) by {
                vstd::arithmetic::power2::lemma2_to64();
            }
            vstd::arithmetic::mul::lemma_mul_is_associative(val, pow2(nbits as nat) as int, 2);
        }
        assert((FIVES_128 as int) * pp54 == p10);
        assert(pp54 * (2 * FIVES_128 as int) == 2 * p10) by {
            lemma_mul_is_commutative(pp54, 2 * FIVES_128 as int);
        }
    }
    proof {
        assert(p10 <= pow2(180) as int) by {
            vstd::arithmetic::power2::lemma2_to64_rest();
            lemma_pow2_adds(64, 64);
            lemma_pow2_adds(128, 52);
            assert(pow2(52) == 0x10000000000000) by {
                vstd::arithmetic::power2::lemma2_to64_rest();
            }
        }
        assert(pow2(180) < pow2(256)) by {
            vstd::arithmetic::power2::lemma_pow2_strictly_increases(180, 256);
        }
        assert(pp128 * pp128 == pow2(256) as int) by {
            lemma_pow2_adds(128, 128);
        }
    }
    let (chi, clo) = crate::wide::mul_hi_lo(hi, GROUP_SCALE);
    proof {
        assert(crate::wide::wide_val(chi, clo) + lo < pp128 * pp128);
    }
    let (vhi, vlo) = crate::wide::wide_add_small(chi, clo, lo);
    let (nhi, nlo, exact) = if nbits >= 53 {
        proof {
            // the pair still fits after the left shift
            lemma_pow2_adds((nbits - 53) as nat, (181 - nbits) as nat);
            assert(pow2(128) as int * pow2(128) as int == pow2(256) as int) by {
                lemma_pow2_adds(128, 128);
            }
            assert(pow(10, 54) <= pow2(180) as int) by {
                vstd::arithmetic::power2::lemma2_to64_rest();
                lemma_pow2_adds(64, 64);
                lemma_pow2_adds(128, 52);
                assert(pow2(52) == 0x10000000000000) by {
                    vstd::arithmetic::power2::lemma2_to64_rest();
                }
            }
            assert(pow2(180) as int * pow2((nbits - 53) as nat) as int <= pow2(256) as int) by {
                lemma_pow2_adds(180, (nbits - 53) as nat);
                if 180 + (nbits - 53) < 256 {
                    vstd::arithmetic::power2::lemma_pow2_strictly_increases(
                        (180 + nbits - 53) as nat,
                        256,
                    );
                }
            }
            lemma_pow2_pos((nbits - 53) as nat);
            assert(crate::wide::wide_val(vhi, vlo) * pow2((nbits - 53) as nat) < pow2(
                256,
            ) as int) by (nonlinear_arith)
                requires
                    crate::wide::wide_val(vhi, vlo) == val,
                    0 <= val < p10,
                    p10 <= pow2(180) as int,
                    pow2(180) as int * pow2((nbits - 53) as nat) as int <= pow2(256) as int,
                    pow2((nbits - 53) as nat) as int >= 1,
            ;
        }
        let (a, b) = crate::wide::wide_shl(vhi, vlo, nbits - 53);
        proof {
            // a left shift is exact: X is numer0 * 2^54
            let sh = pow2((nbits - 53) as nat) as int;
            assert(xx == (val * sh) * pp54) by {
                lemma_pow2_adds((nbits - 53) as nat, 54);
                vstd::arithmetic::mul::lemma_mul_is_associative(val, sh, pp54);
            }
            vstd::arithmetic::mul::lemma_mul_nonnegative(val, sh);
            vstd::arithmetic::div_mod::lemma_div_by_multiple(val * sh, pp54);
            vstd::arithmetic::div_mod::lemma_mod_multiples_basic(val * sh, pp54);
            lemma_mul_is_commutative(val * sh, pp54);
        }
        (a, b, true)
    } else {
        let rr = crate::wide::wide_shr(vhi, vlo, 53 - nbits);
        proof {
            // a right shift floors; the dropped bits decide exactness
            let m = pow2((53 - nbits) as nat) as int;
            let c = pow2((nbits + 1) as nat) as int;
            lemma_pow2_pos((53 - nbits) as nat);
            lemma_pow2_pos((nbits + 1) as nat);
            assert(m * c == pp54) by {
                lemma_pow2_adds((53 - nbits) as nat, (nbits + 1) as nat);
            }
            lemma_div_mod_scale(val, m, c);
            assert(xx / pp54 == val / m) by {
                assert(xx == val * c);
            }
            assert(xx % pp54 == (val % m) * c);
            vstd::arithmetic::div_mod::lemma_mod_bound(val, m);
            crate::arith::lemma_mul_zero_factor(val % m, c);
        }
        rr
    };
    proof {
        assert(crate::wide::wide_val(nhi, nlo) == xx / pp54);
        assert(exact <==> xx % pp54 == 0);
        // the numerator, with the half offset folded in, against 2*5^54
        assert((xx + FIVES_128 as int * pp54) / pp54 == xx / pp54 + FIVES_128 as int) by {
            lemma_hoist_over_denominator(xx, FIVES_128 as int, pp54 as nat);
        }
        // numer0 stays under (2*5^54) * 2^128
        assert(xx / pp54 < (2 * FIVES_128 as int) * pp128) by {
            assert(pow2(nbits as nat) <= pow2(128)) by {
                if nbits < 128 {
                    vstd::arithmetic::power2::lemma_pow2_strictly_increases(nbits as nat, 128);
                }
            }
            assert(pp54 * ((2 * FIVES_128 as int) * pp128) == 2 * ((FIVES_128 as int) * pp54)
                * pp128) by (nonlinear_arith);
            assert(xx < pp54 * ((2 * FIVES_128 as int) * pp128)) by (nonlinear_arith)
                requires
                    xx == 2 * num_t,
                    num_t == val * pow2(nbits as nat) as int,
                    0 <= val < p10,
                    pow2(nbits as nat) as int <= pp128,
                    p10 == (FIVES_128 as int) * pp54,
                    pp54 >= 1,
                    pp128 >= 1,
                    FIVES_128 as int >= 1,
                    pp54 * ((2 * FIVES_128 as int) * pp128) == 2 * ((FIVES_128 as int) * pp54)
                        * pp128,
            ;
            vstd::arithmetic::div_mod::lemma_multiply_divide_lt(
                xx,
                pp54,
                (2 * FIVES_128 as int) * pp128,
            );
        }
        assert(xx >= 0);
        vstd::arithmetic::div_mod::lemma_div_pos_is_pos(xx, pp54);
    }
    match round {
        Round::Floor => {
            proof {
                lemma_wide_hi_below(nhi, nlo, 2 * FIVES_128);
            }
            let (q, rem) = crate::wide::div_rem_wide(nhi, nlo, 2 * FIVES_128);
            proof {
                lemma_div_denominator(xx, pp54, 2 * FIVES_128 as int);
                assert(q as int == xx / (2 * p10));
                lemma_div_mod_scale(num_t, p10, 2);
                lemma_mul_is_commutative(num_t, 2);
                lemma_mul_is_commutative(p10, 2);
            }
            Some(q)
        },
        Round::Nearest => {
            proof {
                assert(crate::wide::wide_val(nhi, nlo) + FIVES_128 < pp128 * pp128) by {
                    assert((2 * FIVES_128 as int) * pp128 + FIVES_128 < pp128 * pp128)
                        by (nonlinear_arith)
                        requires
                            pp128 == 0x100000000000000000000000000000000,
                            FIVES_128 == 55511151231257827021181583404541015625u128,
                    ;
                }
            }
            let (mhi, mlo) = crate::wide::wide_add_small(nhi, nlo, FIVES_128);
            let ghost numer = xx / pp54 + FIVES_128 as int;
            let ghost div_g = (xx + p10) / (2 * p10);
            let ghost tie_g = (xx + p10) % (2 * p10) == 0;
            proof {
                assert(crate::wide::wide_val(mhi, mlo) == numer);
                lemma_div_denominator(xx + p10, pp54, 2 * FIVES_128 as int);
                assert(numer / (2 * FIVES_128 as int) == div_g);
                lemma_mod_breakdown(xx + p10, pp54, 2 * FIVES_128 as int);
                assert((xx + p10) % pp54 == xx % pp54) by {
                    vstd::arithmetic::div_mod::lemma_mod_multiples_vanish(
                        FIVES_128 as int,
                        xx,
                        pp54,
                    );
                    lemma_mul_is_commutative(pp54, FIVES_128 as int);
                }
                assert(tie_g <==> (numer % (2 * FIVES_128 as int) == 0 && exact));
                lemma_rhe_from_half_offset(num_t, p10);
            }
            let over = if nbits == 128 {
                proof {
                    assert(pow2(0) == 1) by {
                        vstd::arithmetic::power2::lemma2_to64();
                    }
                    assert(numer / (pow2(128) as int) == mhi as int && numer % (pow2(
                        128,
                    ) as int) == mlo as int) by {
                        lemma_fundamental_div_mod_converse(
                            numer,
                            pow2(128) as int,
                            mhi as int,
                            mlo as int,
                        );
                        vstd::arithmetic::mul::lemma_mul_nonnegative(mhi as int, pp128);
                    }
                }
                mhi >= 2 * FIVES_128
            } else {
                let (shi, slo, _) = crate::wide::wide_shr(mhi, mlo, nbits);
                proof {
                    if shi != 0 {
                        assert(crate::wide::wide_val(shi, slo) >= pp128) by {
                            lemma_mul_inequality(1, shi as int, pp128);
                            lemma_mul_is_commutative(1, pp128);
                            lemma_mul_is_commutative(shi as int, pp128);
                        }
                    }
                    vstd::arithmetic::mul::lemma_mul_nonnegative(shi as int, pp128);
                }
                let over0 = shi != 0 || slo >= 2 * FIVES_128;
                over0
            };
            proof {
                // over holds exactly of a nearest value past nbits bits
                assert(over <==> numer / (pow2(nbits as nat) as int) >= 2 * FIVES_128 as int);
                let pnbi = pow2(nbits as nat) as int;
                if over {
                    assert(numer >= (2 * FIVES_128 as int) * pnbi) by {
                        lemma_fundamental_div_mod(numer, pnbi);
                        lemma_mul_inequality(2 * FIVES_128 as int, numer / pnbi, pnbi);
                        lemma_mul_is_commutative(numer / pnbi, pnbi);
                        lemma_mul_is_commutative(2 * FIVES_128 as int, pnbi);
                    }
                    assert(div_g >= pnbi) by {
                        vstd::arithmetic::div_mod::lemma_div_is_ordered(
                            (2 * (FIVES_128 as int)) * pnbi,
                            numer,
                            2 * FIVES_128 as int,
                        );
                        vstd::arithmetic::div_mod::lemma_div_by_multiple(
                            pnbi,
                            2 * FIVES_128 as int,
                        );
                        lemma_mul_is_commutative(pnbi, 2 * FIVES_128 as int);
                    }
                } else {
                    assert(div_g < pnbi) by {
                        lemma_fundamental_div_mod(numer, pnbi);
                        vstd::arithmetic::div_mod::lemma_mod_bound(numer, pnbi);
                        assert(numer < (2 * (FIVES_128 as int)) * pnbi) by {
                            assert(numer / pnbi <= 2 * FIVES_128 as int - 1);
                            lemma_mul_inequality(numer / pnbi, 2 * FIVES_128 as int - 1, pnbi);
                            lemma_mul_is_commutative(numer / pnbi, pnbi);
                            lemma_mul_is_commutative(2 * FIVES_128 as int - 1, pnbi);
                            vstd::arithmetic::mul::lemma_mul_is_distributive_sub_other_way(
                                pnbi,
                                2 * FIVES_128 as int,
                                1,
                            );
                        }
                        vstd::arithmetic::div_mod::lemma_multiply_divide_lt(
                            numer,
                            2 * FIVES_128 as int,
                            pnbi,
                        );
                        lemma_div_denominator(numer, 2 * FIVES_128 as int, pnbi);
                        vstd::arithmetic::div_mod::lemma_basic_div(div_g, pnbi);
                    }
                }
            }
            if over {
                if nbits == 0 && hi == 500000000000000000000000000 && lo == 0 {
                    proof {
                        assert(pow2(0) == 1) by {
                            vstd::arithmetic::power2::lemma2_to64();
                        }
                        assert(val == 500000000000000000000000000000000000000000000000000000int);
                        vstd::arithmetic::mul::lemma_mul_by_zero_is_zero(p10);
                        lemma_fundamental_div_mod_converse(num_t, p10, 0, num_t);
                    }
                    return Some(0);
                }
                proof {
                    let v = round_half_even(num_t, p10);
                    let pnbi = pow2(nbits as nat) as int;
                    if tie_g && div_g % 2 == 1 {
                        if div_g == pnbi {
                            assert(nbits == 0) by {
                                if nbits >= 1 {
                                    assert(pnbi % 2 == 0) by {
                                        lemma_pow2_adds((nbits - 1) as nat, 1);
                                        assert(pow2(1) == 2) by {
                                            vstd::arithmetic::power2::lemma2_to64();
                                        }
                                        lemma_mul_is_commutative(pow2((nbits - 1) as nat) as int, 2);
                                        vstd::arithmetic::div_mod::lemma_mod_multiples_basic(
                                            pow2((nbits - 1) as nat) as int,
                                            2,
                                        );
                                    }
                                }
                            }
                            assert(pow2(0) == 1) by {
                                vstd::arithmetic::power2::lemma2_to64();
                            }
                            assert(xx + p10 == 2 * p10) by {
                                lemma_fundamental_div_mod(xx + p10, 2 * p10);
                            }
                            assert(num_t == val) by {
                                assert(num_t == val * 1);
                            }
                            assert(val == 500000000000000000000000000000000000000000000000000000int);
                            // the two digit groups of that value are forced
                            assert(hi == 500000000000000000000000000 && lo == 0) by {
                                lemma_fundamental_div_mod_converse(
                                    val,
                                    pow(10, 27),
                                    500000000000000000000000000int,
                                    0,
                                );
                                lemma_fundamental_div_mod_converse(
                                    val,
                                    pow(10, 27),
                                    hi as int,
                                    lo as int,
                                );
                            }
                            assert(false);
                        }
                        assert(v >= pnbi);
                    } else {
                        assert(v == div_g);
                    }
                }
                return None;
            }
            proof {
                assert(pow2(nbits as nat) <= pow2(128)) by {
                    if nbits < 128 {
                        vstd::arithmetic::power2::lemma_pow2_strictly_increases(nbits as nat, 128);
                    }
                }
                lemma_wide_hi_below_b(mhi, mlo, 2 * FIVES_128, pow2(nbits as nat) as int);
            }
            let (q, rem) = crate::wide::div_rem_wide(mhi, mlo, 2 * FIVES_128);
            let tie = rem == 0 && exact;
            if tie && q % 2 == 1 {
                Some(q - 1)
            } else {
                Some(q)
            }
        },
    }
}

/// A pair below `d * 2^128` has its top word below `d`.
proof fn lemma_wide_hi_below(hi: u128, lo: u128, d: int)
    requires
        d >= 1,
        crate::wide::wide_val(hi, lo) < d * (pow2(128) as int),
    ensures
        (hi as int) < d,
{
    lemma_pow2_128();
    if hi as int >= d {
        assert((hi as int) * (pow2(128) as int) >= d * (pow2(128) as int)) by {
            lemma_mul_inequality(d, hi as int, pow2(128) as int);
        }
    }
}

/// A pair below `d * b` with `b <= 2^128` has its top word below `d`.
proof fn lemma_wide_hi_below_b(hi: u128, lo: u128, d: int, b: int)
    requires
        d >= 1,
        1 <= b <= pow2(128) as int,
        crate::wide::wide_val(hi, lo) < d * b,
    ensures
        (hi as int) < d,
{
    lemma_pow2_128();
    assert(d * b <= d * (pow2(128) as int)) by {
        vstd::arithmetic::mul::lemma_mul_left_inequality(d, b, pow2(128) as int);
    }
    lemma_wide_hi_below(hi, lo, d);
}

/// Pack the leading 54 decimal fraction digits into two group words for the
/// 128-bit width, reporting whether the whole run fit; short runs are padded
/// with zeros.
pub fn parse_is_short_128(bytes: &[u8]) -> (r: ((u128, u128), bool))
    requires
        all_digits(bytes@, 10),
    ensures
        r.1 == (bytes@.len() <= 54),
        (r.0.0 as nat) < pow(10, DEC_DIGITS as nat),
        (r.0.1 as nat) < pow(10, DEC_DIGITS as nat),
        ({
            let packed = (r.0.0 as int) * pow(10, DEC_DIGITS as nat) + r.0.1;
            if r.1 {
                packed == (digits_val(bytes@, 10) as int) * pow(10, (54 - bytes@.len()) as nat)
            } else {
                packed == digits_val(bytes@.take(54), 10) as int
            }
        }),
{
    proof {
        lemma_pow10_values();
    }
    let n = bytes.len();
    if n <= 27 {
        let (v, _) = parse_is_short(bytes);
        proof {
            lemma_pow_adds(10, (27 - n) as nat, 27);
            lemma_pow_positive(10, (27 - n) as nat);
            assert((v as int) * pow(10, 27) == (digits_val(bytes@, 10) as int) * pow(
                10,
                (54 - n) as nat,
            )) by (nonlinear_arith)
                requires
                    v as int == (digits_val(bytes@, 10) as int) * pow(10, (27 - n) as nat),
                    pow(10, (54 - n) as nat) == pow(10, (27 - n) as nat) * pow(10, 27),
            ;
        }
        return ((v, 0), true);
    }
    let head = vstd::slice::slice_subrange(bytes, 0, 27);
    proof {
        assert(head@ =~= bytes@.take(27));
        lemma_digits_val_bound(head@, 10);
    }
    let hi = match crate::radix::dec_str_int_to_bin(head, 128) {
        Some(v) => v,
        None => {
            proof {
                lemma_pow2_128();
                crate::nums::lemma_pow_increases_10(27, 27);
                assert(false);
            }
            0
        },
    };
    let ghost s = bytes@;
    if n <= 54 {
        let tail = vstd::slice::slice_subrange(bytes, 27, bytes.len());
        proof {
            assert(tail@ =~= s.skip(27));
            lemma_digits_val_bound(tail@, 10);
            lemma_pow2_128();
            crate::nums::lemma_pow_increases_10(s.skip(27).len(), 27);
        }
        let v = match crate::radix::dec_str_int_to_bin(tail, 128) {
            Some(v) => v,
            None => {
                proof {
                    assert(false);
                }
                0
            },
        };
        let pad = pow10_u128(54 - (n as u32));
        proof {
            lemma_pow_adds(10, s.skip(27).len(), (54 - n) as nat);
            lemma_pow_positive(10, (54 - n) as nat);
            assert((v as int) * (pad as int) < pow(10, 27)) by {
                crate::arith::lemma_mul_lt(v as int, pow(10, s.skip(27).len()), pad as int);
            }
            // hi carries the top 27 digits, the padded tail the rest
            lemma_digits_val_split(s, 10, 27);
            assert((hi as int) * pow(10, 27) + (v as int) * (pad as int) == (digits_val(
                s,
                10,
            ) as int) * pow(10, (54 - n) as nat)) by (nonlinear_arith)
                requires
                    digits_val(s, 10) as int == (hi as int) * pow(10, (n - 27) as nat) + (
                    digits_val(s.skip(27), 10) as int),
                    v as int == digits_val(s.skip(27), 10) as int,
                    pad as int == pow(10, (54 - n) as nat),
                    pow(10, 27) == pow(10, (n - 27) as nat) * pow(10, (54 - n) as nat),
                    hi as int == digits_val(s.take(27), 10) as int,
            ;
            assert(pow(10, 27) == pow(10, (n - 27) as nat) * pow(10, (54 - n) as nat)) by {
                lemma_pow_adds(10, (n - 27) as nat, (54 - n) as nat);
            }
        }
        return ((hi, v * pad), true);
    }
    let mid = vstd::slice::slice_subrange(bytes, 27, 54);
    proof {
        assert(mid@ =~= s.subrange(27, 54));
        lemma_digits_val_bound(mid@, 10);
        lemma_pow2_128();
        crate::nums::lemma_pow_increases_10(27, 27);
    }
    let lo = match crate::radix::dec_str_int_to_bin(mid, 128) {
        Some(v) => v,
        None => {
            proof {
                assert(false);
            }
            0
        },
    };
    proof {
        lemma_digits_val_split(s.take(54), 10, 27);
        assert(s.take(54).take(27) =~= s.take(27));
        assert(s.take(54).skip(27) =~= s.subrange(27, 54));
        assert(s.take(54).len() == 54);
    }
    ((hi, lo), false)
}

/// Decimal fraction digits, rounded to `nbits` bits for the 128-bit storage
/// width, with the two-word scaled-rounding primitive.
pub fn dec_str_frac_to_bin_128(bytes: &[u8], nbits: u32) -> (r: Option<u128>)
    requires
        nbits <= 128,
        bytes@.len() >= 1,
        all_digits(bytes@, 10),
        bytes@[bytes@.len() - 1] != 0x30u8,
    ensures
        ({
            let v = round_half_even(
                digits_val(bytes@, 10) as int * pow2(nbits as nat) as int,
                pow(10, bytes@.len()),
            );
            &&& (v < pow2(nbits as nat)) ==> r == Some(v as u128)
            &&& (v >= pow2(nbits as nat)) ==> r.is_none()
        }),
{
    let ghost s = bytes@;
    let n = bytes.len();
    let ghost nv = digits_val(s, 10) as int;
    let ghost pnb = pow2(nbits as nat) as int;
    proof {
        lemma_pow2_pos(nbits as nat);
        lemma_pow_positive(10, s.len());
        lemma_pow10_values();
    }
    let ((hi, lo), is_short) = parse_is_short_128(bytes);
    let ghost packed = (hi as int) * pow(10, 27) + lo;
    if is_short {
        proof {
            let c = pow(10, (54 - n) as nat);
            lemma_pow_positive(10, (54 - n) as nat);
            lemma_pow_adds(10, s.len(), (54 - n) as nat);
            assert(packed * pnb == (nv * pnb) * c) by (nonlinear_arith)
                requires
                    packed == nv * c,
            ;
            crate::arith::lemma_rhe_scale(nv * pnb, pow(10, s.len()), c);
            assert(pow(10, 54) == pow(10, s.len()) * c);
            vstd::arithmetic::mul::lemma_mul_nonnegative(nv, pnb);
        }
        return dec_to_bin_128(hi, lo, nbits, Round::Nearest);
    }
    proof {
        assert(packed == digits_val(s.take(54), 10) as int);
        lemma_digits_val_bound(s.take(54), 10);
        vstd::arithmetic::mul::lemma_mul_nonnegative(packed, pnb);
        assert(packed * pnb < pow(10, 54) * pnb) by {
            crate::arith::lemma_mul_lt(packed, pow(10, 54), pnb);
        }
        vstd::arithmetic::div_mod::lemma_multiply_divide_lt(packed * pnb, pow(10, 54), pnb);
        vstd::arithmetic::div_mod::lemma_div_pos_is_pos(packed * pnb, pow(10, 54));
        lemma_pow2_128();
        assert(pnb <= pow2(128) as int) by {
            if nbits < 128 {
                vstd::arithmetic::power2::lemma_pow2_strictly_increases(nbits as nat, 128);
            }
        }
    }
    let fl = match dec_to_bin_128(hi, lo, nbits, Round::Floor) {
        Some(f) => f,
        None => {
            proof {
                assert(false);
            }
            0
        },
    };
    proof {
        assert(pow2((nbits + 1) as nat) <= pow(10, 54)) by {
            lemma_pow2_128();
            lemma_pow2_adds(128, 1);
            assert(pow2(1) == 2) by {
                vstd::arithmetic::power2::lemma2_to64();
            }
            if nbits + 1 < 129 {
                vstd::arithmetic::power2::lemma_pow2_strictly_increases((nbits + 1) as nat, 129);
            }
        }
        assert(fl as int == (digits_val(s.take(54), 10) as int) * pnb / pow(10, 54));
    }
    dec_frac_stage2(bytes, nbits, 128, fl, Ghost(54int))
}

} // verus!
