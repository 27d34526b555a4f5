//! Per-radix integer converters: a trimmed digit span becomes an unsigned
//! value with exact overflow detection against a target bit width.

use vstd::prelude::*;

use crate::digits::{
    all_digits, digit_val, digits_val, is_digit, is_radix, lemma_digit_val_bound,
    lemma_digits_val_bound, lemma_digits_val_lower, lemma_digits_val_push,
    lemma_digits_val_split,
};
use crate::nums::{lemma_pow2_128, lemma_pow2_fits_u128, lemma_pow_pot};
use vstd::arithmetic::mul::{
    lemma_mul_inequality, lemma_mul_is_commutative, lemma_mul_strict_inequality,
};
use vstd::arithmetic::power::{lemma_pow_positive, pow};
use vstd::arithmetic::power2::{lemma_pow2_adds, lemma_pow2_pos, pow2};

verus! {

/// The value of a hexadecimal digit byte; the byte must already be known to
/// be one.
pub fn unchecked_hex_digit(byte: u8) -> (d: u8)
    requires
        is_digit(byte, 16),
    ensures
        d as nat == digit_val(byte),
        d < 16,
{
    assert((0x30u8 <= byte && byte <= 0x39u8) ==> (byte & 0x0f) == byte - 0x30u8)
        by (bit_vector);
    assert((0x61u8 <= byte && byte <= 0x66u8) ==> (byte & 0x0f) == byte - 0x60u8)
        by (bit_vector);
    assert((0x41u8 <= byte && byte <= 0x46u8) ==> (byte & 0x0f) == byte - 0x40u8)
        by (bit_vector);
    (byte & 0x0f) + if byte >= 0x40 {
        9
    } else {
        0
    }
}

/// The value of a digit byte of `radix`.
pub(crate) fn byte_digit(b: u8, radix: u32) -> (d: u8)
    requires
        is_radix(radix),
        is_digit(b, radix),
    ensures
        d as nat == digit_val(b),
        (d as u32) < radix,
{
    if radix == 16 {
        unchecked_hex_digit(b)
    } else {
        b - 0x30
    }
}

/// Integer conversion for the power-of-two radices `2^lg`: accumulate
/// `lg` bits per digit, watching a leading-zero-bit budget seeded from the
/// first digit so that running past `width` bits is reported, not wrapped.
fn pot_str_int_core(bytes: &[u8], radix: u32, lg: u32, width: u32) -> (r: Option<u128>)
    requires
        is_radix(radix),
        lg == 1 || lg == 3 || lg == 4,
        radix as nat == pow2(lg as nat),
        8 <= width <= 128,
        bytes@.len() >= 1,
        all_digits(bytes@, radix),
        bytes@[0] != 0x30u8,
    ensures
        digits_val(bytes@, radix) < pow2(width as nat) ==> r == Some(
            (digits_val(bytes@, radix) as u128),
        ),
        digits_val(bytes@, radix) >= pow2(width as nat) ==> r.is_none(),
{
    let ghost s = bytes@;
    let n = bytes.len();
    let d0 = byte_digit(bytes[0], radix);
    let bitlen: u32 = if d0 < 2 {
        1
    } else if d0 < 4 {
        2
    } else if d0 < 8 {
        3
    } else {
        4
    };
    assert(d0 >= 1);
    assert(pow2(0) == 1 && pow2(1) == 2 && pow2(2) == 4 && pow2(3) == 8 && pow2(4) == 16) by {
        vstd::arithmetic::power2::lemma2_to64();
    }
    assert(d0 as nat >= pow2((bitlen - 1) as nat));
    assert((d0 as nat) < pow2(bitlen as nat));
    let mut rem: u32 = width - bitlen;
    let mut acc: u128 = d0 as u128;
    let mut i: usize = 1;
    assert(s.take(1).drop_last() =~= Seq::<u8>::empty());
    assert(s.take(1).last() == s[0]);
    assert(digits_val(s.take(1int), radix) == digits_val(s.take(1int).drop_last(), radix) * (
    radix as nat) + digit_val(s.take(1int).last()));
    assert(acc as nat == digits_val(s.take(1int), radix));
    while i < n
        invariant
            s == bytes@,
            1 <= i <= n,
            n == s.len(),
            is_radix(radix),
            lg == 1 || lg == 3 || lg == 4,
            radix as nat == pow2(lg as nat),
            8 <= width <= 128,
            all_digits(s, radix),
            s[0] != 0x30u8,
            1 <= bitlen <= 4,
            bitlen <= width,
            d0 as nat == digit_val(s[0]),
            d0 as nat >= pow2((bitlen - 1) as nat),
            rem <= width - bitlen,
            width - rem == bitlen + lg * (i - 1),
            acc as nat == digits_val(s.take(i as int), radix),
            (acc as nat) < pow2((width - rem) as nat),
        decreases n - i,
    {
        proof {
            lemma_pow2_pos((width - rem) as nat);
        }
        if rem < lg {
            // the next digit would not fit: the whole run is at least
            // 2^(bitlen - 1 + lg*(n-1)) >= 2^width
            proof {
                lemma_digits_val_lower(s, radix);
                lemma_pow_pot(lg as nat, (s.len() - 1) as nat);
                assert(digits_val(s, radix) >= digit_val(s[0]) * pow(
                    radix as int,
                    (s.len() - 1) as nat,
                ));
                assert(digit_val(s[0]) * pow(radix as int, (s.len() - 1) as nat) >= pow2(
                    (bitlen - 1) as nat,
                ) * pow2(lg as nat * (s.len() - 1) as nat)) by {
                    lemma_pow_positive(radix as int, (s.len() - 1) as nat);
                    lemma_mul_inequality(
                        pow2((bitlen - 1) as nat) as int,
                        digit_val(s[0]) as int,
                        pow(radix as int, (s.len() - 1) as nat),
                    );
                    lemma_mul_is_commutative(
                        pow2((bitlen - 1) as nat) as int,
                        pow(radix as int, (s.len() - 1) as nat),
                    );
                    lemma_mul_is_commutative(
                        digit_val(s[0]) as int,
                        pow(radix as int, (s.len() - 1) as nat),
                    );
                }
                lemma_pow2_adds((bitlen - 1) as nat, lg as nat * (s.len() - 1) as nat);
                // bitlen - 1 + lg*(n-1) >= width, since lg*(n-1) >= lg*i > width - bitlen
                assert(lg * (i as int) >= lg * (i - 1) + lg);
                assert(lg as int * (s.len() - 1) >= lg * (i as int)) by {
                    lemma_mul_inequality(i as int, s.len() - 1, lg as int);
                    lemma_mul_is_commutative(i as int, lg as int);
                    lemma_mul_is_commutative(s.len() - 1, lg as int);
                }
                assert((bitlen - 1) + lg as int * (s.len() - 1) >= width);
                vstd::arithmetic::power2::lemma_pow2_strictly_increases(
                    width as nat,
                    (bitlen + lg as nat * (s.len() - 1) as nat) as nat,
                );
                assert(pow2((bitlen - 1) as nat + lg as nat * (s.len() - 1) as nat) >= pow2(
                    width as nat,
                )) by {
                    if (bitlen - 1) as nat + lg as nat * (s.len() - 1) as nat > width as nat {
                        vstd::arithmetic::power2::lemma_pow2_strictly_increases(
                            width as nat,
                            (bitlen - 1) as nat + lg as nat * (s.len() - 1) as nat,
                        );
                    }
                }
            }
            return None;
        }
        let d = byte_digit(bytes[i], radix);
        proof {
            lemma_pow2_adds((width - rem) as nat, lg as nat);
            lemma_pow2_fits_u128((width - rem) as nat);
            if width - rem + lg < 128 {
                lemma_pow2_fits_u128((width - rem + lg) as nat);
            } else {
                lemma_pow2_128();
            }
            // acc * radix + d < pow2(width - rem + lg)
            assert((acc as nat) * (radix as nat) + (d as nat) < pow2((width - rem) as nat) * pow2(
                lg as nat,
            )) by {
                assert((acc as nat) * (radix as nat) <= (pow2((width - rem) as nat) - 1) * pow2(
                    lg as nat,
                )) by {
                    lemma_mul_inequality(
                        acc as int,
                        pow2((width - rem) as nat) as int - 1,
                        radix as int,
                    );
                    lemma_mul_is_commutative(acc as int, radix as int);
                    lemma_mul_is_commutative(pow2((width - rem) as nat) as int - 1, radix as int);
                }
                assert((pow2((width - rem) as nat) - 1) * pow2(lg as nat) == pow2(
                    (width - rem) as nat,
                ) * pow2(lg as nat) - pow2(lg as nat)) by {
                    vstd::arithmetic::mul::lemma_mul_is_distributive_sub_other_way(
                        pow2(lg as nat) as int,
                        pow2((width - rem) as nat) as int,
                        1,
                    );
                }
                assert((d as nat) < pow2(lg as nat));
            }
            lemma_digits_val_push(s.take(i as int), radix, s[i as int]);
            assert(s.take(i + 1) =~= s.take(i as int).push(s[i as int]));
        }
        acc = acc * (radix as u128) + (d as u128);
        rem = rem - lg;
        i = i + 1;
        proof {
            assert(width - rem == bitlen + lg * (i - 1)) by {
                vstd::arithmetic::mul::lemma_mul_is_distributive_add(lg as int, i as int - 2, 1);
            }
        }
    }
    proof {
        assert(s.take(n as int) =~= s);
        if ((width - rem) as nat) < (width as nat) {
            vstd::arithmetic::power2::lemma_pow2_strictly_increases(
                (width - rem) as nat,
                width as nat,
            );
        }
    }
    Some(acc)
}

/// Binary digits to an integer of at most `width` bits.
pub fn bin_str_int_to_bin(bytes: &[u8], width: u32) -> (r: Option<u128>)
    requires
        8 <= width <= 128,
        bytes@.len() >= 1,
        all_digits(bytes@, 2),
        bytes@[0] != 0x30u8,
    ensures
        digits_val(bytes@, 2) < pow2(width as nat) ==> r == Some((digits_val(bytes@, 2) as u128)),
        digits_val(bytes@, 2) >= pow2(width as nat) ==> r.is_none(),
{
    proof {
        assert(pow2(1) == 2) by {
            vstd::arithmetic::power2::lemma2_to64();
        }
    }
    pot_str_int_core(bytes, 2, 1, width)
}

/// Octal digits to an integer of at most `width` bits.
pub fn oct_str_int_to_bin(bytes: &[u8], width: u32) -> (r: Option<u128>)
    requires
        8 <= width <= 128,
        bytes@.len() >= 1,
        all_digits(bytes@, 8),
        bytes@[0] != 0x30u8,
    ensures
        digits_val(bytes@, 8) < pow2(width as nat) ==> r == Some((digits_val(bytes@, 8) as u128)),
        digits_val(bytes@, 8) >= pow2(width as nat) ==> r.is_none(),
{
    proof {
        assert(pow2(3) == 8) by {
            vstd::arithmetic::power2::lemma2_to64();
        }
    }
    pot_str_int_core(bytes, 8, 3, width)
}

/// Hexadecimal digits to an integer of at most `width` bits.
pub fn hex_str_int_to_bin(bytes: &[u8], width: u32) -> (r: Option<u128>)
    requires
        8 <= width <= 128,
        bytes@.len() >= 1,
        all_digits(bytes@, 16),
        bytes@[0] != 0x30u8,
    ensures
        digits_val(bytes@, 16) < pow2(width as nat) ==> r == Some((digits_val(bytes@, 16) as u128)),
        digits_val(bytes@, 16) >= pow2(width as nat) ==> r.is_none(),
{
    proof {
        assert(pow2(4) == 16) by {
            vstd::arithmetic::power2::lemma2_to64();
        }
    }
    pot_str_int_core(bytes, 16, 4, width)
}

/// Decimal digits to an integer of at most `width` bits, by checked
/// multiply-by-ten and add.
pub fn dec_str_int_to_bin(bytes: &[u8], width: u32) -> (r: Option<u128>)
    requires
        8 <= width <= 128,
        all_digits(bytes@, 10),
    ensures
        digits_val(bytes@, 10) < pow2(width as nat) ==> r == Some((digits_val(bytes@, 10) as u128)),
        digits_val(bytes@, 10) >= pow2(width as nat) ==> r.is_none(),
{
    let ghost s = bytes@;
    let n = bytes.len();
    let top: u128 = if width == 128 {
        proof {
            lemma_pow2_128();
        }
        u128::MAX
    } else {
        crate::nums::pow2_u128(width) - 1
    };
    assert(top as nat == pow2(width as nat) - 1);
    assert(top >= 255) by {
        assert(pow2(8) == 256) by {
            vstd::arithmetic::power2::lemma2_to64();
        }
        if width > 8 {
            vstd::arithmetic::power2::lemma_pow2_strictly_increases(8, width as nat);
        }
    }
    let mut acc: u128 = 0;
    let mut i: usize = 0;
    assert(s.take(0int) =~= Seq::<u8>::empty());
    while i < n
        invariant
            s == bytes@,
            0 <= i <= n,
            n == s.len(),
            8 <= width <= 128,
            all_digits(s, 10),
            top as nat == pow2(width as nat) - 1,
            top >= 255,
            acc as nat == digits_val(s.take(i as int), 10),
            acc <= top,
        decreases n - i,
    {
        let d = byte_digit(bytes[i], 10);
        // acc * 10 + d stays within width bits or the whole run overflows
        if acc > (top - (d as u128)) / 10 {
            proof {
                // acc * 10 + d > top, and the full run is at least that prefix
                let t = (top - (d as u128)) as int;
                assert(acc as int * 10 > t) by {
                    assert(acc as int >= t / 10 + 1);
                    assert((t / 10 + 1) * 10 == (t / 10) * 10 + 10);
                    assert((t / 10) * 10 + 10 > t) by {
                        vstd::arithmetic::div_mod::lemma_fundamental_div_mod(t, 10);
                    }
                    lemma_mul_inequality(t / 10 + 1, acc as int, 10);
                }
                lemma_digits_val_push(s.take(i as int), 10, s[i as int]);
                assert(s.take(i + 1) =~= s.take(i as int).push(s[i as int]));
                assert(digits_val(s.take(i + 1), 10) > top as nat);
                lemma_digits_val_split(s, 10, i + 1);
                lemma_pow_positive(10, (s.len() - i - 1) as nat);
                assert(digits_val(s, 10) >= digits_val(s.take(i + 1), 10)) by {
                    let hv = digits_val(s.take(i + 1), 10) as int;
                    let p = pow(10, (s.len() - i - 1) as nat);
                    lemma_mul_inequality(1, p, hv);
                    lemma_mul_is_commutative(hv, p);
                }
            }
            return None;
        }
        proof {
            let t = (top - (d as u128)) as int;
            assert(acc as int * 10 <= (t / 10) * 10) by {
                lemma_mul_inequality(acc as int, t / 10, 10);
            }
            assert((t / 10) * 10 <= t) by {
                vstd::arithmetic::div_mod::lemma_fundamental_div_mod(t, 10);
                vstd::arithmetic::div_mod::lemma_mod_bound(t, 10);
            }
            lemma_digits_val_push(s.take(i as int), 10, s[i as int]);
            assert(s.take(i + 1) =~= s.take(i as int).push(s[i as int]));
        }
        acc = acc * 10 + (d as u128);
        i = i + 1;
    }
    proof {
        assert(s.take(n as int) =~= s);
    }
    Some(acc)
}

/// Fractional conversion for the power-of-two radices: each digit supplies
/// `lg` exact bits of the fraction; at the digit that straddles the last
/// target bit, round to nearest with ties to the even candidate, never
/// materializing more precision than `nbits` bits.
#[verifier::rlimit(100)]
fn pot_str_frac_core(bytes: &[u8], radix: u32, lg: u32, nbits: u32, width: u32) -> (r: Option<
    u128,
>)
    requires
        is_radix(radix),
        lg == 1 || lg == 3 || lg == 4,
        radix as nat == pow2(lg as nat),
        nbits <= width,
        8 <= width <= 128,
        bytes@.len() >= 1,
        all_digits(bytes@, radix),
        bytes@[bytes@.len() - 1] != 0x30u8,
    ensures
        ({
            let v = crate::arith::round_half_even(
                digits_val(bytes@, radix) as int * pow2(nbits as nat) as int,
                pow(radix as int, bytes@.len()),
            );
            &&& (v < pow2(nbits as nat)) ==> r == Some(v as u128)
            &&& (v >= pow2(nbits as nat)) ==> r.is_none()
        }),
{
    let ghost s = bytes@;
    let n = bytes.len();
    proof {
        lemma_pow_pot(lg as nat, n as nat);
        lemma_digits_val_bound(s, radix);
        lemma_pow_positive(radix as int, n as nat);
        if nbits < 128 {
            lemma_pow2_fits_u128(nbits as nat);
        } else {
            lemma_pow2_128();
        }
    }
    let full_digits: usize = (nbits / lg) as usize;
    let k = if n < full_digits {
        n
    } else {
        full_digits
    };
    assert((lg as nat) * (full_digits as nat) <= nbits as nat) by {
        vstd::arithmetic::div_mod::lemma_fundamental_div_mod(nbits as int, lg as int);
        vstd::arithmetic::div_mod::lemma_mod_bound(nbits as int, lg as int);
    }
    assert((lg as nat) * (k as nat) <= nbits as nat) by {
        lemma_mul_inequality(k as int, full_digits as int, lg as int);
        lemma_mul_is_commutative(k as int, lg as int);
        lemma_mul_is_commutative(full_digits as int, lg as int);
    }
    let mut acc: u128 = 0;
    let mut i: usize = 0;
    assert(s.take(0int) =~= Seq::<u8>::empty());
    assert(pow2(0) == 1) by {
        vstd::arithmetic::power2::lemma2_to64();
    }
    while i < k
        invariant
            s == bytes@,
            0 <= i <= k <= n,
            n == s.len(),
            is_radix(radix),
            lg == 1 || lg == 3 || lg == 4,
            radix as nat == pow2(lg as nat),
            nbits <= 128,
            all_digits(s, radix),
            (lg as nat) * (k as nat) <= nbits as nat,
            acc as nat == digits_val(s.take(i as int), radix),
            (acc as nat) < pow2((lg as nat) * (i as nat)),
        decreases k - i,
    {
        let d = byte_digit(bytes[i], radix);
        proof {
            let ei = (lg as nat) * (i as nat);
            let ei1 = (lg as nat) * ((i + 1) as nat);
            assert(ei1 == ei + lg) by {
                vstd::arithmetic::mul::lemma_mul_is_distributive_add(lg as int, i as int, 1);
            }
            assert(ei1 <= nbits as nat) by {
                lemma_mul_inequality(i as int + 1, k as int, lg as int);
                lemma_mul_is_commutative(i as int + 1, lg as int);
                lemma_mul_is_commutative(k as int, lg as int);
            }
            lemma_pow2_adds(ei, lg as nat);
            if ei1 < 128 {
                lemma_pow2_fits_u128(ei1);
            } else {
                lemma_pow2_128();
                if ei1 < 128 {
                } else {
                    vstd::arithmetic::power2::lemma_pow2_strictly_increases(127, ei1);
                }
            }
            assert((acc as nat) * (radix as nat) + (d as nat) < pow2(ei) * pow2(lg as nat)) by {
                lemma_mul_inequality(acc as int, pow2(ei) as int - 1, radix as int);
                lemma_mul_is_commutative(acc as int, radix as int);
                lemma_mul_is_commutative(pow2(ei) as int - 1, radix as int);
                vstd::arithmetic::mul::lemma_mul_is_distributive_sub_other_way(
                    radix as int,
                    pow2(ei) as int,
                    1,
                );
            }
            assert(pow2(ei1) <= pow2(nbits as nat)) by {
                if ei1 < nbits as nat {
                    vstd::arithmetic::power2::lemma_pow2_strictly_increases(ei1, nbits as nat);
                }
            }
            lemma_digits_val_push(s.take(i as int), radix, s[i as int]);
            assert(s.take(i + 1) =~= s.take(i as int).push(s[i as int]));
        }
        acc = acc * (radix as u128) + (d as u128);
        i = i + 1;
    }
    let ghost np = pow(radix as int, n as nat);
    if n <= full_digits {
        // every digit supplied its bits exactly; left-justify into nbits
        let tail: u32 = nbits - lg * (n as u32);
        assert(tail < 128) by {
            assert((lg as nat) * (n as nat) >= 1);
        }
        let p_tail = crate::nums::pow2_u128(tail);
        proof {
            assert(s.take(n as int) =~= s);
            let nv = digits_val(s, radix) as int;
            lemma_pow2_adds((lg as nat) * (n as nat), tail as nat);
            // exact result: nv * 2^tail, which is below 2^nbits
            assert(nv * (p_tail as int) < (pow2(nbits as nat) as int)) by {
                lemma_mul_strict_inequality_help(
                    nv,
                    pow2((lg as nat) * (n as nat)) as int,
                    p_tail as int,
                );
            }
            assert((nv * pow2(nbits as nat)) == (nv * p_tail as int) * np) by {
                assert(pow2(nbits as nat) == p_tail as nat * pow2((lg as nat) * (n as nat))) by {
                    assert(nbits as nat == (lg as nat) * (n as nat) + tail as nat);
                    lemma_mul_is_commutative(
                        p_tail as int,
                        pow2((lg as nat) * (n as nat)) as int,
                    );
                }
                assert(nv * (p_tail as int * np) == (nv * p_tail as int) * np) by {
                    vstd::arithmetic::mul::lemma_mul_is_associative(nv, p_tail as int, np);
                }
                lemma_mul_is_commutative(p_tail as int, np);
            }
            crate::arith::lemma_rhe_exact(nv * p_tail as int, np);
        }
        return Some(acc * p_tail);
    }
    // the digit at index k holds the half bit
    let rem: u32 = nbits - lg * (k as u32);
    assert(rem < lg) by {
        vstd::arithmetic::div_mod::lemma_fundamental_div_mod(nbits as int, lg as int);
        vstd::arithmetic::div_mod::lemma_mod_bound(nbits as int, lg as int);
    }
    let shift: u32 = lg - rem;
    let pw: u8 = if shift == 1 {
        2
    } else if shift == 2 {
        4
    } else if shift == 3 {
        8
    } else {
        16
    };
    assert(pw as nat == pow2(shift as nat) && pw >= 2) by {
        vstd::arithmetic::power2::lemma2_to64();
    }
    let half: u8 = pw / 2;
    assert(half as nat == pow2((shift - 1) as nat) && half >= 1) by {
        vstd::arithmetic::power2::lemma2_to64();
    }
    let d = byte_digit(bytes[k], radix);
    let dtop = d / pw;
    let dlow = d % pw;
    let p_rem = crate::nums::pow2_u128(rem);
    let ghost ga2 = (acc as int) * (p_rem as int) + (dtop as int);
    proof {
        lemma_pot_frac_round(
            s,
            radix,
            lg,
            nbits,
            k as int,
            acc as int,
            dtop,
            dlow,
            ga2,
            shift,
            rem,
            half,
        );
    }
    let acc2 = acc * p_rem + (dtop as u128);
    let more = k + 1 < n;
    let up = dlow >= half && (dlow % half != 0 || more || acc2 % 2 == 1);
    proof {
        // the exec test dlow % half != 0 holds exactly of a digit strictly
        // above the half bit
        assert((dlow >= half && dlow % half != 0) <==> dlow > half) by {
            assert((dlow as int) < 2 * (half as int)) by {
                lemma_pow2_adds((shift - 1) as nat, 1);
                assert(pow2(1) == 2) by {
                    vstd::arithmetic::power2::lemma2_to64();
                }
            }
            if dlow >= half {
                assert((dlow as int) % (half as int) == (dlow as int - half as int) % (
                half as int)) by {
                    vstd::arithmetic::div_mod::lemma_mod_sub_multiples_vanish(
                        dlow as int,
                        half as int,
                    );
                }
                vstd::arithmetic::div_mod::lemma_small_mod((dlow - half) as nat, half as nat);
            }
        }
    }
    if !up {
        return Some(acc2);
    }
    if nbits == 128 {
        if acc2 == u128::MAX {
            proof {
                lemma_pow2_128();
            }
            return None;
        }
        return Some(acc2 + 1);
    }
    let lim = crate::nums::pow2_u128(nbits);
    if acc2 + 1 == lim {
        return None;
    }
    Some(acc2 + 1)
}

/// At the digit that straddles the last target bit, rounding the whole run
/// to `nbits` bits keeps the bits accumulated so far and adds one exactly
/// when the remaining digits lie above the half-way point, or tie with an
/// odd accumulator.
#[verifier::rlimit(60)]
proof fn lemma_pot_frac_round(
    s: Seq<u8>,
    radix: u32,
    lg: u32,
    nbits: u32,
    k: int,
    av: int,
    dtop: u8,
    dlow: u8,
    a2: int,
    shift: u32,
    rem: u32,
    half: u8,
)
    requires
        is_radix(radix),
        lg == 1 || lg == 3 || lg == 4,
        radix as nat == pow2(lg as nat),
        0 <= k < s.len(),
        all_digits(s, radix),
        s[s.len() - 1] != 0x30u8,
        nbits as nat == (lg as nat) * (k as nat) + rem as nat,
        rem < lg,
        shift == lg - rem,
        half as nat == pow2((shift - 1) as nat),
        av == digits_val(s.take(k), radix),
        av < pow2((lg as nat) * (k as nat)),
        dtop as int == (digit_val(s[k]) as int) / (pow2(shift as nat) as int),
        dlow as int == (digit_val(s[k]) as int) % (pow2(shift as nat) as int),
        a2 == av * (pow2(rem as nat) as int) + dtop as int,
    ensures
        0 <= a2 < pow2(nbits as nat),
        ({
            let v = crate::arith::round_half_even(
                digits_val(s, radix) as int * pow2(nbits as nat) as int,
                pow(radix as int, s.len()),
            );
            v == if dlow > half || (dlow == half && (k + 1 < s.len() || a2 % 2 == 1)) {
                a2 + 1
            } else {
                a2
            }
        }),
{
    let n = s.len() as int;
    let cv = digits_val(s.skip(k + 1), radix) as int;
    let dv = digit_val(s[k]) as int;
    let p_sh = pow2(shift as nat) as int;
    let p_re = pow2(rem as nat) as int;
    let p_k = pow2((lg as nat) * (k as nat)) as int;
    let p_nk1 = pow2((lg as nat) * ((n - k - 1) as nat)) as int;
    let rad = radix as int;
    let nv = digits_val(s, radix) as int;
    let num = nv * pow2(nbits as nat) as int;
    let den = pow(rad, s.len());
    let halfv = half as int;
    lemma_pow_pot(lg as nat, s.len());
    lemma_pow_positive(rad, s.len());
    lemma_pow2_pos((lg as nat) * ((n - k - 1) as nat));
    lemma_pow2_pos((lg as nat) * (k as nat));
    lemma_pow2_pos(rem as nat);
    lemma_pow2_pos(shift as nat);
    // digit decomposition of the straddling digit
    assert(dv == dtop as int * p_sh + dlow as int) by {
        vstd::arithmetic::div_mod::lemma_fundamental_div_mod(dv, p_sh);
        lemma_mul_is_commutative(p_sh, dtop as int);
    }
    assert((dlow as int) < p_sh) by {
        vstd::arithmetic::div_mod::lemma_mod_bound(dv, p_sh);
    }
    assert((dtop as int) < p_re) by {
        assert(dv < p_sh * p_re) by {
            lemma_pow2_adds(shift as nat, rem as nat);
            lemma_digit_val_bound(s[k], radix);
        }
        vstd::arithmetic::div_mod::lemma_multiply_divide_lt(dv, p_sh, p_re);
    }
    assert(0 <= a2 < pow2(nbits as nat)) by {
        lemma_pow2_adds((lg as nat) * (k as nat), rem as nat);
        lemma_mul_strict_inequality_help2(av, p_k, p_re, dtop as int);
        vstd::arithmetic::mul::lemma_mul_nonnegative(av, p_re);
    }
    // the run splits around index k
    lemma_digits_val_split(s, radix, k);
    lemma_digits_val_split(s.skip(k), radix, 1);
    assert(s.skip(k).skip(1) =~= s.skip(k + 1));
    assert(s.skip(k).take(1).drop_last() =~= Seq::<u8>::empty());
    assert(s.skip(k).take(1).last() == s[k]);
    assert(digits_val(s.skip(k).take(1), radix) == digits_val(
        s.skip(k).take(1).drop_last(),
        radix,
    ) * (radix as nat) + digit_val(s.skip(k).take(1).last()));
    assert(digits_val(s.skip(k).take(1), radix) == digit_val(s[k]));
    // powers of the radix as powers of two
    lemma_pow_pot(lg as nat, (n - k) as nat);
    lemma_pow_pot(lg as nat, (n - k - 1) as nat);
    assert((lg as nat) * ((n - k) as nat) == (lg as nat) * ((n - k - 1) as nat) + lg as nat) by {
        vstd::arithmetic::mul::lemma_mul_is_distributive_add(lg as int, n - k - 1, 1);
    }
    lemma_pow2_adds((lg as nat) * ((n - k - 1) as nat), lg as nat);
    assert(pow(rad, (n - k) as nat) == rad * p_nk1) by {
        lemma_mul_is_commutative(p_nk1, rad);
    }
    assert(nv == av * (rad * p_nk1) + dv * p_nk1 + cv);
    // the target denominator, written over the same powers of two
    assert((lg as nat) * (s.len()) == (lg as nat) * (k as nat) + (lg as nat) * ((n - k) as nat))
        by {
        vstd::arithmetic::mul::lemma_mul_is_distributive_add(lg as int, k, n - k);
    }
    lemma_pow2_adds((lg as nat) * (k as nat), (lg as nat) * ((n - k) as nat));
    assert(den == p_k * (rad * p_nk1));
    assert(rad == p_sh * p_re) by {
        lemma_pow2_adds(shift as nat, rem as nat);
    }
    assert(2 * halfv == p_sh) by {
        lemma_pow2_adds((shift - 1) as nat, 1);
        assert(pow2(1) == 2) by {
            vstd::arithmetic::power2::lemma2_to64();
        }
    }
    lemma_pow2_adds((lg as nat) * (k as nat), rem as nat);
    assert(pow2(nbits as nat) as int == p_k * p_re);
    let rest = (dlow as int * p_nk1 + cv) * (p_k * p_re);
    // the straddling digit splits the scaled numerator exactly at a2
    assert(num == nv * (p_k * p_re));
    assert(nv * (p_k * p_re) == (av * (rad * p_nk1)) * (p_k * p_re) + (dv * p_nk1) * (p_k * p_re)
        + cv * (p_k * p_re)) by (nonlinear_arith)
        requires
            nv == av * (rad * p_nk1) + dv * p_nk1 + cv,
    ;
    assert((av * (rad * p_nk1)) * (p_k * p_re) == (av * p_re) * den) by (nonlinear_arith)
        requires
            rad == p_sh * p_re,
            den == p_k * (rad * p_nk1),
    ;
    assert((p_sh * p_nk1) * (p_k * p_re) == den) by (nonlinear_arith)
        requires
            rad == p_sh * p_re,
            den == p_k * (rad * p_nk1),
    ;
    assert((dv * p_nk1) * (p_k * p_re) == (dtop as int) * den + (dlow as int * p_nk1) * (p_k
        * p_re)) by (nonlinear_arith)
        requires
            dv == dtop as int * p_sh + dlow as int,
            (p_sh * p_nk1) * (p_k * p_re) == den,
    ;
    assert((av * p_re) * den + (dtop as int) * den == a2 * den) by {
        vstd::arithmetic::mul::lemma_mul_is_distributive_add_other_way(den, av * p_re, dtop as int);
    }
    assert((dlow as int * p_nk1) * (p_k * p_re) + cv * (p_k * p_re) == rest) by {
        vstd::arithmetic::mul::lemma_mul_is_distributive_add_other_way(
            p_k * p_re,
            dlow as int * p_nk1,
            cv,
        );
    }
    assert(num == a2 * den + rest);
    assert(cv < p_nk1) by {
        lemma_digits_val_bound(s.skip(k + 1), radix);
    }
    assert(0 <= rest < den) by (nonlinear_arith)
        requires
            rest == (dlow as int * p_nk1 + cv) * (p_k * p_re),
            den == p_k * (rad * p_nk1),
            rad == p_sh * p_re,
            0 <= (dlow as int) < p_sh,
            0 <= cv < p_nk1,
            p_k >= 1,
            p_re >= 1,
            p_nk1 >= 1,
            p_sh >= 1,
    ;
    vstd::arithmetic::div_mod::lemma_fundamental_div_mod_converse(num, den, a2, rest);
    // where the run stands against the half-way point
    let margin = dlow as int * p_nk1 + cv - halfv * p_nk1;
    assert(2 * rest - den == 2 * margin * (p_k * p_re)) by (nonlinear_arith)
        requires
            rest == (dlow as int * p_nk1 + cv) * (p_k * p_re),
            den == p_k * (rad * p_nk1),
            rad == p_sh * p_re,
            p_sh == 2 * halfv,
            margin == dlow as int * p_nk1 + cv - halfv * p_nk1,
    ;
    if k + 1 < n {
        crate::digits::lemma_digits_val_last_pos(s.skip(k + 1), radix);
        assert(cv >= 1);
    } else {
        assert(s.skip(k + 1).len() == 0);
        assert(cv == 0);
    }
    assert((dlow as int) > halfv ==> margin > 0) by (nonlinear_arith)
        requires
            margin == dlow as int * p_nk1 + cv - halfv * p_nk1,
            p_nk1 >= 1,
            cv >= 0,
    ;
    assert((dlow as int) < halfv ==> margin < 0) by (nonlinear_arith)
        requires
            margin == dlow as int * p_nk1 + cv - halfv * p_nk1,
            p_nk1 >= 1,
            cv < p_nk1,
    ;
    assert(dlow as int == halfv ==> margin == cv) by (nonlinear_arith)
        requires
            margin == dlow as int * p_nk1 + cv - halfv * p_nk1,
    ;
    assert(p_k * p_re >= 1) by (nonlinear_arith)
        requires
            p_k >= 1,
            p_re >= 1,
    ;
    if margin > 0 {
        assert(2 * margin * (p_k * p_re) > 0) by (nonlinear_arith)
            requires
                margin > 0,
                p_k * p_re >= 1,
        ;
    }
    if margin < 0 {
        assert(2 * margin * (p_k * p_re) < 0) by (nonlinear_arith)
            requires
                margin < 0,
                p_k * p_re >= 1,
        ;
    }
    if margin == 0 {
        assert(2 * margin * (p_k * p_re) == 0) by (nonlinear_arith)
            requires
                margin == 0,
        ;
        assert(2 * rest == den);
    }
    // the rounded value follows the comparison with the half-way point
    assert(a2 == num / den && rest == num % den);
}

/// `a < b` and `c >= 1` give `a * c < b * c`.
proof fn lemma_mul_strict_inequality_help(a: int, b: int, c: int)
    requires
        a < b,
        c >= 1,
    ensures
        a * c < b * c,
{
    lemma_mul_strict_inequality(a, b, c);
    lemma_mul_is_commutative(a, c);
    lemma_mul_is_commutative(b, c);
}

/// `a < b`, `d < c` give `a * c + d < b * c`.
proof fn lemma_mul_strict_inequality_help2(a: int, b: int, c: int, d: int)
    requires
        a < b,
        0 <= d < c,
    ensures
        a * c + d < b * c,
{
    assert((a + 1) * c <= b * c) by {
        lemma_mul_inequality(a + 1, b, c);
        lemma_mul_is_commutative(a + 1, c);
        lemma_mul_is_commutative(b, c);
    }
    vstd::arithmetic::mul::lemma_mul_is_distributive_add_other_way(c, a, 1);
}

/// Binary fraction digits, rounded to `nbits` bits.
pub fn bin_str_frac_to_bin(bytes: &[u8], nbits: u32, width: u32) -> (r: Option<u128>)
    requires
        nbits <= width,
        8 <= width <= 128,
        bytes@.len() >= 1,
        all_digits(bytes@, 2),
        bytes@[bytes@.len() - 1] != 0x30u8,
    ensures
        ({
            let v = crate::arith::round_half_even(
                digits_val(bytes@, 2) as int * pow2(nbits as nat) as int,
                pow(2, bytes@.len()),
            );
            &&& (v < pow2(nbits as nat)) ==> r == Some(v as u128)
            &&& (v >= pow2(nbits as nat)) ==> r.is_none()
        }),
{
    proof {
        assert(pow2(1) == 2) by {
            vstd::arithmetic::power2::lemma2_to64();
        }
    }
    pot_str_frac_core(bytes, 2, 1, nbits, width)
}

/// Octal fraction digits, rounded to `nbits` bits.
pub fn oct_str_frac_to_bin(bytes: &[u8], nbits: u32, width: u32) -> (r: Option<u128>)
    requires
        nbits <= width,
        8 <= width <= 128,
        bytes@.len() >= 1,
        all_digits(bytes@, 8),
        bytes@[bytes@.len() - 1] != 0x30u8,
    ensures
        ({
            let v = crate::arith::round_half_even(
                digits_val(bytes@, 8) as int * pow2(nbits as nat) as int,
                pow(8, bytes@.len()),
            );
            &&& (v < pow2(nbits as nat)) ==> r == Some(v as u128)
            &&& (v >= pow2(nbits as nat)) ==> r.is_none()
        }),
{
    proof {
        assert(pow2(3) == 8) by {
            vstd::arithmetic::power2::lemma2_to64();
        }
    }
    pot_str_frac_core(bytes, 8, 3, nbits, width)
}

/// Hexadecimal fraction digits, rounded to `nbits` bits.
pub fn hex_str_frac_to_bin(bytes: &[u8], nbits: u32, width: u32) -> (r: Option<u128>)
    requires
        nbits <= width,
        8 <= width <= 128,
        bytes@.len() >= 1,
        all_digits(bytes@, 16),
        bytes@[bytes@.len() - 1] != 0x30u8,
    ensures
        ({
            let v = crate::arith::round_half_even(
                digits_val(bytes@, 16) as int * pow2(nbits as nat) as int,
                pow(16, bytes@.len()),
            );
            &&& (v < pow2(nbits as nat)) ==> r == Some(v as u128)
            &&& (v >= pow2(nbits as nat)) ==> r.is_none()
        }),
{
    proof {
        assert(pow2(4) == 16) by {
            vstd::arithmetic::power2::lemma2_to64();
        }
    }
    pot_str_frac_core(bytes, 16, 4, nbits, width)
}

} // verus!
