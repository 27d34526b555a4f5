//! Round-to-nearest, ties-to-even division, stated over the integers, with the
//! lemmas that the conversion engine's contracts rest on.

use vstd::prelude::*;
use vstd::arithmetic::div_mod::{
    lemma_div_denominator, lemma_fundamental_div_mod, lemma_fundamental_div_mod_converse,
    lemma_mod_multiples_vanish,
};
use vstd::arithmetic::mul::{
    lemma_mul_inequality, lemma_mul_is_commutative, lemma_mul_is_distributive_add,
    lemma_mul_is_distributive_add_other_way, lemma_mul_is_distributive_sub,
    lemma_mul_strict_inequality, lemma_mul_strictly_positive,
};
use vstd::arithmetic::power2::pow2;

verus! {

/// `num / den` rounded to the nearest integer; an exact half rounds to the
/// candidate whose low bit is zero.
pub open spec fn round_half_even(num: int, den: int) -> int
    recommends
        num >= 0,
        den >= 1,
{
    let q = num / den;
    let r = num % den;
    if 2 * r < den {
        q
    } else if 2 * r > den {
        q + 1
    } else if q % 2 == 0 {
        q
    } else {
        q + 1
    }
}

/// The rounded quotient differs from the exact quotient by at most half:
/// `2*num - den <= 2*den*round_half_even(num, den) <= 2*num + den`.
pub proof fn lemma_rhe_bounds(num: int, den: int)
    requires
        num >= 0,
        den >= 1,
    ensures
        2 * num - den <= 2 * den * round_half_even(num, den),
        2 * den * round_half_even(num, den) <= 2 * num + den,
        round_half_even(num, den) >= 0,
{
    let q = num / den;
    let r = num % den;
    lemma_fundamental_div_mod(num, den);
    vstd::arithmetic::div_mod::lemma_div_pos_is_pos(num, den);
    assert(num == den * q + r);
    let v = round_half_even(num, den);
    assert(2 * den * q == 2 * num - 2 * r) by {
        vstd::arithmetic::mul::lemma_mul_is_associative(2, den, q);
    }
    if 2 * r < den {
        assert(v == q);
    } else {
        assert(v == q || v == q + 1);
        assert(2 * den * (q + 1) == 2 * num - 2 * r + 2 * den) by {
            lemma_mul_is_distributive_add(2 * den, q, 1);
        }
        if v == q {
            // only in the tie case, 2*r == den
            assert(2 * r == den);
        } else {
            assert(2 * r >= den);
            assert(r < den);
        }
    }
}

/// Rounding is unchanged by scaling numerator and denominator alike.
pub proof fn lemma_rhe_scale(num: int, den: int, c: int)
    requires
        num >= 0,
        den >= 1,
        c >= 1,
    ensures
        round_half_even(num * c, den * c) == round_half_even(num, den),
{
    let q = num / den;
    let r = num % den;
    lemma_fundamental_div_mod(num, den);
    lemma_mul_strictly_positive(den, c);
    // num * c == (den * c) * q + r * c, with 0 <= r * c < den * c
    assert(num * c == (den * c) * q + r * c) by {
        assert((den * q + r) * c == (den * q) * c + r * c) by {
            lemma_mul_is_distributive_add_other_way(c, den * q, r);
        }
        assert((den * q) * c == (den * c) * q) by {
            lemma_mul_is_commutative(den, q);
            vstd::arithmetic::mul::lemma_mul_is_associative(q, den, c);
        }
    }
    assert(r * c < den * c) by {
        lemma_mul_strict_inequality(r, den, c);
    }
    assert(r * c >= 0) by {
        vstd::arithmetic::mul::lemma_mul_nonnegative(r, c);
    }
    lemma_fundamental_div_mod_converse(num * c, den * c, q, r * c);
    assert((num * c) / (den * c) == q);
    assert((num * c) % (den * c) == r * c);
    // the branch taken is the same: 2*(r*c) vs den*c is 2*r vs den
    if 2 * r < den {
        assert(2 * (r * c) < den * c) by {
            lemma_mul_strict_inequality(2 * r, den, c);
            vstd::arithmetic::mul::lemma_mul_is_associative(2, r, c);
            lemma_mul_is_commutative(2 * r, c);
            lemma_mul_is_commutative(den, c);
        }
    } else if 2 * r > den {
        assert(2 * (r * c) > den * c) by {
            lemma_mul_strict_inequality(den, 2 * r, c);
            vstd::arithmetic::mul::lemma_mul_is_associative(2, r, c);
            lemma_mul_is_commutative(2 * r, c);
            lemma_mul_is_commutative(den, c);
        }
    } else {
        assert(2 * (r * c) == den * c) by {
            vstd::arithmetic::mul::lemma_mul_is_associative(2, r, c);
            lemma_mul_is_commutative(2 * r, c);
            lemma_mul_is_commutative(den, c);
        }
    }
}

/// Two fractions with the same value round to the same integer.
pub proof fn lemma_rhe_equal(num1: int, den1: int, num2: int, den2: int)
    requires
        num1 >= 0,
        num2 >= 0,
        den1 >= 1,
        den2 >= 1,
        num1 * den2 == num2 * den1,
    ensures
        round_half_even(num1, den1) == round_half_even(num2, den2),
{
    lemma_rhe_scale(num1, den1, den2);
    lemma_rhe_scale(num2, den2, den1);
    lemma_mul_is_commutative(den1, den2);
}

/// Rounding is monotone: a strictly smaller fraction rounds no higher.
pub proof fn lemma_rhe_mono(num1: int, den1: int, num2: int, den2: int)
    requires
        num1 >= 0,
        num2 >= 0,
        den1 >= 1,
        den2 >= 1,
        num1 * den2 < num2 * den1,
    ensures
        round_half_even(num1, den1) <= round_half_even(num2, den2),
{
    let v1 = round_half_even(num1, den1);
    let v2 = round_half_even(num2, den2);
    lemma_rhe_bounds(num1, den1);
    lemma_rhe_bounds(num2, den2);
    // 2*den1*den2*v1 <= (2*num1 + den1)*den2 <= (2*num2*den1 - 2) + den1*den2
    // 2*den1*den2*v2 >= (2*num2 - den2)*den1 == 2*num2*den1 - den1*den2
    assert((2 * den1 * v1) * den2 <= (2 * num1 + den1) * den2) by {
        lemma_mul_inequality(2 * den1 * v1, 2 * num1 + den1, den2);
    }
    assert((2 * num2 - den2) * den1 <= (2 * den2 * v2) * den1) by {
        lemma_mul_inequality(2 * num2 - den2, 2 * den2 * v2, den1);
    }
    let d12 = den1 * den2;
    assert((2 * num1 + den1) * den2 == 2 * (num1 * den2) + d12) by {
        lemma_mul_is_distributive_add_other_way(den2, 2 * num1, den1);
        vstd::arithmetic::mul::lemma_mul_is_associative(2, num1, den2);
    }
    assert((2 * num2 - den2) * den1 == 2 * (num2 * den1) - d12) by {
        lemma_mul_is_distributive_sub(den1, 2 * num2, den2);
        lemma_mul_is_commutative(den1, 2 * num2);
        lemma_mul_is_commutative(den1, den2);
        vstd::arithmetic::mul::lemma_mul_is_associative(2, num2, den1);
    }
    assert((2 * den1 * v1) * den2 == 2 * d12 * v1) by {
        vstd::arithmetic::mul::lemma_mul_is_associative(2 * den1, v1, den2);
        lemma_mul_is_commutative(v1, den2);
        vstd::arithmetic::mul::lemma_mul_is_associative(2 * den1, den2, v1);
        vstd::arithmetic::mul::lemma_mul_is_associative(2, den1, den2);
    }
    assert((2 * den2 * v2) * den1 == 2 * d12 * v2) by {
        vstd::arithmetic::mul::lemma_mul_is_associative(2 * den2, v2, den1);
        lemma_mul_is_commutative(v2, den1);
        vstd::arithmetic::mul::lemma_mul_is_associative(2 * den2, den1, v2);
        vstd::arithmetic::mul::lemma_mul_is_associative(2, den2, den1);
        lemma_mul_is_commutative(den2, den1);
    }
    // combine: 2*d12*v1 <= 2*(num1*den2) + d12 <= 2*(num2*den1) - 2 + d12
    //          2*(num2*den1) - d12 <= 2*d12*v2
    assert(2 * d12 * v1 <= 2 * d12 * v2 + 2 * d12 - 2);
    if v1 > v2 {
        assert(v1 >= v2 + 1);
        assert(2 * d12 * v1 >= 2 * d12 * (v2 + 1)) by {
            lemma_mul_inequality(v2 + 1, v1, 2 * d12);
            lemma_mul_is_commutative(v2 + 1, 2 * d12);
            lemma_mul_is_commutative(v1, 2 * d12);
        }
        assert(2 * d12 * (v2 + 1) == 2 * d12 * v2 + 2 * d12) by {
            lemma_mul_is_distributive_add(2 * d12, v2, 1);
        }
        assert(false);
    }
}

/// An exact multiple of the denominator rounds to itself.
pub proof fn lemma_rhe_exact(k: int, den: int)
    requires
        k >= 0,
        den >= 1,
    ensures
        round_half_even(k * den, den) == k,
{
    lemma_fundamental_div_mod_converse(k * den, den, k, 0);
    lemma_mul_is_commutative(k, den);
}

/// Splitting off a whole part: rounding `(a*den + b) * 2^f` against `den`
/// is the whole part `a * 2^f` plus the rounded fraction, except that with
/// no fractional bits an exact half against an odd whole part rounds up.
pub proof fn lemma_rhe_assemble(a: int, b: int, den: int, f: nat)
    requires
        a >= 0,
        0 <= b < den,
    ensures
        round_half_even((a * den + b) * pow2(f), den) == if f == 0 && a % 2 == 1 && 2 * b == den {
            a + 1
        } else {
            a * pow2(f) + round_half_even(b * pow2(f), den)
        },
{
    vstd::arithmetic::power2::lemma_pow2_pos(f);
    let p = pow2(f) as int;
    let num = (a * den + b) * pow2(f);
    assert(num == (a * p) * den + b * p) by {
        lemma_mul_is_distributive_add_other_way(p, a * den, b);
        vstd::arithmetic::mul::lemma_mul_is_associative(a, den, p);
        lemma_mul_is_commutative(den, p);
        vstd::arithmetic::mul::lemma_mul_is_associative(a, p, den);
    }
    let bq = (b * p) / den;
    let br = (b * p) % den;
    lemma_fundamental_div_mod(b * p, den);
    assert(b * p >= 0) by {
        vstd::arithmetic::mul::lemma_mul_nonnegative(b, p);
    }
    assert(num == den * (a * p + bq) + br) by {
        lemma_mul_is_distributive_add(den, a * p, bq);
        lemma_mul_is_commutative(den, a * p);
    }
    lemma_fundamental_div_mod_converse(num, den, a * p + bq, br);
    assert(num / den == a * p + bq);
    assert(num % den == br);
    let vfrac = round_half_even(b * p, den);
    // parity of the combined quotient
    if f == 0 {
        assert(p == 1) by {
            vstd::arithmetic::power2::lemma2_to64();
        }
        assert(b * p == b);
        assert(a * p == a);
        // b < den, so bq == 0 and br == b
        lemma_fundamental_div_mod_converse(b, den, 0, b);
        assert(bq == 0);
        assert(br == b);
        if 2 * b == den {
            // tie: quotient is a; even keeps a, odd takes a + 1
            if a % 2 == 0 {
                assert(round_half_even(num, den) == a);
                assert(vfrac == 0);
            } else {
                assert(round_half_even(num, den) == a + 1);
            }
        } else {
            if 2 * b < den {
                assert(round_half_even(num, den) == a);
                assert(vfrac == 0);
            } else {
                assert(round_half_even(num, den) == a + 1);
                assert(vfrac == 1);
            }
        }
    } else {
        // a * p is even, so the combined quotient has the parity of bq
        assert(p % 2 == 0) by {
            vstd::arithmetic::power2::lemma_pow2_unfold(f);
            assert(pow2(f) == 2 * pow2((f - 1) as nat));
        }
        assert((a * p) % 2 == 0) by {
            let h = p / 2;
            assert(p == 2 * h);
            assert(a * p == 2 * (a * h)) by {
                vstd::arithmetic::mul::lemma_mul_is_associative(a, 2, h);
                lemma_mul_is_commutative(a, 2);
                vstd::arithmetic::mul::lemma_mul_is_associative(2, a, h);
            }
            lemma_mod_multiples_vanish(a * h, 0, 2);
        }
        assert((a * p + bq) % 2 == bq % 2) by {
            let h = (a * p) / 2;
            assert(a * p == 2 * h);
            lemma_mod_multiples_vanish(h, bq, 2);
        }
        assert(round_half_even(num, den) == a * p + vfrac);
    }
}

/// Scaling numerator and denominator leaves quotient and remainder shape
/// unchanged: `(a*c) / (b*c) == a / b` and `(a*c) % (b*c) == (a % b) * c`.
pub proof fn lemma_div_mod_scale(a: int, b: int, c: int)
    requires
        a >= 0,
        b >= 1,
        c >= 1,
    ensures
        (a * c) / (b * c) == a / b,
        (a * c) % (b * c) == (a % b) * c,
{
    let q = a / b;
    let r = a % b;
    lemma_fundamental_div_mod(a, b);
    lemma_mul_strictly_positive(b, c);
    assert(a * c == (b * c) * q + r * c) by {
        assert((b * q + r) * c == (b * q) * c + r * c) by {
            lemma_mul_is_distributive_add_other_way(c, b * q, r);
        }
        assert((b * q) * c == (b * c) * q) by {
            lemma_mul_is_commutative(b, q);
            vstd::arithmetic::mul::lemma_mul_is_associative(q, b, c);
        }
    }
    assert(0 <= r * c) by {
        vstd::arithmetic::mul::lemma_mul_nonnegative(r, c);
    }
    assert(r * c < b * c) by {
        lemma_mul_strict_inequality(r, b, c);
        lemma_mul_is_commutative(r, c);
        lemma_mul_is_commutative(b, c);
    }
    lemma_fundamental_div_mod_converse(a * c, b * c, q, r * c);
}

/// Round-to-nearest as a single floored division: with an even denominator,
/// the nearest value is `(2*num + den) / (2*den)`, lowered by one at an exact
/// tie whose raised candidate is odd.
pub proof fn lemma_rhe_from_half_offset(num: int, den: int)
    requires
        num >= 0,
        den >= 2,
    ensures
        ({
            let div = (2 * num + den) / (2 * den);
            let tie = (2 * num + den) % (2 * den) == 0;
            round_half_even(num, den) == if tie && div % 2 == 1 {
                div - 1
            } else {
                div
            }
        }),
{
    let q = num / den;
    let r = num % den;
    lemma_fundamental_div_mod(num, den);
    vstd::arithmetic::div_mod::lemma_div_pos_is_pos(num, den);
    assert(2 * num + den == (2 * den) * q + (2 * r + den)) by {
        assert(2 * (den * q) == (2 * den) * q) by {
            vstd::arithmetic::mul::lemma_mul_is_associative(2, den, q);
        }
    }
    if 2 * r < den {
        lemma_fundamental_div_mod_converse(2 * num + den, 2 * den, q, 2 * r + den);
        assert((2 * num + den) / (2 * den) == q);
        assert((2 * num + den) % (2 * den) == 2 * r + den);
    } else {
        assert(2 * num + den == (2 * den) * (q + 1) + (2 * r - den)) by {
            lemma_mul_is_distributive_add(2 * den, q, 1);
        }
        lemma_fundamental_div_mod_converse(2 * num + den, 2 * den, q + 1, 2 * r - den);
        assert((2 * num + den) / (2 * den) == q + 1);
        assert((2 * num + den) % (2 * den) == 2 * r - den);
    }
}

/// When a candidate floor `f` is within half a unit below the exact
/// quotient, the rounded value is `f` or `f + 1`, decided by the half-way
/// comparison `2*num` against `(2*f + 1)*den`.
pub proof fn lemma_rhe_near_floor(num: int, den: int, f: int)
    requires
        num >= 0,
        den >= 1,
        f >= 0,
        f * den <= num,
        2 * num < (2 * f + 3) * den,
    ensures
        round_half_even(num, den) == if 2 * num > (2 * f + 1) * den {
            f + 1
        } else if 2 * num == (2 * f + 1) * den {
            if f % 2 == 0 {
                f
            } else {
                f + 1
            }
        } else {
            f
        },
{
    let q = num / den;
    let r = num % den;
    lemma_fundamental_div_mod(num, den);
    // q is f or f + 1
    assert(q >= f) by {
        vstd::arithmetic::div_mod::lemma_div_is_ordered(f * den, num, den);
        vstd::arithmetic::div_mod::lemma_div_by_multiple(f, den);
        lemma_mul_is_commutative(f, den);
    }
    assert(q <= f + 1) by {
        if q >= f + 2 {
            assert(num >= den * q) by {
                vstd::arithmetic::div_mod::lemma_remainder_lower(num, den);
            }
            assert(den * q >= den * (f + 2)) by {
                lemma_mul_inequality(f + 2, q, den);
                lemma_mul_is_commutative(f + 2, den);
                lemma_mul_is_commutative(q, den);
            }
            assert(2 * (den * (f + 2)) > (2 * f + 3) * den) by {
                lemma_mul_is_distributive_add(den, 2 * f + 3, 1);
                lemma_mul_is_commutative(2 * f + 3, den);
                lemma_mul_is_commutative(den, f + 2);
                assert(2 * ((f + 2) * den) == (2 * f + 4) * den) by {
                    vstd::arithmetic::mul::lemma_mul_is_associative(2, f + 2, den);
                }
                assert((2 * f + 4) * den == (2 * f + 3) * den + den) by {
                    lemma_mul_is_distributive_add_other_way(den, 2 * f + 3, 1);
                }
            }
            assert(false);
        }
    }
    assert(num * 2 == den * q * 2 + 2 * r);
    if q == f {
        // 2*num - (2*f + 1)*den == 2*r - den
        assert(2 * num - (2 * f + 1) * den == 2 * r - den) by {
            assert(2 * num == 2 * (den * f) + 2 * r);
            lemma_mul_is_distributive_add_other_way(den, 2 * f, 1);
            assert((2 * f) * den == 2 * (f * den)) by {
                vstd::arithmetic::mul::lemma_mul_is_associative(2, f, den);
            }
            lemma_mul_is_commutative(f, den);
        }
    } else {
        // q == f + 1: 2*num - (2*f + 1)*den == 2*r + den
        assert(2 * num - (2 * f + 1) * den == 2 * r + den) by {
            assert(2 * num == 2 * (den * (f + 1)) + 2 * r);
            lemma_mul_is_distributive_add_other_way(den, 2 * f, 1);
            assert((2 * f) * den == 2 * (f * den)) by {
                vstd::arithmetic::mul::lemma_mul_is_associative(2, f, den);
            }
            lemma_mul_is_commutative(f, den);
            assert(den * (f + 1) == den * f + den) by {
                lemma_mul_is_distributive_add(den, f, 1);
            }
            lemma_mul_is_commutative(f, den);
            lemma_mul_is_commutative(den, f);
        }
        // the bound on num keeps the remainder below half here
        assert((2 * f + 3) * den - (2 * f + 1) * den == 2 * den) by {
            lemma_mul_is_distributive_add_other_way(den, 2 * f + 1, 2);
        }
        assert(2 * r + den < 2 * den);
        assert(2 * r < den);
        assert(2 * num > (2 * f + 1) * den);
        assert(round_half_even(num, den) == f + 1);
    }
}

/// `a < b` and `c >= 1` give `a * c < b * c`.
pub proof fn lemma_mul_lt(a: int, b: int, c: int)
    requires
        a < b,
        c >= 1,
    ensures
        a * c < b * c,
{
    lemma_mul_strict_inequality(a, b, c);
    lemma_mul_is_commutative(a, c);
    lemma_mul_is_commutative(b, c);
}

/// A product of a non-negative and a positive factor vanishes only with the
/// first factor.
pub proof fn lemma_mul_zero_factor(x: int, y: int)
    requires
        x >= 0,
        y >= 1,
    ensures
        x * y == 0 <==> x == 0,
{
    if x > 0 {
        lemma_mul_strictly_positive(x, y);
    }
}

} // verus!
