//! The mathematical value of a run of digit bytes in a given radix, and the
//! lemmas that relate a run's value to its parts.

use vstd::prelude::*;
use vstd::arithmetic::mul::{
    lemma_mul_inequality, lemma_mul_is_commutative, lemma_mul_is_distributive_add_other_way,
    lemma_mul_strict_inequality,
};
use vstd::arithmetic::power::{lemma_pow_adds, lemma_pow_positive, pow};

verus! {

/// The radices the engine accepts.
pub open spec fn is_radix(radix: u32) -> bool {
    radix == 2 || radix == 8 || radix == 10 || radix == 16
}

/// Whether `b` is a digit byte of `radix`; hex digits may be either case.
pub open spec fn is_digit(b: u8, radix: u32) -> bool {
    if radix == 16 {
        (0x30u8 <= b && b <= 0x39u8) || (0x61u8 <= b && b <= 0x66u8) || (0x41u8 <= b && b <= 0x46u8)
    } else {
        0x30u8 <= b && (b as u32) < 0x30 + radix
    }
}

/// The numeric value of one digit byte.
pub open spec fn digit_val(b: u8) -> nat {
    if 0x30u8 <= b && b <= 0x39u8 {
        (b - 0x30u8) as nat
    } else if 0x61u8 <= b && b <= 0x66u8 {
        (b - 0x61u8 + 10) as nat
    } else if 0x41u8 <= b && b <= 0x46u8 {
        (b - 0x41u8 + 10) as nat
    } else {
        0
    }
}

pub open spec fn all_digits(s: Seq<u8>, radix: u32) -> bool {
    forall|i: int| 0 <= i < s.len() ==> is_digit(#[trigger] s[i], radix)
}

/// The value of a digit run read as an integer in `radix`.
pub open spec fn digits_val(s: Seq<u8>, radix: u32) -> nat
    decreases s.len(),
{
    if s.len() == 0 {
        0
    } else {
        digits_val(s.drop_last(), radix) * (radix as nat) + digit_val(s.last())
    }
}

pub broadcast proof fn lemma_digit_val_bound(b: u8, radix: u32)
    requires
        is_radix(radix),
        #[trigger] is_digit(b, radix),
    ensures
        #[trigger] digit_val(b) < radix,
{
}

/// A run of `n` digits is worth less than `radix^n`.
pub proof fn lemma_digits_val_bound(s: Seq<u8>, radix: u32)
    requires
        is_radix(radix),
        all_digits(s, radix),
    ensures
        digits_val(s, radix) < pow(radix as int, s.len()),
    decreases s.len(),
{
    lemma_pow_positive(radix as int, s.len());
    if s.len() == 0 {
    } else {
        let rest = s.drop_last();
        assert(all_digits(rest, radix));
        lemma_digits_val_bound(rest, radix);
        lemma_digit_val_bound(s.last(), radix);
        let p = pow(radix as int, rest.len());
        assert(pow(radix as int, s.len()) == p * radix) by {
            lemma_pow_adds(radix as int, rest.len(), 1);
            vstd::arithmetic::power::lemma_pow1(radix as int);
        }
        assert(digits_val(rest, radix) * radix + radix <= p * radix) by {
            assert(digits_val(rest, radix) + 1 <= p);
            lemma_mul_inequality(digits_val(rest, radix) as int + 1, p, radix as int);
            lemma_mul_is_distributive_add_other_way(radix as int, digits_val(rest, radix) as int, 1);
            lemma_mul_is_commutative(digits_val(rest, radix) as int + 1, radix as int);
            lemma_mul_is_commutative(p, radix as int);
        }
    }
}

/// Reading one more digit multiplies the value by the radix and adds the digit.
pub proof fn lemma_digits_val_push(s: Seq<u8>, radix: u32, b: u8)
    ensures
        digits_val(s.push(b), radix) == digits_val(s, radix) * radix + digit_val(b),
{
    assert(s.push(b).drop_last() =~= s);
    assert(s.push(b).last() == b);
}

/// Splitting a run at `k`: the head digits are scaled by `radix^(len-k)`.
pub proof fn lemma_digits_val_split(s: Seq<u8>, radix: u32, k: int)
    requires
        is_radix(radix),
        0 <= k <= s.len(),
    ensures
        digits_val(s, radix) == digits_val(s.take(k), radix) * pow(
            radix as int,
            (s.len() - k) as nat,
        ) + digits_val(s.skip(k), radix),
    decreases s.len() - k,
{
    lemma_pow_positive(radix as int, (s.len() - k) as nat);
    if k == s.len() {
        assert(s.take(k) =~= s);
        assert(s.skip(k) =~= Seq::<u8>::empty());
        assert(pow(radix as int, 0) == 1) by {
            vstd::arithmetic::power::lemma_pow0(radix as int);
        }
    } else {
        let s1 = s.drop_last();
        lemma_digits_val_split(s1, radix, k);
        assert(s1.take(k) =~= s.take(k));
        assert(s.skip(k).drop_last() =~= s1.skip(k));
        assert(s.skip(k).last() == s.last());
        assert(s.skip(k).len() == s.len() - k);
        let e1 = (s1.len() - k) as nat;
        let p1 = pow(radix as int, e1);
        let hv = digits_val(s.take(k), radix) as int;
        let tv1 = digits_val(s1.skip(k), radix) as int;
        // digits_val(s) == (hv * p1 + tv1) * radix + digit_val(s.last())
        assert(digits_val(s, radix) == (hv * p1 + tv1) * radix + digit_val(s.last()));
        assert((hv * p1 + tv1) * radix == hv * (p1 * radix) + tv1 * radix) by {
            lemma_mul_is_distributive_add_other_way(radix as int, hv * p1, tv1);
            vstd::arithmetic::mul::lemma_mul_is_associative(hv, p1, radix as int);
        }
        assert(p1 * radix == pow(radix as int, (s.len() - k) as nat)) by {
            lemma_pow_adds(radix as int, e1, 1);
            vstd::arithmetic::power::lemma_pow1(radix as int);
        }
        assert(digits_val(s.skip(k), radix) == tv1 * radix + digit_val(s.last()));
    }
}

/// A run of zero digits is worth zero.
pub proof fn lemma_digits_val_zeros(s: Seq<u8>, radix: u32)
    requires
        forall|i: int| 0 <= i < s.len() ==> s[i] == 0x30u8,
    ensures
        digits_val(s, radix) == 0,
    decreases s.len(),
{
    if s.len() > 0 {
        assert(forall|i: int|
            0 <= i < s.drop_last().len() ==> #[trigger] s.drop_last()[i] == s[i]);
        lemma_digits_val_zeros(s.drop_last(), radix);
        assert(s.last() == s[s.len() - 1]);
        assert(digit_val(s.last()) == 0);
        assert(digits_val(s, radix) == digits_val(s.drop_last(), radix) * (radix as nat)
            + digit_val(s.last()));
        assert(digits_val(s.drop_last(), radix) * (radix as nat) == 0) by {
            vstd::arithmetic::mul::lemma_mul_basics_2(radix as int);
        }
    }
}

/// A run whose first digit is non-zero is worth at least `radix^(len-1)`.
pub proof fn lemma_digits_val_lower(s: Seq<u8>, radix: u32)
    requires
        is_radix(radix),
        all_digits(s, radix),
        s.len() >= 1,
        s[0] != 0x30u8,
    ensures
        digits_val(s, radix) >= digit_val(s[0]) * pow(radix as int, (s.len() - 1) as nat),
        digits_val(s, radix) >= pow(radix as int, (s.len() - 1) as nat),
        digit_val(s[0]) >= 1,
{
    lemma_digits_val_split(s, radix, 1);
    assert(s.take(1).drop_last() =~= Seq::<u8>::empty());
    assert(s.take(1).last() == s[0]);
    assert(digits_val(s.take(1), radix) == digits_val(s.take(1).drop_last(), radix) * (
    radix as nat) + digit_val(s.take(1).last()));
    assert(digits_val(s.take(1), radix) == digit_val(s[0]));
    let p = pow(radix as int, (s.len() - 1) as nat);
    lemma_pow_positive(radix as int, (s.len() - 1) as nat);
    assert(digit_val(s[0]) * p >= 1 * p) by {
        lemma_mul_inequality(1, digit_val(s[0]) as int, p);
        lemma_mul_is_commutative(1, p);
        lemma_mul_is_commutative(digit_val(s[0]) as int, p);
    }
}

/// A run that ends in a non-zero digit is worth at least one.
pub proof fn lemma_digits_val_last_pos(s: Seq<u8>, radix: u32)
    requires
        is_radix(radix),
        s.len() >= 1,
        all_digits(s, radix),
        s[s.len() - 1] != 0x30u8,
    ensures
        digits_val(s, radix) >= 1,
{
    assert(s.last() == s[s.len() - 1]);
    assert(is_digit(s.last(), radix));
    assert(digit_val(s.last()) >= 1);
    assert(digits_val(s.drop_last(), radix) * (radix as nat) >= 0);
}

} // verus!
