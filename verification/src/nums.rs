//! Executable powers of two and ten over `u128`, with their exact values as
//! specification-level powers, and small facts about them.

use vstd::prelude::*;
use vstd::arithmetic::power::{lemma_pow_adds, lemma_pow_positive, pow};
use vstd::arithmetic::power2::{lemma_pow2, lemma_pow2_adds, lemma_pow2_pos, pow2};

verus! {

/// `pow2(128)`, the first power of two past `u128`, and nearby values.
pub proof fn lemma_pow2_128()
    ensures
        pow2(128) == 0x100000000000000000000000000000000,
        pow2(127) == 0x80000000000000000000000000000000,
{
    vstd::arithmetic::power2::lemma2_to64_rest();
    lemma_pow2_adds(64, 64);
    lemma_pow2_adds(64, 63);
}

/// Every power of two up to the width of `u128` fits in it.
pub proof fn lemma_pow2_fits_u128(k: nat)
    requires
        k < 128,
    ensures
        pow2(k) < 0x100000000000000000000000000000000,
        pow2(k) >= 1,
{
    lemma_pow2_128();
    lemma_pow2_pos(k);
    vstd::arithmetic::power2::lemma_pow2_strictly_increases(k, 128);
}

/// A one bit shifted left `k` places is the `k`-th power of two.
pub proof fn lemma_shl_one_is_pow2(k: u128)
    requires
        k < 128,
    ensures
        (1u128 << k) as nat == pow2(k as nat),
        (1u128 << k) >= 1,
    decreases k,
{
    if k == 0 {
        assert(1u128 << 0u128 == 1) by (bit_vector);
        assert(pow2(0) == 1) by {
            vstd::arithmetic::power2::lemma2_to64();
        }
    } else {
        lemma_shl_one_is_pow2((k - 1) as u128);
        let k1 = (k - 1) as u128;
        assert(1u128 << k == (1u128 << k1) * 2) by (bit_vector)
            requires
                1 <= k < 128 && k1 == k - 1,
        ;
        lemma_pow2_adds((k - 1) as nat, 1);
        assert(pow2(1) == 2) by {
            vstd::arithmetic::power2::lemma2_to64();
        }
    }
}

/// `2^k` as a `u128`.
pub fn pow2_u128(k: u32) -> (r: u128)
    requires
        k < 128,
    ensures
        r as nat == pow2(k as nat),
        r >= 1,
{
    proof {
        lemma_shl_one_is_pow2(k as u128);
    }
    1u128 << (k as u128)
}

/// `10^k` as a `u128`.
pub fn pow10_u128(k: u32) -> (r: u128)
    requires
        k <= 38,
    ensures
        r as nat == pow(10, k as nat),
        r >= 1,
{
    proof {
        lemma_pow10_38_fits();
    }
    let mut r: u128 = 1;
    let mut i: u32 = 0;
    assert(pow(10, 0) == 1) by {
        vstd::arithmetic::power::lemma_pow0(10);
    }
    while i < k
        invariant
            i <= k,
            k <= 38,
            r as nat == pow(10, i as nat),
            r >= 1,
        decreases k - i,
    {
        proof {
            lemma_pow_adds(10, i as nat, 1);
            vstd::arithmetic::power::lemma_pow1(10);
            lemma_pow_increases_10(((i + 1) as u32) as nat, 38);
            lemma_pow10_38_fits();
        }
        r = r * 10;
        i = i + 1;
    }
    r
}

/// Selected powers of ten, written out.
pub proof fn lemma_pow10_values()
    ensures
        pow(10, 1) == 10,
        pow(10, 24) == 1000000000000000000000000,
        pow(10, 27) == 1000000000000000000000000000,
        pow(10, 38) == 100000000000000000000000000000000000000,
        pow(10, 54) == 1000000000000000000000000000000000000000000000000000000,
{
    vstd::arithmetic::power::lemma_pow1(10);
    assert(pow(10, 2) == 100) by {
        lemma_pow_adds(10, 1, 1);
    }
    assert(pow(10, 3) == 1000) by {
        lemma_pow_adds(10, 2, 1);
    }
    assert(pow(10, 6) == 1000000) by {
        lemma_pow_adds(10, 3, 3);
    }
    assert(pow(10, 12) == 1000000000000) by {
        lemma_pow_adds(10, 6, 6);
    }
    assert(pow(10, 24) == 1000000000000000000000000) by {
        lemma_pow_adds(10, 12, 12);
    }
    assert(pow(10, 27) == 1000000000000000000000000000) by {
        lemma_pow_adds(10, 24, 3);
    }
    assert(pow(10, 14) == 100000000000000) by {
        lemma_pow_adds(10, 12, 2);
    }
    assert(pow(10, 38) == 100000000000000000000000000000000000000) by {
        lemma_pow_adds(10, 24, 14);
    }
    assert(pow(10, 54) == 1000000000000000000000000000000000000000000000000000000) by {
        lemma_pow_adds(10, 27, 27);
    }
}

/// `10^38` still fits in a `u128`.
pub proof fn lemma_pow10_38_fits()
    ensures
        pow(10, 38) == 100000000000000000000000000000000000000,
{
    lemma_pow10_values();
}

/// Powers of ten grow with the exponent.
pub proof fn lemma_pow_increases_10(a: nat, b: nat)
    requires
        a <= b,
    ensures
        pow(10, a) <= pow(10, b),
{
    vstd::arithmetic::power::lemma_pow_increases(10, a, b);
}

/// The exact values that the decimal engine's digit-group packing rests on.
pub proof fn lemma_dec_pack_values()
    ensures
        pow(10, 27) == 1000000000000000000000000000,
        pow(5, 27) == 7450580596923828125,
        pow(5, 54) == 55511151231257827021181583404541015625,
        pow(10, 54) == pow(5, 54) * pow2(54),
        pow(10, 27) == pow(5, 27) * pow2(27),
{
    lemma_pow10_values();
    vstd::arithmetic::power::lemma_pow1(5);
    assert(pow(5, 2) == 25) by {
        lemma_pow_adds(5, 1, 1);
    }
    assert(pow(5, 3) == 125) by {
        lemma_pow_adds(5, 2, 1);
    }
    assert(pow(5, 6) == 15625) by {
        lemma_pow_adds(5, 3, 3);
    }
    assert(pow(5, 12) == 244140625) by {
        lemma_pow_adds(5, 6, 6);
    }
    assert(pow(5, 24) == 59604644775390625) by {
        lemma_pow_adds(5, 12, 12);
    }
    assert(pow(5, 27) == 7450580596923828125) by {
        lemma_pow_adds(5, 24, 3);
    }
    assert(pow(5, 54) == 55511151231257827021181583404541015625) by {
        lemma_pow_adds(5, 27, 27);
    }
    assert(pow2(54) == 18014398509481984 && pow2(27) == 134217728) by {
        vstd::arithmetic::power2::lemma2_to64();
        vstd::arithmetic::power2::lemma2_to64_rest();
    }
}

/// A power of a power of two is the power of two of the product.
pub proof fn lemma_pow_pot(lg: nat, k: nat)
    requires
        lg == 1 || lg == 3 || lg == 4,
    ensures
        pow(pow2(lg) as int, k) == pow2(lg * k),
{
    lemma_pow2(lg);
    vstd::arithmetic::power::lemma_pow_multiplies(2, lg, k);
    lemma_pow2(lg * k);
}

} // verus!
