//! The bit representation of a binary128 floating-point number: carried as a
//! plain 128-bit pattern, with the sign, exponent and significand fields read
//! arithmetically.

use vstd::prelude::*;

use vstd::arithmetic::div_mod::{lemma_fundamental_div_mod, lemma_mod_bound};
use vstd::arithmetic::power::{lemma_pow_adds, lemma_pow_positive, pow};

verus! {

/// The sign bit's place value, `2^127`.
pub const SIGN_MASK: u128 = 0x80000000000000000000000000000000;

/// The exponent field, `0x7FFF` shifted past the 112 significand bits.
pub const EXP_MASK: u128 = 0x7FFF0000000000000000000000000000;

/// The significand field's 112 low bits.
pub const MANT_MASK: u128 = 0xFFFFFFFFFFFFFFFFFFFFFFFFFFFF;

/// The floating-point class of a binary128 bit pattern.
#[derive(Clone, Copy, Debug, PartialEq, Eq, Structural)]
pub enum FpCategory {
    Nan,
    Infinite,
    Zero,
    Subnormal,
    Normal,
}

/// The bit representation of a *binary128* floating-point number.
#[derive(Clone, Copy, Debug)]
pub struct F128 {
    bits: u128,
}

/// The sign bit of a pattern.
pub open spec fn sign_field(b: u128) -> u128 {
    b / 0x80000000000000000000000000000000
}

/// The 15 exponent bits of a pattern.
pub open spec fn exp_field(b: u128) -> u128 {
    (b / 0x10000000000000000000000000000) % 0x8000
}

/// The 112 significand bits of a pattern.
pub open spec fn mant_field(b: u128) -> u128 {
    b % 0x10000000000000000000000000000
}

/// The pattern with the sign bit cleared.
pub open spec fn abs_bits(b: u128) -> u128 {
    b % 0x80000000000000000000000000000000
}

impl F128 {
    /// Number of significant digits in base 2.
    pub const MANTISSA_DIGITS: u32 = 113;

    /// The radix or base of the internal representation (2).
    pub const RADIX: u32 = 2;

    /// Maximum x such that any decimal number with x significant digits can
    /// round-trip through this format.
    pub const DIGITS: u32 = 33;

    /// One greater than the minimum normal exponent.
    pub const MIN_EXP: i32 = -16381;

    /// The maximum exponent bound.
    pub const MAX_EXP: i32 = 16384;

    /// Minimum x for which 10^x is in the normal range.
    pub const MIN_10_EXP: i32 = -4931;

    /// Maximum x for which 10^x is in the normal range.
    pub const MAX_10_EXP: i32 = 4932;

    /// The bit pattern this value carries.
    pub closed spec fn spec_bits(self) -> u128 {
        self.bits
    }

    /// Raw transmutation from a 128-bit pattern.
    pub fn from_bits(bits: u128) -> (r: F128)
        ensures
            r.spec_bits() == bits,
    {
        F128 { bits }
    }

    /// Raw transmutation to the 128-bit pattern.
    pub fn to_bits(self) -> (r: u128)
        ensures
            r == self.spec_bits(),
    {
        self.bits
    }

    /// Whether the pattern is a NaN: exponent all ones and a non-zero
    /// significand.
    pub fn is_nan(self) -> (r: bool)
        ensures
            r == (exp_field(self.spec_bits()) == 0x7FFF && mant_field(self.spec_bits()) != 0),
    {
        proof {
            lemma_fields(self.bits);
        }
        (self.bits % SIGN_MASK) > EXP_MASK
    }

    /// Whether the pattern is an infinity: exponent all ones and a zero
    /// significand.
    pub fn is_infinite(self) -> (r: bool)
        ensures
            r == (exp_field(self.spec_bits()) == 0x7FFF && mant_field(self.spec_bits()) == 0),
    {
        proof {
            lemma_fields(self.bits);
        }
        (self.bits % SIGN_MASK) == EXP_MASK
    }

    /// Whether the pattern is neither infinite nor NaN.
    pub fn is_finite(self) -> (r: bool)
        ensures
            r == (exp_field(self.spec_bits()) != 0x7FFF),
    {
        proof {
            lemma_fields(self.bits);
        }
        let abs = self.bits % SIGN_MASK;
        abs < EXP_MASK
    }

    /// Whether the pattern is a zero of either sign.
    pub fn is_zero(self) -> (r: bool)
        ensures
            r == (exp_field(self.spec_bits()) == 0 && mant_field(self.spec_bits()) == 0),
    {
        proof {
            lemma_fields(self.bits);
        }
        (self.bits % SIGN_MASK) == 0
    }

    /// Whether the pattern is subnormal: zero exponent, non-zero
    /// significand.
    pub fn is_subnormal(self) -> (r: bool)
        ensures
            r == (exp_field(self.spec_bits()) == 0 && mant_field(self.spec_bits()) != 0),
    {
        proof {
            lemma_fields(self.bits);
        }
        let abs = self.bits % SIGN_MASK;
        0 < abs && abs < MANT_MASK + 1
    }

    /// Whether the pattern is a normal number: exponent neither zero nor
    /// all ones.
    pub fn is_normal(self) -> (r: bool)
        ensures
            r == (1 <= exp_field(self.spec_bits()) && exp_field(self.spec_bits()) <= 0x7FFE),
    {
        proof {
            lemma_fields(self.bits);
        }
        let abs = self.bits % SIGN_MASK;
        MANT_MASK + 1 <= abs && abs <= EXP_MASK - 1
    }

    /// The floating-point class of the pattern.
    pub fn classify(self) -> (r: FpCategory)
        ensures
            r == (if exp_field(self.spec_bits()) == 0 {
                if mant_field(self.spec_bits()) == 0 {
                    FpCategory::Zero
                } else {
                    FpCategory::Subnormal
                }
            } else if exp_field(self.spec_bits()) == 0x7FFF {
                if mant_field(self.spec_bits()) == 0 {
                    FpCategory::Infinite
                } else {
                    FpCategory::Nan
                }
            } else {
                FpCategory::Normal
            }),
    {
        proof {
            lemma_fields(self.bits);
        }
        let expf = (self.bits / (MANT_MASK + 1)) % 0x8000;
        let mant = self.bits % (MANT_MASK + 1);
        if expf == 0 {
            if mant == 0 {
                FpCategory::Zero
            } else {
                FpCategory::Subnormal
            }
        } else if expf == 0x7FFF {
            if mant == 0 {
                FpCategory::Infinite
            } else {
                FpCategory::Nan
            }
        } else {
            FpCategory::Normal
        }
    }

    /// The same magnitude with the sign bit cleared.
    pub fn abs(self) -> (r: F128)
        ensures
            r.spec_bits() == abs_bits(self.spec_bits()),
    {
        proof {
            lemma_fields(self.bits);
        }
        F128 { bits: self.bits % SIGN_MASK }
    }

    /// Whether the sign bit is clear.
    pub fn is_sign_positive(self) -> (r: bool)
        ensures
            r == (sign_field(self.spec_bits()) == 0),
    {
        proof {
            lemma_fields(self.bits);
        }
        self.bits < SIGN_MASK
    }

    /// Whether the sign bit is set.
    pub fn is_sign_negative(self) -> (r: bool)
        ensures
            r == (sign_field(self.spec_bits()) == 1),
    {
        proof {
            lemma_fields(self.bits);
        }
        self.bits >= SIGN_MASK
    }

    /// One with this value's sign: positive patterns and positive NaNs give
    /// 1, negative ones give -1, and a NaN stays itself.
    pub fn signum(self) -> (r: F128)
        ensures
            (exp_field(self.spec_bits()) == 0x7FFF && mant_field(self.spec_bits()) != 0) ==> r
                == self,
            !(exp_field(self.spec_bits()) == 0x7FFF && mant_field(self.spec_bits()) != 0) ==> (
            if sign_field(self.spec_bits()) == 0 {
                r.spec_bits() == 0x3FFF0000000000000000000000000000u128
            } else {
                r.spec_bits() == 0xBFFF0000000000000000000000000000u128
            }),
    {
        if self.is_nan() {
            self
        } else if self.is_sign_positive() {
            F128 { bits: 0x3FFF0000000000000000000000000000 }
        } else {
            F128 { bits: 0xBFFF0000000000000000000000000000 }
        }
    }

    /// The magnitude of `self` with the sign of `sign`.
    pub fn copysign(self, sign: F128) -> (r: F128)
        ensures
            r.spec_bits() == abs_bits(self.spec_bits()) + sign_field(sign.spec_bits())
                * 0x80000000000000000000000000000000,
    {
        proof {
            lemma_fields(self.bits);
            lemma_fields(sign.bits);
        }
        F128 { bits: self.bits % SIGN_MASK + (sign.bits / SIGN_MASK) * SIGN_MASK }
    }

    /// The total order over bit patterns: negative NaNs first, then the
    /// negative range downward in magnitude, the zeros, the positive range,
    /// and positive NaNs last.
    pub fn total_cmp(&self, other: &F128) -> (r: core::cmp::Ordering)
        ensures
            r == total_cmp_spec(self.spec_bits(), other.spec_bits()),
    {
        proof {
            lemma_fields(self.bits);
            lemma_fields(other.bits);
        }
        let a = self.bits;
        let b = other.bits;
        let a_neg = self.bits >= SIGN_MASK;
        let b_neg = other.bits >= SIGN_MASK;
        if !a_neg && !b_neg {
            cmp_bits(a, b)
        } else if a_neg && b_neg {
            cmp_bits(b, a)
        } else if !a_neg {
            core::cmp::Ordering::Greater
        } else {
            core::cmp::Ordering::Less
        }
    }
}

/// The value a big-endian byte array stands for: the first byte is the most
/// significant.
pub open spec fn be_bytes_val(s: Seq<u8>) -> nat
    decreases s.len(),
{
    if s.len() == 0 {
        0
    } else {
        be_bytes_val(s.drop_last()) * 256 + (s.last() as nat)
    }
}

/// The value a little-endian byte array stands for: the last byte is the
/// most significant.
pub open spec fn le_bytes_val(s: Seq<u8>) -> nat
    decreases s.len(),
{
    if s.len() == 0 {
        0
    } else {
        le_bytes_val(s.drop_last()) + (s.last() as nat) * (pow(256, (s.len() - 1) as nat) as nat)
    }
}

/// A big-endian reading stays below one byte place per byte.
proof fn lemma_be_bytes_val_bound(s: Seq<u8>)
    ensures
        be_bytes_val(s) < pow(256, s.len()),
    decreases s.len(),
{
    lemma_pow_positive(256, s.len());
    if s.len() > 0 {
        lemma_be_bytes_val_bound(s.drop_last());
        lemma_pow_adds(256, (s.len() - 1) as nat, 1);
        vstd::arithmetic::power::lemma_pow1(256);
        assert(be_bytes_val(s.drop_last()) * 256 + 256 <= pow(256, (s.len() - 1) as nat) * 256)
            by (nonlinear_arith)
            requires
                be_bytes_val(s.drop_last()) < pow(256, (s.len() - 1) as nat),
        ;
    }
}

/// A little-endian reading stays below one byte place per byte.
proof fn lemma_le_bytes_val_bound(s: Seq<u8>)
    ensures
        le_bytes_val(s) < pow(256, s.len()),
    decreases s.len(),
{
    lemma_pow_positive(256, s.len());
    if s.len() > 0 {
        lemma_le_bytes_val_bound(s.drop_last());
        lemma_pow_adds(256, (s.len() - 1) as nat, 1);
        vstd::arithmetic::power::lemma_pow1(256);
        let p1 = pow(256, (s.len() - 1) as nat);
        assert(p1 + (s.last() as nat) * p1 <= 256 * p1) by (nonlinear_arith)
            requires
                (s.last() as nat) <= 255,
                p1 >= 1,
        ;
        vstd::arithmetic::mul::lemma_mul_is_commutative(256, p1);
    }
}

/// `256^16` is the first power of 256 past `u128`, with the smaller powers
/// below it.
proof fn lemma_pow256_values(k: nat)
    requires
        k <= 16,
    ensures
        pow(256, 16) == 0x100000000000000000000000000000000,
        pow(256, k) <= pow(256, 16),
        pow(256, k) >= 1,
{
    assert(pow(256, 2) == 0x10000) by {
        vstd::arithmetic::power::lemma_pow1(256);
        lemma_pow_adds(256, 1, 1);
    }
    assert(pow(256, 4) == 0x100000000) by {
        lemma_pow_adds(256, 2, 2);
    }
    assert(pow(256, 8) == 0x10000000000000000) by {
        lemma_pow_adds(256, 4, 4);
    }
    lemma_pow_adds(256, 8, 8);
    vstd::arithmetic::power::lemma_pow_positive(256, k);
    vstd::arithmetic::power::lemma_pow_increases(256, k, 16);
}

/// `256^k` as a `u128`.
fn pow256_u128(k: u32) -> (r: u128)
    requires
        k <= 15,
    ensures
        r as nat == pow(256, k as nat),
        r >= 1,
{
    proof {
        crate::nums::lemma_shl_one_is_pow2((8 * k) as u128);
        lemma_pow2_is_pow256(k as nat);
    }
    1u128 << ((8 * k) as u128)
}

/// Eight bits per byte: `2^(8k)` is `256^k`.
proof fn lemma_pow2_is_pow256(k: nat)
    ensures
        vstd::arithmetic::power2::pow2(8 * k) == pow(256, k),
{
    vstd::arithmetic::power2::lemma_pow2(8 * k);
    vstd::arithmetic::power::lemma_pow_multiplies(2, 8, k);
    assert(pow(2, 1) == 2) by {
        vstd::arithmetic::power::lemma_pow1(2);
    }
    assert(pow(2, 2) == 4) by {
        lemma_pow_adds(2, 1, 1);
    }
    assert(pow(2, 4) == 16) by {
        lemma_pow_adds(2, 2, 2);
    }
    assert(pow(2, 8) == 256) by {
        lemma_pow_adds(2, 4, 4);
    }
}

impl F128 {
    /// A number from a byte array in big-endian byte order.
    pub fn from_be_bytes(bytes: [u8; 16]) -> (r: F128)
        ensures
            r.spec_bits() as nat == be_bytes_val(bytes@),
    {
        let mut acc: u128 = 0;
        let mut i: usize = 0;
        proof {
            assert(bytes@.take(0) =~= Seq::<u8>::empty());
            lemma_pow256_values(0);
        }
        while i < 16
            invariant
                bytes@.len() == 16,
                0 <= i <= 16,
                acc as nat == be_bytes_val(bytes@.take(i as int)),
                (acc as nat) < pow(256, i as nat),
            decreases 16 - i,
        {
            proof {
                assert(bytes@.take(i + 1).drop_last() =~= bytes@.take(i as int));
                assert(bytes@.take(i + 1).last() == bytes@[i as int]);
                lemma_be_bytes_val_bound(bytes@.take(i + 1));
                lemma_pow256_values((i + 1) as nat);
            }
            acc = acc * 256 + (bytes[i] as u128);
            i = i + 1;
        }
        proof {
            assert(bytes@.take(16) =~= bytes@);
        }
        F128 { bits: acc }
    }

    /// A number from a byte array in little-endian byte order.
    pub fn from_le_bytes(bytes: [u8; 16]) -> (r: F128)
        ensures
            r.spec_bits() as nat == le_bytes_val(bytes@),
    {
        let mut acc: u128 = 0;
        let mut i: usize = 0;
        proof {
            assert(bytes@.take(0) =~= Seq::<u8>::empty());
            lemma_pow256_values(0);
        }
        while i < 16
            invariant
                bytes@.len() == 16,
                0 <= i <= 16,
                acc as nat == le_bytes_val(bytes@.take(i as int)),
                (acc as nat) < pow(256, i as nat),
            decreases 16 - i,
        {
            let p = pow256_u128(i as u32);
            proof {
                assert(bytes@.take(i + 1).drop_last() =~= bytes@.take(i as int));
                assert(bytes@.take(i + 1).last() == bytes@[i as int]);
                lemma_le_bytes_val_bound(bytes@.take(i + 1));
                lemma_pow256_values((i + 1) as nat);
                assert((bytes@[i as int] as nat) * (p as nat) <= 255 * (p as nat)) by {
                    vstd::arithmetic::mul::lemma_mul_inequality(
                        bytes@[i as int] as int,
                        255,
                        p as int,
                    );
                    vstd::arithmetic::mul::lemma_mul_is_commutative(bytes@[i as int] as int, p as int);
                    vstd::arithmetic::mul::lemma_mul_is_commutative(255, p as int);
                }
                lemma_pow_adds(256, i as nat, 1);
                vstd::arithmetic::power::lemma_pow1(256);
                assert(255 * (p as nat) + (p as nat) == 256 * (p as nat));
                vstd::arithmetic::mul::lemma_mul_is_commutative(256, p as int);
            }
            acc = acc + (bytes[i] as u128) * p;
            i = i + 1;
        }
        proof {
            assert(bytes@.take(16) =~= bytes@);
        }
        F128 { bits: acc }
    }

    /// The memory representation as a byte array in big-endian byte order.
    pub fn to_be_bytes(self) -> (r: [u8; 16])
        ensures
            be_bytes_val(r@) == self.spec_bits() as nat,
            r@.len() == 16,
    {
        let mut out: [u8; 16] = [0; 16];
        let mut v = self.bits;
        let mut i: usize = 0;
        proof {
            assert(out@.take(0) =~= Seq::<u8>::empty());
            lemma_pow256_values(16);
            assert((self.bits as int) / pow(256, 16) == 0 && (self.bits as int) % pow(256, 16)
                == self.bits as int) by {
                vstd::arithmetic::div_mod::lemma_fundamental_div_mod_converse(
                    self.bits as int,
                    pow(256, 16),
                    0,
                    self.bits as int,
                );
                vstd::arithmetic::mul::lemma_mul_by_zero_is_zero(pow(256, 16));
            }
        }
        while i < 16
            invariant
                out@.len() == 16,
                0 <= i <= 16,
                be_bytes_val(out@.take(i as int)) as int == (self.spec_bits() as int) / pow(
                    256,
                    (16 - i) as nat,
                ),
                v as int == (self.spec_bits() as int) % pow(256, (16 - i) as nat),
                v == self.bits || i > 0,
            decreases 16 - i,
        {
            let ghost out0 = out@;
            let ghost x = self.spec_bits() as int;
            let p = pow256_u128((15 - i) as u32);
            proof {
                lemma_pow256_values((15 - i) as nat);
                lemma_pow256_values((16 - i) as nat);
                lemma_pow_adds(256, (15 - i) as nat, 1);
                vstd::arithmetic::power::lemma_pow1(256);
                // the top byte of the residue is the next digit
                vstd::arithmetic::div_mod::lemma_mod_bound(x, pow(256, (16 - i) as nat));
                assert((v as int) / (p as int) < 256) by {
                    vstd::arithmetic::div_mod::lemma_multiply_divide_lt(v as int, p as int, 256);
                    vstd::arithmetic::mul::lemma_mul_is_commutative(p as int, 256);
                }
            }
            let digit = (v / p) as u8;
            out[i] = digit;
            v = v % p;
            i = i + 1;
            proof {
                let pi = p as int;
                let pbig = pow(256, (17 - i) as nat);
                assert(out@.take(i as int).drop_last() =~= out0.take(i - 1));
                assert(out@.take(i as int).last() == digit);
                // x / 256^(16-i) splits into the carried quotient and digit
                vstd::arithmetic::div_mod::lemma_fundamental_div_mod(x, pbig);
                vstd::arithmetic::div_mod::lemma_mod_bound(x, pbig);
                let q = x / pbig;
                let rr = x % pbig;
                assert(pbig == 256 * pi);
                assert(rr / pi + q * 256 == (rr + (q * 256) * pi) / pi) by {
                    vstd::arithmetic::div_mod::lemma_hoist_over_denominator(rr, q * 256, p as nat);
                }
                assert((rr + (q * 256) * pi) == x) by (nonlinear_arith)
                    requires
                        x == pbig * q + rr,
                        pbig == 256 * pi,
                ;
                assert(x / pi == rr / pi + q * 256);
                // and the residue against the smaller power carries down
                assert(rr % pi == x % pi) by {
                    vstd::arithmetic::div_mod::lemma_mod_mod(x, pi, 256);
                    vstd::arithmetic::mul::lemma_mul_is_commutative(256, pi);
                    assert(x % (pi * 256) == x % pbig);
                }
                vstd::arithmetic::div_mod::lemma_fundamental_div_mod(rr, pi);
                assert(be_bytes_val(out@.take(i as int)) as int == (x / pbig) * 256 + (digit as int));
            }
        }
        proof {
            assert(out@.take(16) =~= out@);
            assert(pow(256, 0) == 1) by {
                vstd::arithmetic::power::lemma_pow0(256);
            }
            assert((self.spec_bits() as int) / 1 == self.spec_bits() as int
                && (self.spec_bits() as int) % 1 == 0) by {
                vstd::arithmetic::div_mod::lemma_fundamental_div_mod_converse(
                    self.spec_bits() as int,
                    1,
                    self.spec_bits() as int,
                    0,
                );
            }
        }
        out
    }

    /// The memory representation as a byte array in little-endian byte
    /// order.
    pub fn to_le_bytes(self) -> (r: [u8; 16])
        ensures
            le_bytes_val(r@) == self.spec_bits() as nat,
            r@.len() == 16,
    {
        let mut out: [u8; 16] = [0; 16];
        let mut v = self.bits;
        let mut i: usize = 0;
        proof {
            assert(out@.take(0) =~= Seq::<u8>::empty());
            lemma_pow256_values(16);
            assert(pow(256, 0) == 1) by {
                vstd::arithmetic::power::lemma_pow0(256);
            }
            vstd::arithmetic::mul::lemma_mul_basics(self.bits as int);
        }
        while i < 16
            invariant
                out@.len() == 16,
                0 <= i <= 16,
                le_bytes_val(out@.take(i as int)) as int + (v as int) * pow(256, i as nat)
                    == self.spec_bits() as int,
                (v as nat) < pow(256, (16 - i) as nat),
            decreases 16 - i,
        {
            let ghost out0 = out@;
            let ghost vold = v as int;
            let digit = (v % 256) as u8;
            out[i] = digit;
            v = v / 256;
            i = i + 1;
            proof {
                let pi1 = pow(256, (i - 1) as nat);
                assert(out@.take(i as int).drop_last() =~= out0.take(i - 1));
                assert(out@.take(i as int).last() == digit);
                vstd::arithmetic::div_mod::lemma_fundamental_div_mod(vold, 256);
                lemma_pow_adds(256, (i - 1) as nat, 1);
                vstd::arithmetic::power::lemma_pow1(256);
                lemma_pow_positive(256, (i - 1) as nat);
                // the split residue keeps the running total
                assert((digit as int + 256 * (v as int)) * pi1 == (digit as int) * pi1 + (
                v as int) * (pi1 * 256)) by (nonlinear_arith);
                vstd::arithmetic::mul::lemma_mul_is_commutative(pi1, 256);
                // and shrinks below the remaining places
                assert((v as nat) < pow(256, (16 - i) as nat)) by {
                    assert(vold < pow(256, (16 - i) as nat) * 256) by {
                        lemma_pow_adds(256, (16 - i) as nat, 1);
                        vstd::arithmetic::mul::lemma_mul_is_commutative(
                            pow(256, (16 - i) as nat),
                            256,
                        );
                    }
                    vstd::arithmetic::div_mod::lemma_multiply_divide_lt(
                        vold,
                        256,
                        pow(256, (16 - i) as nat),
                    );
                }
            }
        }
        proof {
            assert(out@.take(16) =~= out@);
            vstd::arithmetic::mul::lemma_mul_by_zero_is_zero(pow(256, 16));
        }
        out
    }
}

/// What `total_cmp` returns, over the raw patterns.
pub open spec fn total_cmp_spec(a: u128, b: u128) -> core::cmp::Ordering {
    let a_neg = sign_field(a) == 1;
    let b_neg = sign_field(b) == 1;
    if !a_neg && !b_neg {
        cmp_bits_spec(a, b)
    } else if a_neg && b_neg {
        cmp_bits_spec(b, a)
    } else if !a_neg {
        core::cmp::Ordering::Greater
    } else {
        core::cmp::Ordering::Less
    }
}

pub open spec fn cmp_bits_spec(a: u128, b: u128) -> core::cmp::Ordering {
    if a < b {
        core::cmp::Ordering::Less
    } else if a > b {
        core::cmp::Ordering::Greater
    } else {
        core::cmp::Ordering::Equal
    }
}

/// Three-way comparison of raw patterns.
pub fn cmp_bits(a: u128, b: u128) -> (r: core::cmp::Ordering)
    ensures
        r == cmp_bits_spec(a, b),
{
    if a < b {
        core::cmp::Ordering::Less
    } else if a > b {
        core::cmp::Ordering::Greater
    } else {
        core::cmp::Ordering::Equal
    }
}

impl PartialEq for F128 {
    /// Equality of the numbers: NaNs equal nothing, and the two zeros are
    /// one value.
    fn eq(&self, other: &F128) -> (r: bool) {
        if self.is_nan() || other.is_nan() {
            return false;
        }
        proof {
            lemma_fields(self.bits);
            lemma_fields(other.bits);
        }
        let a = self.bits;
        let b = other.bits;
        if a % SIGN_MASK == 0 && b % SIGN_MASK == 0 {
            return true;
        }
        a == b
    }
}

impl vstd::std_specs::cmp::PartialEqSpecImpl for F128 {
    open spec fn obeys_eq_spec() -> bool {
        true
    }

    open spec fn eq_spec(&self, other: &F128) -> bool {
        f128_eq_spec(self.spec_bits(), other.spec_bits())
    }
}

/// What `==` means on the type: numeric equality of non-NaN patterns.
pub open spec fn f128_eq_spec(a: u128, b: u128) -> bool {
    &&& !(exp_field(a) == 0x7FFF && mant_field(a) != 0)
    &&& !(exp_field(b) == 0x7FFF && mant_field(b) != 0)
    &&& (a == b || (abs_bits(a) == 0 && abs_bits(b) == 0))
}

impl PartialOrd for F128 {
    /// Order of the numbers: none against a NaN, the zeros equal, and
    /// otherwise the total order of each sign's range.
    fn partial_cmp(&self, other: &F128) -> (r: Option<core::cmp::Ordering>) {
        if self.is_nan() || other.is_nan() {
            return None;
        }
        proof {
            lemma_fields(self.bits);
            lemma_fields(other.bits);
        }
        let a = self.bits;
        let b = other.bits;
        if a % SIGN_MASK == 0 && b % SIGN_MASK == 0 {
            return Some(core::cmp::Ordering::Equal);
        }
        let a_neg = a >= SIGN_MASK;
        let b_neg = b >= SIGN_MASK;
        if !a_neg && !b_neg {
            Some(cmp_bits(a, b))
        } else if a_neg && b_neg {
            Some(cmp_bits(b, a))
        } else if !a_neg {
            Some(core::cmp::Ordering::Greater)
        } else {
            Some(core::cmp::Ordering::Less)
        }
    }
}

impl vstd::std_specs::cmp::PartialOrdSpecImpl for F128 {
    open spec fn obeys_partial_cmp_spec() -> bool {
        true
    }

    open spec fn partial_cmp_spec(&self, other: &F128) -> Option<core::cmp::Ordering> {
        f128_partial_cmp_spec(self.spec_bits(), other.spec_bits())
    }
}

/// What `partial_cmp` returns, over the raw patterns.
pub open spec fn f128_partial_cmp_spec(a: u128, b: u128) -> Option<core::cmp::Ordering> {
    if (exp_field(a) == 0x7FFF && mant_field(a) != 0) || (exp_field(b) == 0x7FFF && mant_field(b)
        != 0) {
        None
    } else if abs_bits(a) == 0 && abs_bits(b) == 0 {
        Some(core::cmp::Ordering::Equal)
    } else if sign_field(a) == 0 && sign_field(b) == 0 {
        Some(cmp_bits_spec(a, b))
    } else if sign_field(a) == 1 && sign_field(b) == 1 {
        Some(cmp_bits_spec(b, a))
    } else if sign_field(a) == 0 {
        Some(core::cmp::Ordering::Greater)
    } else {
        Some(core::cmp::Ordering::Less)
    }
}

/// How the three fields of a pattern relate to its masked forms.
proof fn lemma_fields(b: u128)
    ensures
        sign_field(b) == b / 0x80000000000000000000000000000000,
        sign_field(b) <= 1,
        exp_field(b) <= 0x7FFF,
        mant_field(b) <= 0xFFFFFFFFFFFFFFFFFFFFFFFFFFFF,
        abs_bits(b) == exp_field(b) * 0x10000000000000000000000000000 + mant_field(b),
        b == sign_field(b) * 0x80000000000000000000000000000000 + abs_bits(b),
        (abs_bits(b) > 0x7FFF0000000000000000000000000000) == (exp_field(b) == 0x7FFF
            && mant_field(b) != 0),
        (abs_bits(b) == 0x7FFF0000000000000000000000000000) == (exp_field(b) == 0x7FFF
            && mant_field(b) == 0),
        (abs_bits(b) < 0x7FFF0000000000000000000000000000) == (exp_field(b) != 0x7FFF),
        (abs_bits(b) == 0) == (exp_field(b) == 0 && mant_field(b) == 0),
        (0 < abs_bits(b) && abs_bits(b) < 0x10000000000000000000000000000) == (exp_field(b) == 0
            && mant_field(b) != 0),
        (0x10000000000000000000000000000 <= abs_bits(b) && abs_bits(b)
            <= 0x7FFF0000000000000000000000000000 - 1) == (1 <= exp_field(b) && exp_field(b)
            <= 0x7FFE),
        exp_field(b) == (abs_bits(b) / 0x10000000000000000000000000000),
        mant_field(b) == abs_bits(b) % 0x10000000000000000000000000000,
{
    let p112: int = 0x10000000000000000000000000000;
    let p127: int = 0x80000000000000000000000000000000;
    lemma_fundamental_div_mod(b as int, p127);
    lemma_mod_bound(b as int, p127);
    lemma_fundamental_div_mod(b as int, p112);
    lemma_mod_bound(b as int, p112);
    lemma_fundamental_div_mod((b as int) / p112, 0x8000);
    lemma_mod_bound((b as int) / p112, 0x8000);
    vstd::arithmetic::div_mod::lemma_div_pos_is_pos(b as int, p112);
    vstd::arithmetic::div_mod::lemma_div_pos_is_pos(b as int, p127);
    // split b along the significand boundary, then the top of the exponent
    let q = (b as int) / p112;
    let m = (b as int) % p112;
    let s = q / 0x8000;
    let e = q % 0x8000;
    assert(b == (s * 0x8000 + e) * p112 + m) by (nonlinear_arith)
        requires
            b == p112 * q + m,
            q == 0x8000 * s + e,
    ;
    assert((s * 0x8000 + e) * p112 == s * p127 + e * p112) by (nonlinear_arith)
        requires
            p127 == 0x8000 * p112,
    ;
    assert(s <= 1) by {
        if s >= 2 {
            assert(s * p127 >= 2 * p127) by (nonlinear_arith)
                requires
                    s >= 2,
                    p127 > 0,
            ;
            assert(e * p112 >= 0) by (nonlinear_arith)
                requires
                    e >= 0,
                    p112 > 0,
            ;
        }
    }
    assert(e * p112 + m < p127) by (nonlinear_arith)
        requires
            e <= 0x7FFF,
            m < p112,
            p112 > 0,
            p127 == 0x8000 * p112,
    ;
    assert(e * p112 + m >= 0) by (nonlinear_arith)
        requires
            e >= 0,
            m >= 0,
            p112 > 0,
    ;
    vstd::arithmetic::div_mod::lemma_fundamental_div_mod_converse(
        b as int,
        p127,
        s,
        e * p112 + m,
    );
    vstd::arithmetic::div_mod::lemma_fundamental_div_mod_converse(e * p112 + m, p112, e, m);
    // the field comparisons against the masked pattern
    assert(e == 0x7FFF && m > 0 ==> e * p112 + m > 0x7FFF * p112);
    assert(e * p112 + m > 0x7FFF * p112 ==> e == 0x7FFF && m > 0) by {
        if e < 0x7FFF {
            assert(e * p112 + m <= 0x7FFE * p112 + m) by (nonlinear_arith)
                requires
                    e <= 0x7FFE,
                    p112 > 0,
            ;
        }
    }
    assert(e * p112 + m < p112 <==> e == 0) by {
        if e >= 1 {
            assert(e * p112 >= p112) by (nonlinear_arith)
                requires
                    e >= 1,
                    p112 > 0,
            ;
        }
    }
    assert((p112 <= e * p112 + m && e * p112 + m <= 0x7FFF * p112 - 1) <==> (1 <= e && e
        <= 0x7FFE)) by {
        if e >= 1 {
            assert(e * p112 >= p112) by (nonlinear_arith)
                requires
                    e >= 1,
                    p112 > 0,
            ;
        }
        if e <= 0x7FFE {
            assert(e * p112 + m <= 0x7FFE * p112 + m) by (nonlinear_arith)
                requires
                    e <= 0x7FFE,
                    p112 > 0,
            ;
        }
        if e >= 0x7FFF {
            assert(e * p112 >= 0x7FFF * p112) by (nonlinear_arith)
                requires
                    e >= 0x7FFF,
                    p112 > 0,
            ;
        }
    }
}

} // verus!
