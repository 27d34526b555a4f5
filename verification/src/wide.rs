//! Double-width arithmetic over pairs of `u128` words: full multiply,
//! shifts, and division with exact remainder, used by the decimal rounding
//! engine at the largest storage width.

use vstd::prelude::*;

use crate::arith::lemma_div_mod_scale;
use crate::nums::{lemma_pow2_128, lemma_pow2_fits_u128, pow2_u128};
use vstd::arithmetic::div_mod::{
    lemma_div_denominator, lemma_fundamental_div_mod, lemma_fundamental_div_mod_converse,
};
use vstd::arithmetic::mul::{lemma_mul_inequality, lemma_mul_is_commutative};
use vstd::arithmetic::power2::{lemma_pow2_adds, lemma_pow2_pos, pow2};

verus! {

/// The number a two-word pair stands for: `hi * 2^128 + lo`.
pub open spec fn wide_val(hi: u128, lo: u128) -> int {
    hi * pow2(128) + lo
}

/// The full 256-bit product of two words, by four partial products over
/// 64-bit halves with carry propagation.
#[verifier::rlimit(60)]
pub fn mul_hi_lo(lhs: u128, rhs: u128) -> (r: (u128, u128))
    ensures
        wide_val(r.0, r.1) == lhs * rhs,
{
    proof {
        lemma_pow2_128();
        vstd::arithmetic::power2::lemma2_to64_rest();
    }
    let p64 = pow2_u128(64);
    let lhs_hi = lhs / p64;
    let lhs_lo = lhs % p64;
    let rhs_hi = rhs / p64;
    let rhs_lo = rhs % p64;
    proof {
        lemma_fundamental_div_mod(lhs as int, p64 as int);
        lemma_fundamental_div_mod(rhs as int, p64 as int);
        vstd::arithmetic::div_mod::lemma_mod_bound(lhs as int, p64 as int);
        vstd::arithmetic::div_mod::lemma_mod_bound(rhs as int, p64 as int);
        assert((lhs_hi as int) < p64 as int) by {
            vstd::arithmetic::div_mod::lemma_multiply_divide_lt(lhs as int, p64 as int, p64 as int);
        }
        assert((rhs_hi as int) < p64 as int) by {
            vstd::arithmetic::div_mod::lemma_multiply_divide_lt(rhs as int, p64 as int, p64 as int);
        }
        assert(forall|a: int, b: int|
            0 <= a < 0x10000000000000000 && 0 <= b < 0x10000000000000000 ==> #[trigger] (a * b)
                <= 0xfffffffffffffffe0000000000000001) by {
            assert forall|a: int, b: int|
                0 <= a < 0x10000000000000000 && 0 <= b < 0x10000000000000000 implies #[trigger] (a
                * b) <= 0xfffffffffffffffe0000000000000001 by {
                if a > 0 && b > 0 {
                    lemma_mul_inequality(a, 0xffffffffffffffff, b);
                    lemma_mul_inequality(b, 0xffffffffffffffff, 0xffffffffffffffff);
                    lemma_mul_is_commutative(a, b);
                    lemma_mul_is_commutative(b, 0xffffffffffffffff);
                } else {
                    vstd::arithmetic::mul::lemma_mul_nonnegative(a, b);
                    if a == 0 {
                        vstd::arithmetic::mul::lemma_mul_by_zero_is_zero(b);
                    }
                    if b == 0 {
                        vstd::arithmetic::mul::lemma_mul_by_zero_is_zero(a);
                    }
                }
            }
        }
    }
    let ll = lhs_lo * rhs_lo;
    let hl = lhs_hi * rhs_lo;
    let lh = lhs_lo * rhs_hi;
    let hh = lhs_hi * rhs_hi;
    let ll_hi = ll / p64;
    let ll_lo = ll % p64;
    let partial = hl + ll_hi;
    // carry from the middle column
    let (mid, carry) = if partial > u128::MAX - lh {
        (partial - (u128::MAX - lh) - 1, true)
    } else {
        (partial + lh, false)
    };
    let mid_hi = mid / p64;
    let mid_lo = mid % p64;
    let ans_lo = mid_lo * p64 + ll_lo;
    let ans_hi = hh + mid_hi + if carry {
        p64
    } else {
        0
    };
    proof {
        let p = p64 as int;
        let pp = pow2(128) as int;
        lemma_pow2_adds(64, 64);
        assert(pp == p * p);
        lemma_fundamental_div_mod(ll as int, p);
        vstd::arithmetic::div_mod::lemma_mod_bound(ll as int, p);
        lemma_fundamental_div_mod(mid as int, p);
        vstd::arithmetic::div_mod::lemma_mod_bound(mid as int, p);
        let carryv: int = if carry {
            1int
        } else {
            0int
        };
        assert(mid as int + carryv * pp == hl as int + ll_hi as int + lh as int) by {
            if carry {
            } else {
            }
        }
        // assemble: lhs * rhs over the four partial products
        assert((lhs as int) * (rhs as int) == ((hh as int) * p + (hl as int) + (lh as int)) * p
            + ll as int) by (nonlinear_arith)
            requires
                lhs as int == p * (lhs_hi as int) + (lhs_lo as int),
                rhs as int == p * (rhs_hi as int) + (rhs_lo as int),
                ll as int == (lhs_lo as int) * (rhs_lo as int),
                hl as int == (lhs_hi as int) * (rhs_lo as int),
                lh as int == (lhs_lo as int) * (rhs_hi as int),
                hh as int == (lhs_hi as int) * (rhs_hi as int),
        ;
        assert((ans_hi as int) * pp + (ans_lo as int) == ((hh as int) * p + (hl as int) + (
        lh as int)) * p + ll as int) by (nonlinear_arith)
            requires
                pp == p * p,
                ans_hi as int == hh as int + mid_hi as int + carryv * p,
                ans_lo as int == (mid_lo as int) * p + (ll_lo as int),
                mid as int == p * (mid_hi as int) + (mid_lo as int),
                mid as int + carryv * pp == hl as int + ll_hi as int + lh as int,
                ll as int == p * (ll_hi as int) + (ll_lo as int),
        ;
    }
    (ans_hi, ans_lo)
}

/// Add a single word into a pair.
pub fn wide_add_small(hi: u128, lo: u128, add: u128) -> (r: (u128, u128))
    requires
        wide_val(hi, lo) + add < pow2(128) as int * pow2(128) as int,
    ensures
        wide_val(r.0, r.1) == wide_val(hi, lo) + add,
{
    proof {
        lemma_pow2_128();
    }
    if lo > u128::MAX - add {
        proof {
            assert((hi as int) < pow2(128) - 1) by {
                assert((hi as int) * (pow2(128) as int) + lo + add >= (hi as int) * (pow2(
                    128,
                ) as int));
                if hi as int >= pow2(128) - 1 {
                    lemma_mul_inequality(pow2(128) as int - 1, hi as int, pow2(128) as int);
                    lemma_mul_is_commutative(pow2(128) as int - 1, pow2(128) as int);
                    lemma_mul_is_commutative(hi as int, pow2(128) as int);
                }
            }
        }
        (hi + 1, lo - (u128::MAX - add) - 1)
    } else {
        (hi, lo + add)
    }
}

/// Shift a pair left by `k` bits; the value must stay inside two words.
pub fn wide_shl(hi: u128, lo: u128, k: u32) -> (r: (u128, u128))
    requires
        k < 128,
        wide_val(hi, lo) * pow2(k as nat) < pow2(128) as int * pow2(128) as int,
    ensures
        wide_val(r.0, r.1) == wide_val(hi, lo) * pow2(k as nat),
{
    proof {
        lemma_pow2_128();
        lemma_pow2_pos(k as nat);
        lemma_pow2_pos((128 - k) as nat);
    }
    if k == 0 {
        proof {
            assert(pow2(0) == 1) by {
                vstd::arithmetic::power2::lemma2_to64();
            }
        }
        return (hi, lo);
    }
    let pk = pow2_u128(k);
    let pc = pow2_u128(128 - k);
    proof {
        lemma_pow2_adds((128 - k) as nat, k as nat);
        lemma_fundamental_div_mod(lo as int, pc as int);
        vstd::arithmetic::div_mod::lemma_mod_bound(lo as int, pc as int);
        assert(((lo % pc) as int) * (pk as int) < pow2(128) as int) by {
            crate::arith::lemma_mul_lt((lo % pc) as int, pc as int, pk as int);
        }
        assert(((lo as int) / (pc as int)) < pk as int) by {
            vstd::arithmetic::div_mod::lemma_multiply_divide_lt(lo as int, pc as int, pk as int);
        }
        assert(((lo as int) / (pc as int)) * (pc as int) <= lo as int);
        assert((hi as int) * (pk as int) + ((lo as int) / (pc as int)) < pow2(128) as int)
            by (nonlinear_arith)
            requires
                wide_val(hi, lo) == (hi as int) * (pow2(128) as int) + lo,
                wide_val(hi, lo) * (pow2(k as nat) as int) < pow2(128) as int * pow2(128) as int,
                pk as int == pow2(k as nat) as int,
                ((lo as int) / (pc as int)) * (pc as int) <= lo as int,
                pow2(128) as int == (pc as int) * (pk as int),
                pk as int >= 1,
                pc as int >= 1,
                pow2(128) as int >= 1,
                hi as int >= 0,
                lo as int >= 0,
        ;
    }
    let new_hi_part = lo / pc;
    let new_lo = (lo % pc) * pk;
    let new_hi = hi * pk + new_hi_part;
    proof {
        let pkc = pc as int;
        assert(((hi as int) * (pk as int) + (new_hi_part as int)) * (pow2(128) as int) + (
        new_lo as int) == wide_val(hi, lo) * (pk as int)) by (nonlinear_arith)
            requires
                wide_val(hi, lo) == (hi as int) * (pow2(128) as int) + lo,
                lo as int == pkc * (new_hi_part as int) + (lo % pc) as int,
                new_lo as int == ((lo % pc) as int) * (pk as int),
                pow2(128) as int == pkc * (pk as int),
        ;
    }
    let new_hi = hi * pk + new_hi_part;
    (new_hi, new_lo)
}

/// Shift a pair right by `k` bits, reporting whether the discarded bits
/// were all zero.
pub fn wide_shr(hi: u128, lo: u128, k: u32) -> (r: (u128, u128, bool))
    requires
        k < 128,
    ensures
        wide_val(r.0, r.1) == wide_val(hi, lo) / pow2(k as nat) as int,
        r.2 <==> wide_val(hi, lo) % pow2(k as nat) as int == 0,
{
    proof {
        lemma_pow2_128();
        lemma_pow2_pos(k as nat);
        lemma_pow2_pos((128 - k) as nat);
    }
    if k == 0 {
        proof {
            assert(pow2(0) == 1) by {
                vstd::arithmetic::power2::lemma2_to64();
            }
            lemma_fundamental_div_mod_converse(wide_val(hi, lo), 1, wide_val(hi, lo), 0);
            vstd::arithmetic::mul::lemma_mul_nonnegative(hi as int, pow2(128) as int);
        }
        return (hi, lo, true);
    }
    let pk = pow2_u128(k);
    let pc = pow2_u128(128 - k);
    proof {
        let pki = pk as int;
        let pci = pc as int;
        let pp = pow2(128) as int;
        lemma_pow2_adds(k as nat, (128 - k) as nat);
        assert(pp == pki * pci);
        lemma_fundamental_div_mod(hi as int, pki);
        lemma_fundamental_div_mod(lo as int, pki);
        vstd::arithmetic::div_mod::lemma_mod_bound(hi as int, pki);
        vstd::arithmetic::div_mod::lemma_mod_bound(lo as int, pki);
        assert((lo as int) / pki < pci) by {
            vstd::arithmetic::div_mod::lemma_multiply_divide_lt(lo as int, pki, pci);
        }
        assert(((hi % pk) as int) * pci + (lo as int) / pki < pp) by (nonlinear_arith)
            requires
                (hi % pk) as int <= pki - 1,
                (lo as int) / pki < pci,
                pki >= 1,
                pci >= 1,
                pp == pki * pci,
        ;
    }
    let new_hi = hi / pk;
    let new_lo = (hi % pk) * pc + lo / pk;
    let exact = lo % pk == 0;
    proof {
        let pki = pk as int;
        let pci = pc as int;
        let pp = pow2(128) as int;
        // the quotient and remainder of the whole pair by 2^k
        assert(((hi % pk) as int) * pp == pki * (((hi % pk) as int) * pci)) by (nonlinear_arith)
            requires
                pp == pki * pci,
        ;
        assert((hi as int) * pp == pki * (((hi as int) / pki) * pp) + ((hi % pk) as int) * pp) by {
            vstd::arithmetic::mul::lemma_mul_is_distributive_add_other_way(
                pp,
                pki * ((hi as int) / pki),
                (hi as int) % pki,
            );
            vstd::arithmetic::mul::lemma_mul_is_associative(pki, (hi as int) / pki, pp);
        }
        assert(wide_val(hi, lo) == pki * ((new_hi as int) * pp + (new_lo as int)) + (lo as int)
            % pki) by (nonlinear_arith)
            requires
                wide_val(hi, lo) == (hi as int) * pp + lo,
                (hi as int) * pp == pki * (((hi as int) / pki) * pp) + ((hi % pk) as int) * pp,
                ((hi % pk) as int) * pp == pki * (((hi % pk) as int) * pci),
                lo as int == pki * ((lo as int) / pki) + (lo as int) % pki,
                new_hi as int == (hi as int) / pki,
                new_lo as int == ((hi % pk) as int) * pci + (lo as int) / pki,
        ;
        assert(wide_val(hi, lo) >= 0) by {
            vstd::arithmetic::mul::lemma_mul_nonnegative(hi as int, pp);
        }
        assert((new_hi as int) * pp + (new_lo as int) >= 0) by {
            vstd::arithmetic::mul::lemma_mul_nonnegative(new_hi as int, pp);
        }
        lemma_fundamental_div_mod_converse(
            wide_val(hi, lo),
            pki,
            (new_hi as int) * pp + (new_lo as int),
            (lo as int) % pki,
        );
    }
    (new_hi, new_lo, exact)
}

/// Divide a pair by a single word, producing the one-word quotient and the
/// exact remainder, by binary long division over the low word's bits.
#[verifier::rlimit(60)]
pub fn div_rem_wide(hi: u128, lo: u128, d: u128) -> (r: (u128, u128))
    requires
        1 <= d,
        (d as nat) < pow2(127),
        hi < d,
    ensures
        r.0 as int == wide_val(hi, lo) / (d as int),
        r.1 as int == wide_val(hi, lo) % (d as int),
{
    proof {
        lemma_pow2_128();
        lemma_pow2_fits_u128(127);
        vstd::arithmetic::mul::lemma_mul_nonnegative(hi as int, pow2(128) as int);
    }
    let mut q: u128 = 0;
    let mut rem: u128 = hi;
    let mut i: u32 = 0;
    let ghost v = wide_val(hi, lo);
    proof {
        assert(v / (pow2(128) as int) == hi as int && v % (pow2(128) as int) == lo as int) by {
            lemma_fundamental_div_mod_converse(v, pow2(128) as int, hi as int, lo as int);
        }
        assert(pow2(0) == 1) by {
            vstd::arithmetic::power2::lemma2_to64();
        }
    }
    while i < 128
        invariant
            0 <= i <= 128,
            1 <= d,
            (d as nat) < pow2(127),
            rem < d,
            (q as nat) < pow2(i as nat),
            v == wide_val(hi, lo),
            v >= 0,
            v / (pow2((128 - i) as nat) as int) == (q as int) * (d as int) + (rem as int),
            v % (pow2(128) as int) == lo as int,
        decreases 128 - i,
    {
        proof {
            lemma_pow2_pos((128 - i) as nat);
            lemma_pow2_pos((127 - i) as nat);
            lemma_pow2_pos(i as nat);
            lemma_pow2_fits_u128((127 - i) as nat);
        }
        let bit: u128 = (lo / pow2_u128(127 - i)) % 2;
        proof {
            // the next quotient bit of the value is the next bit of lo
            let ph = pow2((128 - i) as nat) as int;
            let ph1 = pow2((127 - i) as nat) as int;
            assert(ph == 2 * ph1) by {
                lemma_pow2_adds((127 - i) as nat, 1);
                assert(pow2(1) == 2) by {
                    vstd::arithmetic::power2::lemma2_to64();
                }
                lemma_mul_is_commutative(ph1, 2);
            }
            // v / ph1 == 2 * (v / ph) + bit
            lemma_div_denominator(v, ph1, 2);
            lemma_fundamental_div_mod(v / ph1, 2);
            // the parity of v / ph1 agrees with that of lo / ph1
            assert((v / ph1) % 2 == ((lo as int) / ph1) % 2) by {
                assert(v == (hi as int) * (pow2(128) as int) + (lo as int));
                let pi1 = pow2((i + 1) as nat) as int;
                assert(pow2(128) as int == ph1 * pi1) by {
                    lemma_pow2_adds((127 - i) as nat, (i + 1) as nat);
                }
                assert(v / ph1 == (hi as int) * pi1 + (lo as int) / ph1) by {
                    lemma_fundamental_div_mod(lo as int, ph1);
                    vstd::arithmetic::div_mod::lemma_mod_bound(lo as int, ph1);
                    assert(v == ph1 * ((hi as int) * pi1 + (lo as int) / ph1) + (lo as int) % ph1)
                        by (nonlinear_arith)
                        requires
                            v == (hi as int) * (ph1 * pi1) + (lo as int),
                            lo as int == ph1 * ((lo as int) / ph1) + (lo as int) % ph1,
                    ;
                    lemma_fundamental_div_mod_converse(
                        v,
                        ph1,
                        (hi as int) * pi1 + (lo as int) / ph1,
                        (lo as int) % ph1,
                    );
                }
                assert(pi1 % 2 == 0) by {
                    lemma_pow2_adds(i as nat, 1);
                    assert(pow2(1) == 2) by {
                        vstd::arithmetic::power2::lemma2_to64();
                    }
                    vstd::arithmetic::div_mod::lemma_mod_multiples_basic(
                        pow2(i as nat) as int,
                        2,
                    );
                    lemma_mul_is_commutative(pow2(i as nat) as int, 2);
                }
                assert(((hi as int) * pi1) % 2 == 0) by {
                    let hf = pi1 / 2;
                    assert(pi1 == 2 * hf);
                    assert((hi as int) * pi1 == 2 * ((hi as int) * hf)) by (nonlinear_arith)
                        requires
                            pi1 == 2 * hf,
                    ;
                    vstd::arithmetic::div_mod::lemma_mod_multiples_basic((hi as int) * hf, 2);
                    lemma_mul_is_commutative((hi as int) * hf, 2);
                }
                vstd::arithmetic::div_mod::lemma_add_mod_noop(
                    (hi as int) * pi1,
                    (lo as int) / ph1,
                    2,
                );
            }
        }
        proof {
            lemma_pow2_128();
            lemma_pow2_adds(127, 1);
            assert(pow2(1) == 2) by {
                vstd::arithmetic::power2::lemma2_to64();
            }
            assert(pow2(128) == 2 * pow2(127)) by {
                vstd::arithmetic::mul::lemma_mul_is_commutative(pow2(127) as int, 2);
            }
            assert((rem as int) * 2 + 1 < pow2(128) as int);
            if (i as nat) < 127 {
                vstd::arithmetic::power2::lemma_pow2_strictly_increases(i as nat, 127);
            }
            assert((q as int) * 2 + 1 < pow2(128) as int);
        }
        let new_rem = rem * 2 + bit;
        let (nq, nrem) = if new_rem >= d {
            (q * 2 + 1, new_rem - d)
        } else {
            (q * 2, new_rem)
        };
        proof {
            let ph = pow2((128 - i) as nat) as int;
            let ph1 = pow2((127 - i) as nat) as int;
            assert(v / ph1 == 2 * (v / ph) + bit);
            assert(v / ph1 == (nq as int) * (d as int) + (nrem as int)) by (nonlinear_arith)
                requires
                    v / ph1 == 2 * (v / ph) + bit,
                    v / ph == (q as int) * (d as int) + (rem as int),
                    (new_rem as int) == (rem as int) * 2 + bit,
                    nq as int == if (new_rem as int) >= d as int {
                        (q as int) * 2 + 1
                    } else {
                        (q as int) * 2
                    },
                    nrem as int == if (new_rem as int) >= d as int {
                        (new_rem as int) - d as int
                    } else {
                        new_rem as int
                    },
            ;
            lemma_pow2_adds(i as nat, 1);
            assert(pow2(1) == 2) by {
                vstd::arithmetic::power2::lemma2_to64();
            }
        }
        q = nq;
        rem = nrem;
        i = i + 1;
    }
    proof {
        assert(pow2(0) == 1) by {
            vstd::arithmetic::power2::lemma2_to64();
        }
        assert(v / 1 == v) by {
            lemma_fundamental_div_mod_converse(v, 1, v, 0);
        }
        lemma_fundamental_div_mod_converse(v, d as int, q as int, rem as int);
    }
    (q, rem)
}

} // verus!
