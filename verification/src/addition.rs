//! The addition gadget's value semantics: exponent alignment with the gap
//! clamped at 64, signed mantissa combination, off-circuit normalization of
//! the magnitude into `[2^52, 2^53)`, and round-to-nearest-even.
//!
//! `normalize_hint` is the pure witness-hint computation whose output the
//! in-circuit constraints check; `FloatVar::add` is the whole gadget's
//! effect on the witness values, proved equal to the closed-form
//! `spec_add`.

use vstd::prelude::*;
use crate::float::{FloatVar, spec_neg};
use crate::arith::{bit_len, pow2_u128, bit_len_u128, lemma_bit_len_bounds, lemma_bit_len_le,
    lemma_bit_len_eq, lemma_pow2_le};
use vstd::arithmetic::power2::{
    pow2, lemma_pow2_adds, lemma2_to64, lemma2_to64_rest, lemma_pow2_pos, lemma_pow2_unfold,
};
use vstd::arithmetic::div_mod::{
    lemma_div_is_ordered, lemma_div_multiples_vanish, lemma_multiply_divide_lt,
    lemma_fundamental_div_mod, lemma_fundamental_div_mod_converse,
    lemma_mod_division_less_than_divisor,
};
use vstd::arithmetic::mul::{lemma_mul_inequality, lemma_mul_strict_inequality};

verus! {

/// Signed mantissa of an operand.
pub open spec fn sval(x: FloatVar) -> int {
    x.sign * x.mantissa
}

/// Exponent gap, clamped at 64.  An operand shifted more than 64 places
/// below a 53-bit mantissa cannot change the rounded sum, so the clamp
/// bounds the width of the in-circuit shift without changing results.
pub open spec fn spec_delta(x: FloatVar, y: FloatVar) -> nat {
    let d = if x.exponent < y.exponent {
        y.exponent - x.exponent
    } else {
        x.exponent - y.exponent
    };
    if d > 64 {
        64
    } else {
        d as nat
    }
}

/// The larger of the two exponents.
pub open spec fn spec_max_exp(x: FloatVar, y: FloatVar) -> int {
    if x.exponent < y.exponent {
        y.exponent as int
    } else {
        x.exponent as int
    }
}

/// The aligned signed sum: the operand with the larger exponent is scaled
/// up by `2^delta`, so both live in the frame of the smaller exponent.
pub open spec fn spec_aligned_sum(x: FloatVar, y: FloatVar) -> int {
    if x.exponent < y.exponent {
        sval(x) + sval(y) * pow2(spec_delta(x, y))
    } else {
        sval(y) + sval(x) * pow2(spec_delta(x, y))
    }
}

/// How far the magnitude must be shifted down (up, when negative) for its
/// leading bit to land at position 52.
pub open spec fn spec_shift(mag: nat) -> int {
    bit_len(mag) - 53
}

/// The normalized quotient: the magnitude shifted into `[2^52, 2^53)`.
pub open spec fn spec_q(mag: nat) -> nat {
    if spec_shift(mag) >= 0 {
        mag / pow2(spec_shift(mag) as nat)
    } else {
        mag * pow2((-spec_shift(mag)) as nat)
    }
}

/// What the downward shift discarded.
pub open spec fn spec_rem(mag: nat) -> nat {
    if spec_shift(mag) >= 0 {
        mag % pow2(spec_shift(mag) as nat)
    } else {
        0
    }
}

/// Half of the rounding unit the discarded remainder is weighed against.
pub open spec fn spec_half_unit(mag: nat) -> nat {
    if spec_shift(mag) > 0 {
        pow2((spec_shift(mag) - 1) as nat)
    } else {
        1
    }
}

/// Round-to-nearest-even increment: round up when the remainder exceeds
/// half a unit; on an exact tie, round up exactly when the quotient is odd,
/// so the kept mantissa ends even.
pub open spec fn spec_round_inc(q: nat, r: nat, u: nat) -> nat {
    if r > u {
        1
    } else if r == u {
        q % 2
    } else {
        0
    }
}

/// The addition gadget's result on well-formed operands.  A cancelled sum
/// yields the positive zero convention `(sign 1, exponent -1023, mantissa
/// 0)`, the encoding of `+0`.
pub open spec fn spec_add(x: FloatVar, y: FloatVar) -> FloatVar {
    let s = spec_aligned_sum(x, y);
    if s == 0 {
        FloatVar { sign: 1, exponent: (-1023) as i64, mantissa: 0 }
    } else {
        let sgn: i64 = if s < 0 {
            (-1) as i64
        } else {
            1
        };
        let mag = (if s < 0 {
            -s
        } else {
            s
        }) as nat;
        let q = spec_q(mag);
        let m = q + spec_round_inc(q, spec_rem(mag), spec_half_unit(mag));
        FloatVar {
            sign: sgn,
            exponent: (spec_max_exp(x, y) + spec_shift(mag) - spec_delta(x, y)) as i64,
            mantissa: m as u64,
        }
    }
}

/// A signed mantissa scaled by at most `2^64` stays within `2^117`.
proof fn lemma_term_bound(s: int, m: int, p: int)
    requires
        s == 1 || s == -1,
        0 <= m < 0x20000000000000,
        0 <= p <= 0x10000000000000000,
    ensures
        -0x200000000000000000000000000000 < s * m * p < 0x200000000000000000000000000000,
{
    assert(-0x200000000000000000000000000000 < s * m * p < 0x200000000000000000000000000000)
        by (nonlinear_arith)
        requires
            s == 1 || s == -1,
            0 <= m < 0x20000000000000,
            0 <= p <= 0x10000000000000000,
    ;
}

/// Multiplying by a unit sign only flips the sign.
pub proof fn lemma_unit_mul(s: int, m: int)
    requires
        s == 1 || s == -1,
    ensures
        s * m == (if s == 1 {
            m
        } else {
            -m
        }),
{
    assert(s * m == (if s == 1 {
        m
    } else {
        -m
    })) by (nonlinear_arith)
        requires
            s == 1 || s == -1,
    ;
}

/// Off-circuit witness hint for addition: from the nonnegative aligned
/// magnitude, the clamped exponent gap, and the larger operand's exponent,
/// computes the normalized quotient, the exponent correction, and the
/// remainder whose correctness the in-circuit constraints then verify.  A
/// cancelled (zero) magnitude takes its exponent correction from the larger
/// operand's exponent so the degenerate result still lands on the fixed
/// zero convention.
pub fn normalize_hint(mag: u128, delta: u64, emax: i64) -> (res: (u64, i64, u128))
    requires
        (mag as nat) < pow2(118),
        delta <= 64,
        -2200 <= emax <= 2200,
    ensures
        mag != 0 ==> res.0 as nat == spec_q(mag as nat) && res.1 as int == spec_shift(mag as nat)
            - delta && res.2 as nat == spec_rem(mag as nat),
        mag != 0 ==> 0x10000000000000 <= res.0 < 0x20000000000000,
        mag == 0 ==> res.0 == 0 && res.1 as int == -1023 - emax && res.2 == 0,
{
    if mag == 0 {
        return (0, -1023 - emax, 0);
    }
    let bl = bit_len_u128(mag);
    proof {
        lemma_bit_len_bounds(mag as nat);
        lemma_bit_len_le(mag as nat, 118);
        lemma2_to64();
        lemma2_to64_rest();
    }
    if bl >= 53 {
        let sh = bl - 53;
        let p2s = pow2_u128(sh);
        proof {
            lemma_pow2_pos(sh as nat);
            lemma_pow2_adds(52, sh as nat);
            lemma_pow2_adds(53, sh as nat);
            lemma_div_multiples_vanish(pow2(52) as int, p2s as int);
            lemma_div_is_ordered((pow2(52) * pow2(sh as nat)) as int, mag as int, p2s as int);
            lemma_multiply_divide_lt(mag as int, p2s as int, pow2(53) as int);
        }
        let q = mag / p2s;
        let r = mag % p2s;
        (q as u64, sh as i64 - delta as i64, r)
    } else {
        let nsh = 53 - bl;
        let p2n = pow2_u128(nsh);
        proof {
            lemma_pow2_pos(nsh as nat);
            lemma_pow2_adds((bl - 1) as nat, nsh as nat);
            lemma_pow2_adds(bl as nat, nsh as nat);
            lemma_mul_inequality(pow2((bl - 1) as nat) as int, mag as int, p2n as int);
            lemma_mul_strict_inequality(mag as int, pow2(bl as nat) as int, p2n as int);
        }
        let q = mag * p2n;
        (q as u64, -(nsh as i64) - (delta as i64), 0)
    }
}

/// A well-formed aligned sum stays strictly inside `2^118`.
pub proof fn lemma_aligned_sum_bound(x: FloatVar, y: FloatVar)
    requires
        x.wf(),
        y.wf(),
    ensures
        -pow2(118) < spec_aligned_sum(x, y) < pow2(118),
{
    lemma2_to64();
    lemma2_to64_rest();
    lemma_pow2_le(spec_delta(x, y), 64);
    lemma_pow2_adds(53, 64);
    lemma_pow2_unfold(118);
    assert(pow2(117) == 0x20000000000000 * 0x10000000000000000);
    lemma_unit_mul(x.sign as int, x.mantissa as int);
    lemma_unit_mul(y.sign as int, y.mantissa as int);
    if x.exponent < y.exponent {
        lemma_term_bound(y.sign as int, y.mantissa as int, pow2(spec_delta(x, y)) as int);
    } else {
        lemma_term_bound(x.sign as int, x.mantissa as int, pow2(spec_delta(x, y)) as int);
    }
}

/// The smaller of the two exponents.
pub open spec fn spec_min_exp(x: FloatVar, y: FloatVar) -> int {
    if x.exponent < y.exponent {
        x.exponent as int
    } else {
        y.exponent as int
    }
}

/// Below the clamp the alignment loses nothing: the aligned sum is exactly
/// the sum of both operands' signed mantissas, each scaled into the frame
/// of the smaller exponent.  Combined with the rounding law this pins the
/// addition result to the correctly rounded exact sum whenever the
/// exponent gap is at most 64.
pub proof fn lemma_aligned_sum_exact(x: FloatVar, y: FloatVar)
    requires
        x.wf(),
        y.wf(),
        -64 <= x.exponent - y.exponent <= 64,
    ensures
        spec_aligned_sum(x, y) == sval(x) * pow2((x.exponent - spec_min_exp(x, y)) as nat) + sval(
            y,
        ) * pow2((y.exponent - spec_min_exp(x, y)) as nat),
{
    lemma2_to64();
    let e0 = spec_min_exp(x, y);
    if x.exponent < y.exponent {
        assert(pow2((x.exponent - e0) as nat) == 1);
        assert(sval(x) * 1 == sval(x)) by (nonlinear_arith);
    } else {
        assert(pow2((y.exponent - e0) as nat) == 1);
        assert(sval(y) * 1 == sval(y)) by (nonlinear_arith);
    }
}

/// Normalization facts for a nonzero magnitude below `2^118`: the shift is
/// small, the quotient lands in `[2^52, 2^53)`, and quotient and remainder
/// recompose the magnitude.
pub proof fn lemma_normalization(mag: nat)
    requires
        0 < mag < pow2(118),
    ensures
        -52 <= spec_shift(mag) <= 65,
        0x10000000000000 <= spec_q(mag) < 0x20000000000000,
        spec_shift(mag) >= 0 ==> mag == pow2(spec_shift(mag) as nat) * spec_q(mag) + spec_rem(mag)
            && spec_rem(mag) < pow2(spec_shift(mag) as nat),
        spec_shift(mag) < 0 ==> spec_q(mag) == mag * pow2((-spec_shift(mag)) as nat) && spec_rem(
            mag,
        ) == 0,
{
    lemma_bit_len_bounds(mag);
    lemma_bit_len_le(mag, 118);
    lemma2_to64();
    lemma2_to64_rest();
    let bl = bit_len(mag);
    if bl >= 53 {
        let sh = (bl - 53) as nat;
        lemma_pow2_pos(sh);
        lemma_pow2_adds(52, sh);
        lemma_pow2_adds(53, sh);
        lemma_div_multiples_vanish(pow2(52) as int, pow2(sh) as int);
        lemma_div_is_ordered((pow2(52) * pow2(sh)) as int, mag as int, pow2(sh) as int);
        lemma_multiply_divide_lt(mag as int, pow2(sh) as int, pow2(53) as int);
        lemma_fundamental_div_mod(mag as int, pow2(sh) as int);
        lemma_mod_division_less_than_divisor(mag as int, pow2(sh) as int);
    } else {
        let nsh = (53 - bl) as nat;
        lemma_pow2_pos(nsh);
        lemma_pow2_adds((bl - 1) as nat, nsh);
        lemma_pow2_adds(bl, nsh);
        lemma_mul_inequality(pow2((bl - 1) as nat) as int, mag as int, pow2(nsh) as int);
        lemma_mul_strict_inequality(mag as int, pow2(bl) as int, pow2(nsh) as int);
    }
}

/// Cancellation law: adding a value to its own negation lands exactly on
/// the gadget's zero convention, the triple `(+1, -1023, 0)` that also
/// encodes the double `+0`.
pub proof fn lemma_add_inverse(x: FloatVar)
    requires
        x.wf(),
    ensures
        spec_add(x, spec_neg(x)) == (FloatVar { sign: 1, exponent: (-1023) as i64, mantissa: 0 }),
{
    let y = spec_neg(x);
    lemma2_to64();
    assert(spec_delta(x, y) == 0);
    lemma_unit_mul(x.sign as int, x.mantissa as int);
    lemma_unit_mul(y.sign as int, y.mantissa as int);
    assert(spec_aligned_sum(x, y) == 0);
}

/// Round-to-nearest-even law for addition: on a nonzero aligned sum the
/// gadget keeps the sign and position of the exact sum, reproduces it
/// exactly when no bits are discarded, and otherwise lands within half a
/// rounding unit of it, with the boundary reached only on a mantissa left
/// even.
pub proof fn lemma_add_rounds_to_nearest_even(x: FloatVar, y: FloatVar)
    requires
        x.wf(),
        y.wf(),
        spec_aligned_sum(x, y) != 0,
    ensures
        ({
            let s = spec_aligned_sum(x, y);
            let mag = (if s < 0 {
                -s
            } else {
                s
            }) as nat;
            let sh = spec_shift(mag);
            let r = spec_add(x, y);
            &&& r.sign == (if s < 0 {
                -1int
            } else {
                1int
            })
            &&& r.exponent == spec_max_exp(x, y) + sh - spec_delta(x, y)
            &&& (sh <= 0 ==> r.mantissa == mag * pow2((-sh) as nat))
            &&& (sh > 0 ==> -pow2((sh - 1) as nat) <= r.mantissa * pow2(sh as nat) - mag <= pow2(
                (sh - 1) as nat,
            ))
            &&& (sh > 0 && (r.mantissa * pow2(sh as nat) - mag == pow2((sh - 1) as nat)
                || r.mantissa * pow2(sh as nat) - mag == -pow2((sh - 1) as nat))
                ==> r.mantissa % 2 == 0)
        }),
{
    let s = spec_aligned_sum(x, y);
    let mag = (if s < 0 {
        -s
    } else {
        s
    }) as nat;
    lemma_aligned_sum_bound(x, y);
    lemma_normalization(mag);
    lemma2_to64();
    let sh = spec_shift(mag);
    let q = spec_q(mag);
    let rr = spec_rem(mag);
    let u = spec_half_unit(mag);
    let inc = spec_round_inc(q, rr, u);
    let m = q + inc;
    let r = spec_add(x, y);
    assert(m == r.mantissa);
    if sh > 0 {
        lemma_pow2_unfold(sh as nat);
        let p = pow2(sh as nat);
        assert(u == pow2((sh - 1) as nat));
        assert(p == 2 * u);
        assert(inc <= 1);
        assert(r.mantissa == q + inc);
        assert(mag == p * q + rr);
        let err = r.mantissa * p - mag;
        assert(r.mantissa * p == q * p + inc * p) by (nonlinear_arith)
            requires
                r.mantissa == q + inc,
        ;
        assert(err == inc * p - rr) by (nonlinear_arith)
            requires
                err == (q * p + inc * p) - (p * q + rr),
        ;
        if rr > u {
            assert(inc == 1);
            assert(err == p - rr) by (nonlinear_arith)
                requires
                    err == inc * p - rr,
                    inc == 1,
            ;
            assert(-u <= err <= u && err != u && err != -u);
        } else if rr == u {
            assert(inc == q % 2);
            assert((q + q % 2) % 2 == 0) by {
                lemma_fundamental_div_mod(q as int, 2);
                lemma_fundamental_div_mod_converse((q + q % 2) as int, 2, (q / 2 + q % 2) as int, 0);
            }
            if inc == 0 {
                assert(err == -u) by (nonlinear_arith)
                    requires
                        err == inc * p - rr,
                        inc == 0,
                        rr == u,
                ;
            } else {
                assert(inc == 1);
                assert(err == u) by (nonlinear_arith)
                    requires
                        inc == 1,
                        err == inc * p - rr,
                        rr == u,
                        p == 2 * u,
                ;
            }
            assert(-u <= err <= u && r.mantissa % 2 == 0);
        } else {
            assert(inc == 0);
            assert(err == -rr) by (nonlinear_arith)
                requires
                    err == inc * p - rr,
                    inc == 0,
            ;
            assert(-u <= err <= u && err != u && err != -u);
        }
    } else {
        assert(u == 1 && rr == 0 && inc == 0);
        if sh == 0 {
            assert(q == mag / pow2(0));
            lemma_div_multiples_vanish(mag as int, 1);
            assert(q == mag);
            assert(mag * pow2((-sh) as nat) == mag) by (nonlinear_arith)
                requires
                    pow2((-sh) as nat) == 1,
            ;
        }
        assert(r.mantissa == mag * pow2((-sh) as nat));
    }
}

/// Clamp law: with an exponent gap at or past the clamp of 64, the smaller
/// operand cannot move the rounded result, and the sum is the larger
/// operand itself.  The one family left out (by the last premise) is a
/// larger operand with the minimal mantissa `2^52` and opposite sign,
/// where cancellation borrows out of position 52 and rounding lands the
/// mantissa on the unnormalized `2^53`.
pub proof fn lemma_add_clamped_gap(x: FloatVar, y: FloatVar)
    requires
        x.wf(),
        y.wf(),
        x.mantissa != 0,
        y.mantissa != 0,
        x.exponent >= y.exponent + 64,
        x.sign == y.sign || x.mantissa > 0x10000000000000,
    ensures
        spec_add(x, y) == x,
{
    lemma2_to64();
    lemma2_to64_rest();
    lemma_pow2_adds(52, 64);
    lemma_pow2_adds(53, 64);
    lemma_pow2_adds(63, 1);
    lemma_pow2_adds(64, 52);
    lemma_pow2_adds(64, 53);
    assert(pow2(116) == 0x10000000000000 * 0x10000000000000000);
    assert(pow2(117) == 0x20000000000000 * 0x10000000000000000);
    assert(spec_delta(x, y) == 64);
    lemma_unit_mul(x.sign as int, x.mantissa as int);
    lemma_unit_mul(y.sign as int, y.mantissa as int);
    let s = spec_aligned_sum(x, y);
    let mx = x.mantissa as int;
    let my = y.mantissa as int;
    assert(s == sval(y) + sval(x) * pow2(64));
    assert(sval(x) * pow2(64) == x.sign * (mx * pow2(64))) by (nonlinear_arith)
        requires
            sval(x) == x.sign * mx,
    ;
    let mag = (if s < 0 {
        -s
    } else {
        s
    }) as nat;
    if x.sign == y.sign {
        assert(mag == my + mx * pow2(64));
        assert(pow2(116) <= mx * pow2(64) <= pow2(117) - pow2(64)) by (nonlinear_arith)
            requires
                0x10000000000000 <= mx < 0x20000000000000,
                pow2(116) == 0x10000000000000 * 0x10000000000000000,
                pow2(117) == 0x20000000000000 * 0x10000000000000000,
                pow2(64) == 0x10000000000000000,
        ;
        lemma_bit_len_eq(mag, 117);
        assert(spec_shift(mag) == 64);
        lemma_fundamental_div_mod_converse(mag as int, pow2(64) as int, mx, my);
        assert(spec_q(mag) == mx && spec_rem(mag) == my);
        assert(spec_half_unit(mag) == pow2(63));
        assert(spec_round_inc(mx as nat, my as nat, pow2(63)) == 0);
    } else {
        assert(mag == mx * pow2(64) - my);
        assert(mag == (mx - 1) * pow2(64) + (pow2(64) - my)) by (nonlinear_arith)
            requires
                mag == mx * pow2(64) - my,
        ;
        assert(pow2(116) + pow2(64) <= mx * pow2(64) < pow2(117)) by (nonlinear_arith)
            requires
                0x10000000000000 < mx < 0x20000000000000,
                pow2(116) == 0x10000000000000 * 0x10000000000000000,
                pow2(117) == 0x20000000000000 * 0x10000000000000000,
                pow2(64) == 0x10000000000000000,
        ;
        lemma_bit_len_eq(mag, 117);
        assert(spec_shift(mag) == 64);
        lemma_fundamental_div_mod_converse(mag as int, pow2(64) as int, mx - 1, pow2(
            64,
        ) as int - my);
        assert(spec_q(mag) == mx - 1);
        assert(spec_rem(mag) == pow2(64) - my);
        assert(spec_half_unit(mag) == pow2(63));
        assert(spec_rem(mag) > pow2(63));
        assert(spec_round_inc((mx - 1) as nat, spec_rem(mag), pow2(63)) == 1);
    }
}

impl FloatVar {
    /// The addition gadget: aligns exponents (gap clamped at 64), combines
    /// the signed mantissas, normalizes the magnitude into `[2^52, 2^53)`
    /// and rounds to nearest, ties to even.  The result is pinned to the
    /// closed-form `spec_add`; its mantissa is zero or lies in
    /// `[2^52, 2^53]` (the upper end only when rounding carries all the way
    /// up, which the circuit's range check admits as the one unnormalized
    /// case).
    pub fn add(x: &FloatVar, y: &FloatVar) -> (r: FloatVar)
        requires
            x.wf(),
            y.wf(),
        ensures
            r == spec_add(*x, *y),
            r.sign == 1 || r.sign == -1,
            r.mantissa == 0 || 0x10000000000000 <= r.mantissa <= 0x20000000000000,
            -2340 <= r.exponent <= 2270,
    {
        let d_raw: i64 = if x.exponent < y.exponent {
            y.exponent - x.exponent
        } else {
            x.exponent - y.exponent
        };
        let d: u64 = if d_raw > 64 {
            64
        } else {
            d_raw as u64
        };
        let emax: i64 = if x.exponent < y.exponent {
            y.exponent
        } else {
            x.exponent
        };
        let p2d: u128 = pow2_u128(d as u32);
        proof {
            lemma2_to64();
            lemma_pow2_le(d as nat, 64);
            assert(d as nat == spec_delta(*x, *y));
        }
        proof {
            lemma_unit_mul(x.sign as int, x.mantissa as int);
            lemma_unit_mul(y.sign as int, y.mantissa as int);
        }
        let sx: i128 = (x.sign as i128) * (x.mantissa as i128);
        let sy: i128 = (y.sign as i128) * (y.mantissa as i128);
        let sum: i128 = if x.exponent < y.exponent {
            proof {
                lemma_term_bound(y.sign as int, y.mantissa as int, p2d as int);
            }
            sx + sy * (p2d as i128)
        } else {
            proof {
                lemma_term_bound(x.sign as int, x.mantissa as int, p2d as int);
            }
            sy + sx * (p2d as i128)
        };
        proof {
            assert(sum as int == spec_aligned_sum(*x, *y));
        }
        let mag: u128 = if sum < 0 {
            (-sum) as u128
        } else {
            sum as u128
        };
        if mag == 0 {
            return FloatVar { sign: 1, exponent: -1023, mantissa: 0 };
        }
        proof {
            lemma_pow2_adds(53, 64);
            lemma_pow2_unfold(118);
            lemma2_to64();
            lemma2_to64_rest();
            assert(pow2(117) == 0x20000000000000 * 0x10000000000000000);
            assert((mag as nat) < pow2(118));
            lemma_bit_len_bounds(mag as nat);
            lemma_bit_len_le(mag as nat, 118);
        }
        let (q, e, rr) = normalize_hint(mag, d, emax);
        let sh_i: i64 = e + d as i64;
        proof {
            assert(sh_i as int == spec_shift(mag as nat));
        }
        let u: u128 = if sh_i > 0 {
            pow2_u128((sh_i - 1) as u32)
        } else {
            1
        };
        proof {
            assert(u as nat == spec_half_unit(mag as nat));
        }
        let inc: u64 = if rr > u {
            1
        } else if rr == u {
            q % 2
        } else {
            0
        };
        let sgn: i64 = if sum < 0 {
            -1
        } else {
            1
        };
        proof {
            assert(inc as nat == spec_round_inc(
                q as nat,
                spec_rem(mag as nat),
                spec_half_unit(mag as nat),
            ));
        }
        FloatVar { sign: sgn, exponent: emax + e, mantissa: q + inc }
    }
}

} // verus!
