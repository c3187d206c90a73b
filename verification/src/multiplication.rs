//! The multiplication gadget's value semantics: mantissa product, one-bit
//! normalization into the 106-bit frame, off-circuit division by `2^53`,
//! and round-to-nearest-even.

use vstd::prelude::*;
use crate::float::FloatVar;
use crate::addition::{spec_round_inc, lemma_unit_mul};
use vstd::arithmetic::power2::{pow2, lemma_pow2_adds, lemma2_to64, lemma2_to64_rest};
use vstd::arithmetic::div_mod::{
    lemma_div_is_ordered, lemma_div_multiples_vanish, lemma_multiply_divide_lt,
    lemma_fundamental_div_mod, lemma_fundamental_div_mod_converse,
    lemma_mod_division_less_than_divisor,
};

verus! {

/// The multiplication gadget's result on well-formed operands.  The
/// mantissa product of two normalized operands has its leading bit at
/// position 104 or 105; when it is at 104 the product is doubled so the
/// division by `2^53` always starts from the same 106-bit frame, and the
/// combined exponent is left unincremented.
pub open spec fn spec_mul(x: FloatVar, y: FloatVar) -> FloatVar {
    let p = x.mantissa * y.mantissa;
    let hi = p >= pow2(105);
    let pp: nat = if hi {
        p as nat
    } else {
        (2 * p) as nat
    };
    let e = x.exponent + y.exponent + (if hi {
        1int
    } else {
        0
    });
    let q = pp / pow2(53);
    let m = q + spec_round_inc(q, pp % pow2(53), pow2(52));
    FloatVar { sign: (x.sign * y.sign) as i64, exponent: e as i64, mantissa: m as u64 }
}

/// Off-circuit witness hint for multiplication: the high 53 bits of the
/// normalized 106-bit mantissa product.  The circuit recovers the low half
/// as `pp - q * 2^53` and constrains it below `2^53`.
pub fn mul_hint(pp: u128) -> (q: u64)
    requires
        (pp as nat) < pow2(106),
    ensures
        q as nat == (pp as nat) / pow2(53),
{
    proof {
        lemma2_to64();
        lemma2_to64_rest();
        lemma_pow2_adds(53, 53);
        lemma_multiply_divide_lt(pp as int, pow2(53) as int, pow2(53) as int);
    }
    (pp / 0x20000000000000) as u64
}

/// Round-to-nearest-even law for multiplication: on two nonzero operands
/// the result mantissa, placed back in the normalized 106-bit product
/// frame, differs from the exact frame value by at most half a rounding
/// unit (`2^52`), and reaches the boundary only when left even; sign and
/// exponent are the exact sign product and combined exponent.
pub proof fn lemma_mul_rounds_to_nearest_even(x: FloatVar, y: FloatVar)
    requires
        x.wf(),
        y.wf(),
        x.mantissa != 0,
        y.mantissa != 0,
    ensures
        ({
            let p = (x.mantissa * y.mantissa) as nat;
            let pp: nat = if p >= pow2(105) {
                p
            } else {
                (2 * p) as nat
            };
            let r = spec_mul(x, y);
            let err = r.mantissa * pow2(53) - pp;
            &&& r.sign == x.sign * y.sign
            &&& r.exponent == x.exponent + y.exponent + (if p >= pow2(105) {
                1int
            } else {
                0
            })
            &&& -pow2(52) <= err <= pow2(52)
            &&& ((err == pow2(52) || err == -pow2(52)) ==> r.mantissa % 2 == 0)
        }),
{
    lemma2_to64();
    lemma2_to64_rest();
    lemma_pow2_adds(52, 52);
    lemma_pow2_adds(52, 53);
    lemma_pow2_adds(53, 53);
    lemma_unit_mul(x.sign as int, y.sign as int);
    let p = (x.mantissa * y.mantissa) as nat;
    assert((x.mantissa as int) * (y.mantissa as int) < pow2(106) && (x.mantissa as int)
        * (y.mantissa as int) >= pow2(104)) by (nonlinear_arith)
        requires
            0x10000000000000 <= x.mantissa < 0x20000000000000,
            0x10000000000000 <= y.mantissa < 0x20000000000000,
            pow2(104) == 0x10000000000000 * 0x10000000000000,
            pow2(106) == 0x20000000000000 * 0x20000000000000,
    ;
    let hi = p >= pow2(105);
    let pp: nat = if hi {
        p
    } else {
        (2 * p) as nat
    };
    assert(pow2(105) <= pp < pow2(106));
    let q = pp / pow2(53);
    let rr = pp % pow2(53);
    lemma_div_multiples_vanish(pow2(52) as int, pow2(53) as int);
    lemma_div_is_ordered(pow2(105) as int, pp as int, pow2(53) as int);
    lemma_multiply_divide_lt(pp as int, pow2(53) as int, pow2(53) as int);
    lemma_fundamental_div_mod(pp as int, pow2(53) as int);
    lemma_mod_division_less_than_divisor(pp as int, pow2(53) as int);
    let inc = spec_round_inc(q, rr, pow2(52));
    let r = spec_mul(x, y);
    assert(inc <= 1);
    assert(r.mantissa == q + inc);
    let err = r.mantissa * pow2(53) - pp;
    assert(r.mantissa * pow2(53) == q * pow2(53) + inc * pow2(53)) by (nonlinear_arith)
        requires
            r.mantissa == q + inc,
    ;
    assert(err == inc * pow2(53) - rr) by (nonlinear_arith)
        requires
            err == (q * pow2(53) + inc * pow2(53)) - (pow2(53) * q + rr),
    ;
    let u = pow2(52);
    if rr > u {
        assert(inc == 1);
        assert(err == pow2(53) - rr) by (nonlinear_arith)
            requires
                err == inc * pow2(53) - rr,
                inc == 1,
        ;
        assert(-u <= err <= u && err != u && err != -u);
    } else if rr == u {
        assert(inc == q % 2);
        assert((q + q % 2) % 2 == 0) by {
            lemma_fundamental_div_mod(q as int, 2);
            lemma_fundamental_div_mod_converse((q + q % 2) as int, 2, (q / 2 + q % 2) as int, 0);
        }
        if inc == 0 {
            assert(err == -u) by (nonlinear_arith)
                requires
                    err == inc * pow2(53) - rr,
                    inc == 0,
                    rr == u,
            ;
        } else {
            assert(inc == 1);
            assert(err == u) by (nonlinear_arith)
                requires
                    err == inc * pow2(53) - rr,
                    inc == 1,
                    rr == u,
                    pow2(53) == 2 * u,
            ;
        }
        assert(-u <= err <= u && r.mantissa % 2 == 0);
    } else {
        assert(inc == 0);
        assert(err == -rr) by (nonlinear_arith)
            requires
                err == inc * pow2(53) - rr,
                inc == 0,
        ;
        assert(-u <= err <= u && err != u && err != -u);
    }
}

impl FloatVar {
    /// The multiplication gadget: sign product, mantissa product normalized
    /// to the 106-bit frame, division by `2^53` and round-to-nearest-even.
    /// The result is pinned to the closed-form `spec_mul`; as in addition,
    /// rounding can carry the mantissa up to exactly `2^53`.
    pub fn mul(x: &FloatVar, y: &FloatVar) -> (r: FloatVar)
        requires
            x.wf(),
            y.wf(),
        ensures
            r == spec_mul(*x, *y),
            r.sign == 1 || r.sign == -1,
            r.mantissa == 0 || 0x10000000000000 <= r.mantissa <= 0x20000000000000,
            -4400 <= r.exponent <= 4401,
    {
        proof {
            lemma_unit_mul(x.sign as int, y.sign as int);
        }
        let sgn: i64 = x.sign * y.sign;
        proof {
            lemma2_to64();
            lemma2_to64_rest();
            lemma_pow2_adds(52, 52);
            lemma_pow2_adds(52, 53);
            lemma_pow2_adds(53, 53);
            assert((x.mantissa as int) * (y.mantissa as int) < pow2(106) && ((x.mantissa as int)
                * (y.mantissa as int) == 0 || (x.mantissa as int) * (y.mantissa as int) >= pow2(
                104,
            )))
                by (nonlinear_arith)
                requires
                    x.mantissa == 0 || 0x10000000000000 <= x.mantissa < 0x20000000000000,
                    y.mantissa == 0 || 0x10000000000000 <= y.mantissa < 0x20000000000000,
                    pow2(104) == 0x10000000000000 * 0x10000000000000,
                    pow2(106) == 0x20000000000000 * 0x20000000000000,
            ;
        }
        let p: u128 = (x.mantissa as u128) * (y.mantissa as u128);
        let hi: bool = p >= 0x200000000000000000000000000;
        proof {
            assert(pow2(105) == 0x200000000000000000000000000) by {
                lemma_pow2_adds(52, 53);
            }
            assert(pow2(106) == 0x400000000000000000000000000) by {
                lemma_pow2_adds(53, 53);
            }
        }
        let pp: u128 = if hi {
            p
        } else {
            2 * p
        };
        let e: i64 = x.exponent + y.exponent + if hi {
            1
        } else {
            0
        };
        let q: u64 = mul_hint(pp);
        let rr: u128 = pp % 0x20000000000000;
        proof {
            if p > 0 {
                lemma_div_multiples_vanish(pow2(52) as int, pow2(53) as int);
                lemma_div_is_ordered(pow2(105) as int, pp as int, pow2(53) as int);
                lemma_multiply_divide_lt(pp as int, pow2(53) as int, pow2(53) as int);
            }
        }
        let inc: u64 = if rr > 0x10000000000000 {
            1
        } else if rr == 0x10000000000000 {
            q % 2
        } else {
            0
        };
        FloatVar { sign: sgn, exponent: e, mantissa: q + inc }
    }
}

} // verus!
