//! Decoding a double's IEEE-754 bit pattern into the sign / exponent /
//! mantissa triple and re-encoding it, with the round-trip facts.
//!
//! Supported patterns are the normal numbers and the two zeros; subnormals,
//! infinities and NaN are outside the gadget's domain.

use vstd::prelude::*;
use crate::float::FloatVar;
use vstd::arithmetic::div_mod::{
    lemma_fundamental_div_mod, lemma_fundamental_div_mod_converse, lemma_div_denominator,
    lemma_multiply_divide_lt,
};

verus! {

/// Top bit of the pattern: `1` for a negative sign.
pub open spec fn spec_sign_bit(bits: u64) -> u64 {
    bits / 0x8000000000000000
}

/// The 11-bit raw exponent field.
pub open spec fn spec_raw_exp(bits: u64) -> u64 {
    (bits / 0x10000000000000) % 0x800
}

/// The 52-bit fraction field.
pub open spec fn spec_frac(bits: u64) -> u64 {
    bits % 0x10000000000000
}

/// A normal number (raw exponent in `[1, 2046]`) or a zero of either sign.
pub open spec fn is_supported_bits(bits: u64) -> bool {
    1 <= spec_raw_exp(bits) <= 2046 || (spec_raw_exp(bits) == 0 && spec_frac(bits) == 0)
}

/// The integer-decoded triple of a supported bit pattern: the implicit
/// leading mantissa bit is materialized and the exponent is the raw field
/// minus the bias of 1023.  A zero keeps its sign and by convention carries
/// exponent `-1023` (raw field zero).
pub open spec fn spec_decode(bits: u64) -> FloatVar {
    let sgn: i64 = if spec_sign_bit(bits) == 1 {
        (-1) as i64
    } else {
        1
    };
    if spec_raw_exp(bits) == 0 {
        FloatVar { sign: sgn, exponent: (-1023) as i64, mantissa: 0 }
    } else {
        FloatVar {
            sign: sgn,
            exponent: (spec_raw_exp(bits) - 1023) as i64,
            mantissa: (spec_frac(bits) + 0x10000000000000) as u64,
        }
    }
}

/// Triples that correspond to a supported bit pattern.
pub open spec fn encodable(f: FloatVar) -> bool {
    &&& (f.sign == 1 || f.sign == -1)
    &&& (f.mantissa == 0 ==> f.exponent == -1023)
    &&& (f.mantissa != 0 ==> 0x10000000000000 <= f.mantissa < 0x20000000000000 && -1022
        <= f.exponent <= 1023)
}

/// The bit pattern of an encodable triple.
pub open spec fn spec_encode(f: FloatVar) -> u64 {
    let sb: u64 = if f.sign == -1 {
        0x8000000000000000
    } else {
        0
    };
    if f.mantissa == 0 {
        sb
    } else {
        (sb + ((f.exponent + 1023) as u64) * 0x10000000000000 + (f.mantissa
            - 0x10000000000000)) as u64
    }
}

/// Every pattern is the weighted sum of its three fields.
pub proof fn lemma_bits_decompose(bits: u64)
    ensures
        bits == spec_sign_bit(bits) * 0x8000000000000000 + spec_raw_exp(bits) * 0x10000000000000
            + spec_frac(bits),
        spec_sign_bit(bits) <= 1,
        spec_raw_exp(bits) < 0x800,
        spec_frac(bits) < 0x10000000000000,
{
    let h = bits / 0x10000000000000;
    lemma_fundamental_div_mod(bits as int, 0x10000000000000);
    lemma_fundamental_div_mod(h as int, 0x800);
    lemma_div_denominator(bits as int, 0x10000000000000, 0x800);
    assert(h / 0x800 == bits / 0x8000000000000000);
    lemma_multiply_divide_lt(bits as int, 0x8000000000000000, 2);
    assert(bits == 0x10000000000000 * (0x800 * (h / 0x800) + h % 0x800) + spec_frac(bits)
        ==> bits == (h / 0x800) * 0x8000000000000000 + (h % 0x800) * 0x10000000000000
            + spec_frac(bits)) by (nonlinear_arith);
}

/// Round trip on patterns: decoding a supported pattern and re-encoding the
/// triple reproduces the identical pattern, and the triple is well formed.
pub proof fn lemma_decode_encode(bits: u64)
    requires
        is_supported_bits(bits),
    ensures
        spec_encode(spec_decode(bits)) == bits,
        encodable(spec_decode(bits)),
        spec_decode(bits).wf(),
{
    lemma_bits_decompose(bits);
}

/// Round trip on triples: encoding an encodable triple and decoding the
/// pattern reproduces the identical triple.
pub proof fn lemma_encode_decode(f: FloatVar)
    requires
        encodable(f),
    ensures
        spec_decode(spec_encode(f)) == f,
        is_supported_bits(spec_encode(f)),
{
    let sb: u64 = if f.sign == -1 {
        1
    } else {
        0
    };
    let raw: u64 = if f.mantissa == 0 {
        0
    } else {
        (f.exponent + 1023) as u64
    };
    let frac: u64 = if f.mantissa == 0 {
        0
    } else {
        (f.mantissa - 0x10000000000000) as u64
    };
    let bits = spec_encode(f);
    assert(bits == (sb * 0x800 + raw) * 0x10000000000000 + frac) by (nonlinear_arith)
        requires
            sb <= 1,
            raw < 0x800,
            frac < 0x10000000000000,
            bits == sb * 0x8000000000000000 + raw * 0x10000000000000 + frac,
    ;
    lemma_fundamental_div_mod_converse(
        bits as int,
        0x10000000000000,
        (sb * 0x800 + raw) as int,
        frac as int,
    );
    lemma_fundamental_div_mod_converse((sb * 0x800 + raw) as int, 0x800, sb as int, raw as int);
    lemma_div_denominator(bits as int, 0x10000000000000, 0x800);
    assert(spec_sign_bit(bits) == sb);
    assert(spec_raw_exp(bits) == raw);
    assert(spec_frac(bits) == frac);
}

impl FloatVar {
    /// Decodes a supported IEEE-754 bit pattern into its triple.
    pub fn from_bits(bits: u64) -> (r: FloatVar)
        requires
            is_supported_bits(bits),
        ensures
            r == spec_decode(bits),
            r.wf(),
            encodable(r),
    {
        proof {
            lemma_decode_encode(bits);
        }
        let sb: u64 = bits / 0x8000000000000000;
        let raw: u64 = (bits / 0x10000000000000) % 0x800;
        let frac: u64 = bits % 0x10000000000000;
        let sgn: i64 = if sb == 1 {
            -1
        } else {
            1
        };
        if raw == 0 {
            FloatVar { sign: sgn, exponent: -1023, mantissa: 0 }
        } else {
            FloatVar { sign: sgn, exponent: raw as i64 - 1023, mantissa: frac + 0x10000000000000 }
        }
    }

    /// Re-encodes the triple as an IEEE-754 bit pattern.
    pub fn to_bits(&self) -> (bits: u64)
        requires
            encodable(*self),
        ensures
            bits == spec_encode(*self),
            spec_decode(bits) == *self,
    {
        proof {
            lemma_encode_decode(*self);
        }
        let sb: u64 = if self.sign == -1 {
            0x8000000000000000
        } else {
            0
        };
        if self.mantissa == 0 {
            sb
        } else {
            sb + ((self.exponent + 1023) as u64) * 0x10000000000000 + (self.mantissa
                - 0x10000000000000)
        }
    }
}

} // verus!
