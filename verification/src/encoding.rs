//! The public-input encoding: the ordered `[sign, exponent, mantissa]`
//! field-element triple a verifier checks a claimed result against.
//!
//! Field elements are canonical integers below the modulus of the scalar
//! field of the BLS12-381 pairing the proving backend runs on, carried as
//! four little-endian 64-bit limbs.  Negative integers map to the field by
//! the additive-inverse convention: values above the field's midpoint
//! stand for negatives.

use vstd::prelude::*;
use crate::float::FloatVar;
use crate::bits::{spec_decode, is_supported_bits};
use vstd::arithmetic::power2::{pow2, lemma_pow2_strictly_increases};
use vstd::arithmetic::mul::lemma_mul_inequality;

verus! {

/// A canonical scalar-field element, little-endian 64-bit limbs.
#[derive(Clone, Copy, Debug, PartialEq, Eq, Structural)]
pub struct Fe {
    pub l0: u64,
    pub l1: u64,
    pub l2: u64,
    pub l3: u64,
}

/// Limbs of the scalar-field modulus, least significant first.
pub const MOD0: u64 = 0xffffffff00000001;

pub const MOD1: u64 = 0x53bda402fffe5bfe;

pub const MOD2: u64 = 0x3339d80809a1d805;

pub const MOD3: u64 = 0x73eda753299d7d48;

/// The integer a limb vector denotes.
pub open spec fn fe_nat(f: Fe) -> nat {
    (f.l0 + f.l1 * pow2(64) + f.l2 * pow2(128) + f.l3 * pow2(192)) as nat
}

/// The field modulus as an integer.
pub open spec fn modulus() -> nat {
    (MOD0 + MOD1 * pow2(64) + MOD2 * pow2(128) + MOD3 * pow2(192)) as nat
}

/// The signed-to-field convention: a nonnegative integer maps to itself, a
/// negative one to the modulus minus its magnitude.
pub open spec fn field_of_signed(v: int) -> nat {
    if v >= 0 {
        v as nat
    } else {
        (modulus() - (-v)) as nat
    }
}

/// The modulus dominates every 64-bit value.
proof fn lemma_modulus_large()
    ensures
        modulus() > pow2(64),
        modulus() > 0x10000000000000000,
{
    lemma_pow2_strictly_increases(64, 192);
    lemma_mul_inequality(1, MOD3 as int, pow2(192) as int);
    assert(pow2(64) < 0x10000000000000001) by {
        vstd::arithmetic::power2::lemma2_to64();
    }
}

impl Fe {
    /// Embeds a 64-bit integer as a canonical field element.
    pub fn from_u64(v: u64) -> (r: Fe)
        ensures
            fe_nat(r) == v,
            fe_nat(r) < modulus(),
    {
        proof {
            lemma_modulus_large();
        }
        Fe { l0: v, l1: 0, l2: 0, l3: 0 }
    }

    /// Embeds a signed integer by the additive-inverse convention.
    pub fn signed_to_field(v: i64) -> (r: Fe)
        requires
            -0x7fffffffffffffff <= v,
        ensures
            fe_nat(r) == field_of_signed(v as int),
            fe_nat(r) < modulus(),
    {
        proof {
            lemma_modulus_large();
        }
        if v >= 0 {
            Fe { l0: v as u64, l1: 0, l2: 0, l3: 0 }
        } else {
            let m: u64 = (-v) as u64;
            Fe { l0: MOD0 - m, l1: MOD1, l2: MOD2, l3: MOD3 }
        }
    }
}

impl FloatVar {
    /// The ordered public-input vector `[sign, exponent, mantissa]` for a
    /// claimed result, built from the claimed double's bit pattern with the
    /// same decoding the in-circuit allocation uses.  The order is fixed
    /// and must match the order in which a public-input operand's three
    /// wires are allocated, or verification fails.
    pub fn verifier_input(bits: u64) -> (out: Vec<Fe>)
        requires
            is_supported_bits(bits),
        ensures
            out.len() == 3,
            fe_nat(out@[0]) == field_of_signed(spec_decode(bits).sign as int),
            fe_nat(out@[1]) == field_of_signed(spec_decode(bits).exponent as int),
            fe_nat(out@[2]) == spec_decode(bits).mantissa,
    {
        let f = FloatVar::from_bits(bits);
        let mut out: Vec<Fe> = Vec::new();
        out.push(Fe::signed_to_field(f.sign));
        out.push(Fe::signed_to_field(f.exponent));
        out.push(Fe::from_u64(f.mantissa));
        out
    }
}

} // verus!
