use vstd::prelude::*;

verus! {

/// A double-precision floating-point value in integer-decoded form.
///
/// `sign` is `+1` or `-1`; `mantissa` is the 53-bit significand with the
/// implicit leading bit materialized (`0` only for a zero value); `exponent`
/// is the IEEE-754 raw exponent minus its bias of 1023, so that the value
/// represented is `sign * mantissa * 2^(exponent - 52)`.
///
/// Inside a circuit each of the three components becomes one field-element
/// wire; here they are carried as plain integers so the arithmetic on them
/// can be stated and proved exactly.
#[derive(Clone, Copy, Debug, PartialEq, Eq, Structural)]
pub struct FloatVar {
    pub sign: i64,
    pub exponent: i64,
    pub mantissa: u64,
}

/// The sign flip: same exponent and mantissa wires, negated sign.
pub open spec fn spec_neg(x: FloatVar) -> FloatVar {
    FloatVar { sign: (-x.sign) as i64, exponent: x.exponent, mantissa: x.mantissa }
}

impl FloatVar {
    /// Well-formedness: the sign is a unit, the mantissa is zero or a
    /// normalized 53-bit significand, and the exponent lies in a range
    /// comfortably containing everything normal doubles and single
    /// additions or multiplications of them can produce.
    pub open spec fn wf(self) -> bool {
        &&& (self.sign == 1 || self.sign == -1)
        &&& (self.mantissa == 0 || (0x10000000000000 <= self.mantissa < 0x20000000000000))
        &&& -2200 <= self.exponent <= 2200
    }

    /// Flips the sign and keeps the other two components unchanged.
    pub fn neg(self) -> (r: FloatVar)
        requires
            self.sign == 1 || self.sign == -1,
        ensures
            r == spec_neg(self),
    {
        FloatVar { sign: -self.sign, exponent: self.exponent, mantissa: self.mantissa }
    }

    /// Component-wise equality of the two triples: exactly the relation the
    /// three in-circuit equality constraints enforce.  It does not equate
    /// distinct encodings of one numeric value (`+0` and `-0` differ).
    pub fn equal(x: &FloatVar, y: &FloatVar) -> (r: bool)
        ensures
            r <==> (x.sign == y.sign && x.exponent == y.exponent && x.mantissa == y.mantissa),
    {
        x.sign == y.sign && x.exponent == y.exponent && x.mantissa == y.mantissa
    }
}

} // verus!
