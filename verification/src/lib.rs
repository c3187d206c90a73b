//! Verified core of a floating-point gadget for rank-1 constraint systems.
//!
//! A double-precision value is carried as a triple of small integers
//! (sign, shifted exponent, 53-bit mantissa).  This crate holds the
//! verified value-level logic: decoding a double's bit pattern into the
//! triple, re-encoding it, the exact add / mul semantics with
//! round-to-nearest-even, the off-circuit witness hints that the circuit
//! constraints check, and the public-input field encoding a verifier uses.
//! The constraint-emission layer that mirrors these computations on field
//! wires lives outside the verified library.

pub mod addition;
pub mod arith;
pub mod bits;
pub mod encoding;
pub mod float;
pub mod multiplication;
