use float_r1cs::encoding::{Fe, MOD0, MOD1, MOD2, MOD3};
use float_r1cs::float::FloatVar;

fn dec(x: f64) -> FloatVar {
    FloatVar::from_bits(x.to_bits())
}

#[test]
fn round_trip_bits() {
    for x in [
        1.0f64,
        -1.0,
        2.5,
        -2.5,
        0.0,
        -0.0,
        1e-300,
        -1e300,
        f64::MIN_POSITIVE,
        f64::MAX,
        3.141592653589793,
    ] {
        let bits = x.to_bits();
        let f = FloatVar::from_bits(bits);
        assert_eq!(f.to_bits(), bits);
    }
}

#[test]
fn decode_concrete_triples() {
    // 1.0: mantissa 2^52, shifted exponent 0, sign +1
    let f = dec(1.0);
    assert_eq!((f.sign, f.exponent, f.mantissa), (1, 0, 0x10000000000000));
    // -2.5 = -1.25 * 2: mantissa 2^52 + 2^50, shifted exponent 1, sign -1
    let f = dec(-2.5);
    assert_eq!((f.sign, f.exponent, f.mantissa), (-1, 1, 0x14000000000000));
    // +0.0: the zero convention triple
    let f = dec(0.0);
    assert_eq!((f.sign, f.exponent, f.mantissa), (1, -1023, 0));
}

#[test]
fn verifier_input_of_one() {
    let v = FloatVar::verifier_input(1.0f64.to_bits());
    assert_eq!(v.len(), 3);
    // sign +1 -> field element 1; exponent 0 -> 0; mantissa 2^52
    assert_eq!(v[0], Fe { l0: 1, l1: 0, l2: 0, l3: 0 });
    assert_eq!(v[1], Fe { l0: 0, l1: 0, l2: 0, l3: 0 });
    assert_eq!(v[2], Fe { l0: 0x10000000000000, l1: 0, l2: 0, l3: 0 });
}

#[test]
fn verifier_input_negative_values() {
    // -1.0: sign -1 maps to modulus - 1; exponent 0; mantissa 2^52.
    let v = FloatVar::verifier_input((-1.0f64).to_bits());
    assert_eq!(v[0], Fe { l0: MOD0 - 1, l1: MOD1, l2: MOD2, l3: MOD3 });
    assert_eq!(v[1], Fe { l0: 0, l1: 0, l2: 0, l3: 0 });
    assert_eq!(v[2], Fe { l0: 0x10000000000000, l1: 0, l2: 0, l3: 0 });
    // 0.5 has shifted exponent -1, which maps to modulus - 1.
    let v = FloatVar::verifier_input(0.5f64.to_bits());
    assert_eq!(v[0], Fe { l0: 1, l1: 0, l2: 0, l3: 0 });
    assert_eq!(v[1], Fe { l0: MOD0 - 1, l1: MOD1, l2: MOD2, l3: MOD3 });
}

#[test]
fn verifier_input_matches_gadget_zero_convention() {
    // The public encoding of +0.0 carries exponent -1023, i.e. the field
    // element modulus - 1023: the same triple the addition gadget yields
    // for a cancelled sum.
    let v = FloatVar::verifier_input(0.0f64.to_bits());
    assert_eq!(v[0], Fe { l0: 1, l1: 0, l2: 0, l3: 0 });
    assert_eq!(v[1], Fe { l0: MOD0 - 1023, l1: MOD1, l2: MOD2, l3: MOD3 });
    assert_eq!(v[2], Fe { l0: 0, l1: 0, l2: 0, l3: 0 });
    let d = FloatVar::add(&dec(7.25), &dec(7.25).neg());
    assert_eq!((d.sign, d.exponent, d.mantissa), (1, -1023, 0));
}

#[test]
fn signed_to_field_convention() {
    let f = Fe::signed_to_field(42);
    assert_eq!(f, Fe { l0: 42, l1: 0, l2: 0, l3: 0 });
    let f = Fe::signed_to_field(-42);
    assert_eq!(f, Fe { l0: MOD0 - 42, l1: MOD1, l2: MOD2, l3: MOD3 });
    let f = Fe::signed_to_field(0);
    assert_eq!(f, Fe { l0: 0, l1: 0, l2: 0, l3: 0 });
}
