use float_r1cs::float::FloatVar;
use rand::rngs::StdRng;
use rand::{Rng, SeedableRng};

fn dec(x: f64) -> FloatVar {
    FloatVar::from_bits(x.to_bits())
}

#[test]
fn test_add() {
    let mut rng = StdRng::seed_from_u64(20240901);
    for _ in 0..100 {
        let a = -rng.gen::<f64>() * rng.gen::<u32>() as f64;
        let b = rng.gen::<f64>() * rng.gen::<u32>() as f64;
        let c = a + b;
        let d = FloatVar::add(&dec(a), &dec(b));
        assert_eq!(d, dec(c));
    }
}

#[test]
fn test_mul() {
    let mut rng = StdRng::seed_from_u64(20240902);
    for _ in 0..100 {
        let a = -rng.gen::<f64>();
        let b = rng.gen::<f64>() * 123456789000.;
        let c = a * b;
        let d = FloatVar::mul(&dec(a), &dec(b));
        assert_eq!(d, dec(c));
    }
}

#[test]
fn add_concrete_values() {
    // 1.5 + 2.25 = 3.75, exactly representable
    let d = FloatVar::add(&dec(1.5), &dec(2.25));
    assert_eq!(d, dec(3.75));
    // mantissas: 3.75 = 1.875 * 2 -> mantissa 0x1E000000000000, exponent 1
    assert_eq!(d.sign, 1);
    assert_eq!(d.exponent, 1);
    assert_eq!(d.mantissa, 0x1E000000000000);
}

#[test]
fn add_opposite_signs() {
    let d = FloatVar::add(&dec(5.0), &dec(-3.0));
    assert_eq!(d, dec(2.0));
    assert_eq!(d.sign, 1);
    let d = FloatVar::add(&dec(3.0), &dec(-5.0));
    assert_eq!(d, dec(-2.0));
    assert_eq!(d.sign, -1);
}

#[test]
fn add_with_zero() {
    let d = FloatVar::add(&dec(0.0), &dec(2.5));
    assert_eq!(d, dec(2.5));
    let d = FloatVar::add(&dec(-2.5), &dec(0.0));
    assert_eq!(d, dec(-2.5));
    let d = FloatVar::add(&dec(0.0), &dec(-0.0));
    assert_eq!(d, dec(0.0));
    assert_eq!(d.sign, 1);
}

#[test]
fn add_cancellation_zero_convention() {
    // a + (-a) lands on the fixed zero triple: sign +1, exponent -1023,
    // mantissa 0, which is exactly the decoding of +0.0.
    for a in [1.0, -1.0, 2.5, 1e300, -1e-300, 123456.789] {
        let x = dec(a);
        let y = dec(a).neg();
        let d = FloatVar::add(&x, &y);
        assert_eq!(d.sign, 1);
        assert_eq!(d.exponent, -1023);
        assert_eq!(d.mantissa, 0);
        assert_eq!(d, dec(0.0));
    }
}

#[test]
fn add_rounding_tie_to_even() {
    // 2^53 + 1: the discarded remainder is exactly half a unit and the
    // kept mantissa 2^52 is even, so the tie rounds down: result 2^53.
    let a = 9007199254740992.0f64; // 2^53
    let d = FloatVar::add(&dec(a), &dec(1.0));
    assert_eq!(d, dec(a + 1.0));
    assert_eq!(d.mantissa, 0x10000000000000);
    // (2^53 + 2) + 1: again an exact tie, but the kept mantissa 2^52 + 1
    // is odd, so the tie rounds up: result 2^53 + 4.
    let a = 9007199254740994.0f64; // 2^53 + 2
    let d = FloatVar::add(&dec(a), &dec(1.0));
    assert_eq!(d, dec(a + 1.0));
    assert_eq!(d, dec(9007199254740996.0));
}

#[test]
fn add_rounding_above_and_below_half() {
    // (2^54 + 4) + 1: remainder 1 of unit 4 is below half, round down.
    let a = 18014398509481988.0f64; // 2^54 + 4
    let d = FloatVar::add(&dec(a), &dec(1.0));
    assert_eq!(d, dec(a + 1.0));
    // (2^54) + 3: remainder 3 of unit 4 is above half, round up.
    let a = 18014398509481984.0f64; // 2^54
    let d = FloatVar::add(&dec(a), &dec(3.0));
    assert_eq!(d, dec(a + 3.0));
}

#[test]
fn add_exponent_gap_around_clamp() {
    // Gaps just below, at, and beyond the clamp of 64: the negligible
    // small operand leaves the larger one unchanged, as native addition.
    let one = 1.0f64;
    for a in [
        9.223372036854776e18f64,  // 2^63, gap 63
        1.8446744073709552e19f64, // 2^64, gap 64
        3.6893488147419103e19f64, // 2^65, gap 65
        1.2676506002282294e30f64, // 2^100, gap 100
    ] {
        let d = FloatVar::add(&dec(a), &dec(one));
        assert_eq!(d, dec(a + one));
        assert_eq!(d, dec(a));
        let d = FloatVar::add(&dec(one), &dec(a));
        assert_eq!(d, dec(a));
    }
    // Opposite signs across the clamp: 1.5 * 2^65 - 1.0 still rounds back
    // to the larger operand.
    let a = 5.534023222112865e19f64; // 1.5 * 2^65
    let d = FloatVar::add(&dec(a), &dec(-1.0));
    assert_eq!(d, dec(a - 1.0));
    assert_eq!(d, dec(a));
}

#[test]
fn mul_concrete_values() {
    let d = FloatVar::mul(&dec(1.5), &dec(2.5));
    assert_eq!(d, dec(3.75));
    let d = FloatVar::mul(&dec(-1.5), &dec(2.5));
    assert_eq!(d, dec(-3.75));
    let d = FloatVar::mul(&dec(-1.5), &dec(-2.5));
    assert_eq!(d, dec(3.75));
}

#[test]
fn mul_with_zero() {
    let d = FloatVar::mul(&dec(0.0), &dec(2.5));
    assert_eq!(d.mantissa, 0);
    assert_eq!(d.sign, 1);
    let d = FloatVar::mul(&dec(-0.0), &dec(2.5));
    assert_eq!(d.sign, -1);
    assert_eq!(d.mantissa, 0);
}

#[test]
fn mul_rounding_tie_to_even() {
    // 1.5 * (1 + 2^-52): the 106-bit product's low half is exactly half a
    // unit and the kept mantissa is odd, so the tie rounds up.
    let a = 1.5f64;
    let b = f64::from_bits(0x3FF0000000000001); // 1 + 2^-52
    let d = FloatVar::mul(&dec(a), &dec(b));
    assert_eq!(d, dec(a * b));
}

#[test]
fn results_reencode_bit_for_bit() {
    // The gadget results decode-encode back to the native results' exact
    // IEEE-754 bit patterns.
    let pairs = [(1.5, 2.25), (-7.75, 0.375), (1e30, -3.25e12), (0.1, 0.2)];
    for (a, b) in pairs {
        let d = FloatVar::add(&dec(a), &dec(b));
        assert_eq!(d.to_bits(), (a + b).to_bits());
        let d = FloatVar::mul(&dec(a), &dec(b));
        assert_eq!(d.to_bits(), (a * b).to_bits());
    }
}

#[test]
fn neg_flips_only_the_sign() {
    let x = dec(2.5);
    let n = x.neg();
    assert_eq!(n.sign, -1);
    assert_eq!(n.exponent, x.exponent);
    assert_eq!(n.mantissa, x.mantissa);
    assert_eq!(n, dec(-2.5));
    assert_eq!(n.neg(), x);
}

#[test]
fn equal_accepts_identical_and_rejects_perturbed() {
    let c = FloatVar::add(&dec(1.5), &dec(2.25));
    let claimed = dec(3.75);
    assert!(FloatVar::equal(&c, &claimed));
    // A claimed triple off by one in any single component is rejected.
    let wrong = FloatVar { mantissa: claimed.mantissa + 1, ..claimed };
    assert!(!FloatVar::equal(&c, &wrong));
    let wrong = FloatVar { exponent: claimed.exponent + 1, ..claimed };
    assert!(!FloatVar::equal(&c, &wrong));
    let wrong = FloatVar { sign: -claimed.sign, ..claimed };
    assert!(!FloatVar::equal(&c, &wrong));
}

#[test]
fn equal_distinguishes_signed_zeros() {
    let pz = dec(0.0);
    let nz = dec(-0.0);
    assert!(!FloatVar::equal(&pz, &nz));
}
