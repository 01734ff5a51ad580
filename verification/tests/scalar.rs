use raylib::scalar::{Scalar, INFINITY_BITS, SIGN_BIT};

fn samples() -> Vec<f64> {
    vec![
        0.0,
        -0.0,
        1.0,
        -1.0,
        0.000001,
        9.0,
        -9.5,
        5e-324,
        -5e-324,
        2.2250738585072014e-308,
        f64::MAX,
        f64::MIN,
        f64::INFINITY,
        f64::NEG_INFINITY,
        f64::NAN,
        -f64::NAN,
        f64::from_bits(0x7FF0_0000_0000_0001),
        f64::from_bits(0xFFFF_FFFF_FFFF_FFFF),
        1.0000000000000002,
        0.9999999999999999,
    ]
}

#[test]
fn order_is_the_order_of_floating_point() {
    for a in samples() {
        for b in samples() {
            let x = Scalar::from_bits(a.to_bits());
            let y = Scalar::from_bits(b.to_bits());
            assert_eq!(x.lt(y), a < b, "{:?} < {:?}", a, b);
            assert_eq!(x.le(y), a <= b, "{:?} <= {:?}", a, b);
            assert_eq!(x.gt(y), a > b, "{:?} > {:?}", a, b);
            assert_eq!(x.ge(y), a >= b, "{:?} >= {:?}", a, b);
        }
    }
}

#[test]
fn not_a_number_is_recognised() {
    for a in samples() {
        assert_eq!(Scalar::from_bits(a.to_bits()).is_nan(), a.is_nan(), "{:?}", a);
    }
    assert!(!Scalar::from_bits(INFINITY_BITS).is_nan());
    assert!(Scalar::from_bits(INFINITY_BITS + 1).is_nan());
    assert!(!Scalar::from_bits(INFINITY_BITS | SIGN_BIT).is_nan());
}

#[test]
fn negation_flips_the_sign() {
    for a in samples() {
        let s = Scalar::from_bits(a.to_bits());
        assert_eq!(s.neg().to_bits(), (-a).to_bits());
        assert_eq!(s.neg().neg(), s);
    }
    assert_eq!(Scalar::from_bits(0).neg().to_bits(), SIGN_BIT);
}

#[test]
fn encodings_are_kept() {
    assert_eq!(Scalar::from_bits(0x3FF0_0000_0000_0000).to_bits(), 1.0f64.to_bits());
    assert_eq!(INFINITY_BITS, f64::INFINITY.to_bits());
    assert_eq!(Scalar::from_bits(7).bits, 7);
}
