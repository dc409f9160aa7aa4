use engine::single::{less, less_eq, INFINITY, ONE, SIGN, ZERO};

fn samples() -> Vec<f32> {
    vec![
        0.0,
        -0.0,
        1.0,
        -1.0,
        0.5,
        -0.5,
        1e-45,
        -1e-45,
        f32::MIN_POSITIVE,
        f32::MAX,
        f32::MIN,
        f32::INFINITY,
        f32::NEG_INFINITY,
        f32::NAN,
        -f32::NAN,
        f32::from_bits(0x7FC0_0001),
        3.25,
        1e10,
        -1e10,
        0.0001,
    ]
}

#[test]
fn named_patterns() {
    assert_eq!(f32::from_bits(ZERO), 0.0);
    assert_eq!(f32::from_bits(ONE), 1.0);
    assert_eq!(SIGN, (-0.0f32).to_bits());
    assert_eq!(INFINITY, f32::INFINITY.to_bits());
}

#[test]
fn less_agrees_with_the_hardware() {
    for a in samples() {
        for b in samples() {
            assert_eq!(less(a.to_bits(), b.to_bits()), a < b, "{a} < {b}");
        }
    }
}

#[test]
fn less_eq_agrees_with_the_hardware() {
    for a in samples() {
        for b in samples() {
            assert_eq!(less_eq(a.to_bits(), b.to_bits()), a <= b, "{a} <= {b}");
        }
    }
}

#[test]
fn both_zeros_are_equal() {
    assert!(less_eq(ZERO, SIGN));
    assert!(less_eq(SIGN, ZERO));
    assert!(!less(SIGN, ZERO));
    assert!(!less(ZERO, SIGN));
}

#[test]
fn nothing_compares_with_what_is_no_number() {
    let nan = f32::NAN.to_bits();
    assert!(!less(nan, ONE) && !less(ONE, nan) && !less_eq(nan, nan));
}
