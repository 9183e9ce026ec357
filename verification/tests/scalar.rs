//! Comparing numbers by their encodings.

use mockterm::navigation::FARTHEST;
use mockterm::scalar::{Scalar, INFINITY, SIGN};

fn scalar(x: f32) -> Scalar {
    Scalar { bits: x.to_bits() }
}

const SAMPLES: [f32; 16] = [
    f32::NEG_INFINITY,
    f32::MIN,
    -400.5,
    -1.0,
    -f32::MIN_POSITIVE,
    -1.0e-44,
    -0.0,
    0.0,
    1.0e-44,
    f32::MIN_POSITIVE,
    0.05,
    1.0,
    400.5,
    f32::MAX,
    f32::INFINITY,
    f32::NAN,
];

#[test]
fn scalar_constants_are_the_encodings_they_name() {
    assert_eq!(SIGN, (-0.0f32).to_bits());
    assert_eq!(INFINITY, f32::INFINITY.to_bits());
    assert_eq!(FARTHEST, f32::MAX.to_bits());
}

#[test]
fn comparison_agrees_with_that_of_floats() {
    for a in SAMPLES {
        for b in SAMPLES {
            assert_eq!(scalar(a).lt(scalar(b)), a < b, "{a} < {b}");
        }
    }
    assert!(!scalar(-f32::NAN).lt(scalar(1.0)));
    assert!(!scalar(1.0).lt(scalar(-f32::NAN)));
}

#[test]
fn clamping_agrees_with_that_of_floats() {
    for x in SAMPLES {
        let kept = scalar(x).clamp(scalar(0.05), scalar(0.95));
        assert_eq!(kept.bits, x.clamp(0.05, 0.95).to_bits());
    }
}

#[test]
fn only_nan_is_no_number() {
    for x in SAMPLES {
        assert_eq!(scalar(x).number(), !x.is_nan());
    }
}
