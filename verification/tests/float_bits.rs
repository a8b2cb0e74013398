use raytracer::float_bits::{less, nan, order_key, zero, ONE_BITS};

#[test]
fn zero_has_two_signs() {
    assert!(zero(0.0f32.to_bits()));
    assert!(zero((-0.0f32).to_bits()));
    assert!(!zero(f32::MIN_POSITIVE.to_bits()));
    assert_eq!(order_key(0.0f32.to_bits()), order_key((-0.0f32).to_bits()));
}

#[test]
fn nan_is_detected_and_unordered() {
    let n = f32::NAN.to_bits();
    assert!(nan(n));
    assert!(nan((-f32::NAN).to_bits()));
    assert!(!nan(f32::INFINITY.to_bits()));
    assert!(!less(n, 1.0f32.to_bits()));
    assert!(!less(1.0f32.to_bits(), n));
}

#[test]
fn less_agrees_with_f32() {
    let xs = [
        f32::NEG_INFINITY, -3.5, -1.0, -f32::MIN_POSITIVE, -0.0, 0.0, 1e-40, 0.5, 1.0, 2.0, 1e30,
        f32::INFINITY, f32::NAN,
    ];
    for a in xs {
        for b in xs {
            assert_eq!(less(a.to_bits(), b.to_bits()), a < b, "{} < {}", a, b);
        }
    }
    assert_eq!(ONE_BITS, 1.0f32.to_bits());
}
