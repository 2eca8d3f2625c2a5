use raytracer::scalar::Scalar;

fn s(x: f32) -> Scalar {
    Scalar::from_bits(x.to_bits())
}

fn f(x: Scalar) -> f32 {
    f32::from_bits(x.bits)
}

#[test]
fn comparisons_follow_ieee() {
    let values = [
        -f32::INFINITY, -3.5, -1.0, -0.0, 0.0, 1e-30, 0.5, 1.0, 2.0, 1e30, f32::INFINITY, f32::NAN,
    ];
    for &a in values.iter() {
        for &b in values.iter() {
            assert_eq!(s(a).lt(&s(b)), a < b, "{} < {}", a, b);
            assert_eq!(s(a).le(&s(b)), a <= b, "{} <= {}", a, b);
            assert_eq!(s(a).gt(&s(b)), a > b, "{} > {}", a, b);
            assert_eq!(s(a).ge(&s(b)), a >= b, "{} >= {}", a, b);
            assert_eq!(s(a).equals(&s(b)), a == b, "{} == {}", a, b);
        }
    }
}

#[test]
fn zeros_are_equal() {
    assert!(s(0.0).equals(&s(-0.0)));
    assert!(!s(0.0).lt(&s(-0.0)));
    assert!(!s(-0.0).lt(&s(0.0)));
    assert!(s(-0.0).le(&s(0.0)));
}

#[test]
fn nan_is_unordered() {
    let nan = s(f32::NAN);
    assert!(nan.is_nan());
    assert!(!nan.lt(&s(1.0)));
    assert!(!s(1.0).lt(&nan));
    assert!(!nan.le(&nan));
    assert!(!nan.equals(&nan));
    assert!(!s(f32::INFINITY).is_nan());
}

#[test]
fn min_and_max_follow_std() {
    let values = [-f32::INFINITY, -2.0, -1.0, 0.0, 1.0, 7.25, f32::INFINITY];
    for &a in values.iter() {
        for &b in values.iter() {
            assert_eq!(f(s(a).min(s(b))), a.min(b));
            assert_eq!(f(s(a).max(s(b))), a.max(b));
        }
    }
}

#[test]
fn min_and_max_pass_over_nan() {
    assert_eq!(f(s(f32::NAN).min(s(3.0))), 3.0);
    assert_eq!(f(s(3.0).min(s(f32::NAN))), 3.0);
    assert_eq!(f(s(f32::NAN).max(s(-3.0))), -3.0);
    assert_eq!(f(s(-3.0).max(s(f32::NAN))), -3.0);
    assert!(f(s(f32::NAN).min(s(f32::NAN))).is_nan());
}

#[test]
fn abs_and_neg_flip_the_sign_bit() {
    assert_eq!(f(s(-2.5).abs()), 2.5);
    assert_eq!(f(s(2.5).abs()), 2.5);
    assert_eq!(f(s(2.5).neg()), -2.5);
    assert_eq!(f(s(-2.5).neg()), 2.5);
    assert_eq!(s(0.0).neg().bits, (-0.0f32).to_bits());
    assert_eq!(s(1.5).neg().neg().bits, s(1.5).bits);
    assert!(s(-1.0).lt(&s(1.0)) && s(1.0).neg().lt(&s(-1.0).neg()));
}

#[test]
fn constants() {
    assert_eq!(f(Scalar::zero()), 0.0);
    assert_eq!(f(Scalar::infinity()), f32::INFINITY);
}
