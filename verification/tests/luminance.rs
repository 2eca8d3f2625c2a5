use raytracer::scalar::Scalar;
use raytracer::tone::max_scene_lum;

fn s(x: f32) -> Scalar {
    Scalar::from_bits(x.to_bits())
}

#[test]
fn largest_luminance() {
    let lums = vec![s(0.5), s(3.25), s(1.0), s(3.0)];
    assert_eq!(f32::from_bits(max_scene_lum(&lums).bits), 3.25);
}

#[test]
fn dark_image_gives_zero() {
    assert_eq!(max_scene_lum(&[]).bits, 0.0f32.to_bits());
    let lums = vec![s(-1.0), s(0.0), s(-0.0)];
    assert_eq!(max_scene_lum(&lums).bits, 0.0f32.to_bits());
}

#[test]
fn nan_luminance_is_passed_over() {
    let lums = vec![s(f32::NAN), s(2.0), s(f32::NAN)];
    assert_eq!(f32::from_bits(max_scene_lum(&lums).bits), 2.0);
}
