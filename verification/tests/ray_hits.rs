use raytracer::hits::{clip_slabs, sphere_root, triangle_hit, Slab};
use raytracer::scalar::Scalar;

fn s(x: f32) -> Scalar {
    Scalar::from_bits(x.to_bits())
}

fn f(x: Scalar) -> f32 {
    f32::from_bits(x.bits)
}

#[test]
fn sphere_missed_when_discriminant_negative() {
    assert!(sphere_root(s(-1.0), s(3.0), s(f32::NAN), s(f32::NAN)).is_none());
}

#[test]
fn sphere_tangent_takes_the_double_root() {
    assert_eq!(f(sphere_root(s(0.0), s(3.0), s(3.0), s(3.0)).unwrap()), 3.0);
    assert_eq!(f(sphere_root(s(-0.0), s(-2.0), s(-2.0), s(-2.0)).unwrap()), -2.0);
}

#[test]
fn sphere_takes_the_smaller_positive_root() {
    assert_eq!(f(sphere_root(s(4.0), s(5.0), s(4.0), s(6.0)).unwrap()), 4.0);
    assert_eq!(f(sphere_root(s(4.0), s(5.0), s(6.0), s(4.0)).unwrap()), 4.0);
}

#[test]
fn sphere_behind_or_around_the_origin_is_missed() {
    // Both roots behind the ray.
    assert!(sphere_root(s(4.0), s(-5.0), s(-4.0), s(-6.0)).is_none());
    // The origin inside the sphere: the smaller root is negative.
    assert!(sphere_root(s(16.0), s(0.0), s(-2.0), s(2.0)).is_none());
}

#[test]
fn triangle_parallel_ray_misses() {
    assert!(triangle_hit(s(0.00005), s(1.0), s(0.1), s(0.1), s(0.2)).is_none());
    assert!(triangle_hit(s(-0.00005), s(1.0), s(0.1), s(0.1), s(0.2)).is_none());
}

#[test]
fn triangle_inside_is_hit() {
    assert_eq!(f(triangle_hit(s(2.0), s(7.5), s(0.25), s(0.5), s(0.75)).unwrap()), 7.5);
    assert_eq!(f(triangle_hit(s(-2.0), s(0.0), s(0.0), s(0.0), s(0.0)).unwrap()), 0.0);
    assert_eq!(f(triangle_hit(s(1.0), s(1.0), s(0.5), s(0.5), s(1.0)).unwrap()), 1.0);
}

#[test]
fn triangle_outside_or_behind_is_missed() {
    assert!(triangle_hit(s(2.0), s(-1.0), s(0.25), s(0.5), s(0.75)).is_none());
    assert!(triangle_hit(s(2.0), s(1.0), s(-0.25), s(0.5), s(0.25)).is_none());
    assert!(triangle_hit(s(2.0), s(1.0), s(0.25), s(-0.5), s(-0.25)).is_none());
    assert!(triangle_hit(s(2.0), s(1.0), s(0.75), s(0.5), s(1.25)).is_none());
}

/// The slab test as a ray tracer writes it over single-precision numbers.
fn slab_test(o: [f32; 3], d: [f32; 3], min: [f32; 3], max: [f32; 3], mut tmin: f32, mut tmax: f32) -> Option<(f32, f32)> {
    for i in 0..3 {
        let inv_d = 1.0 / d[i];
        let mut t0 = (min[i] - o[i]) * inv_d;
        let mut t1 = (max[i] - o[i]) * inv_d;
        if inv_d < 0.0 {
            std::mem::swap(&mut t0, &mut t1);
        }
        tmin = tmin.max(t0);
        tmax = tmax.min(t1);
        if tmax < tmin {
            return None;
        }
    }
    Some((tmin, tmax))
}

fn slabs(o: [f32; 3], d: [f32; 3], min: [f32; 3], max: [f32; 3]) -> [Slab; 3] {
    let one = |i: usize| {
        let inv = 1.0 / d[i];
        Slab { inv_dir: s(inv), t_lower: s((min[i] - o[i]) * inv), t_upper: s((max[i] - o[i]) * inv) }
    };
    [one(0), one(1), one(2)]
}

#[test]
fn clipping_matches_the_slab_test() {
    let min = [-1.0, -1.0, -1.0];
    let max = [1.0, 2.0, 3.0];
    let origins = [[-5.0, 0.0, 0.0], [0.0, 0.0, 0.0], [0.0, 5.0, 0.5], [3.0, 3.0, 3.0]];
    let dirs = [[1.0, 0.0, 0.0], [0.6, 0.8, 0.0], [0.0, -1.0, 0.0], [-0.5, -0.5, -0.7], [0.0, 0.0, 1.0], [1.0, 1.0, 1.0]];
    for o in origins.iter() {
        for d in dirs.iter() {
            let expected = slab_test(*o, *d, min, max, 0.0, 100.0);
            let got = clip_slabs(&slabs(*o, *d, min, max), s(0.0), s(100.0)).map(|(a, b)| (f(a), f(b)));
            assert_eq!(got, expected, "origin {:?} direction {:?}", o, d);
        }
    }
}

#[test]
fn clipping_a_ray_through_a_box() {
    let got = clip_slabs(&slabs([-5.0, 0.0, 0.0], [1.0, 0.0, 0.0], [-1.0; 3], [1.0; 3]), s(0.0), s(100.0)).unwrap();
    assert_eq!((f(got.0), f(got.1)), (4.0, 6.0));
    let missed = clip_slabs(&slabs([-5.0, 3.0, 0.0], [1.0, 0.0, 0.0], [-1.0; 3], [1.0; 3]), s(0.0), s(100.0));
    assert!(missed.is_none());
    let too_short = clip_slabs(&slabs([-5.0, 0.0, 0.0], [1.0, 0.0, 0.0], [-1.0; 3], [1.0; 3]), s(0.0), s(3.0));
    assert!(too_short.is_none());
}
