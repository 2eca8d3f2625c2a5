use raytracer::geometry::{triangle_bounds, Point, AABB};
use raytracer::scalar::Scalar;
use raytracer::scene::Axes;

fn s(x: f32) -> Scalar {
    Scalar::from_bits(x.to_bits())
}

fn f(x: Scalar) -> f32 {
    f32::from_bits(x.bits)
}

fn p(x: f32, y: f32, z: f32) -> Point {
    Point::new(s(x), s(y), s(z))
}

fn bx(min: (f32, f32, f32), max: (f32, f32, f32)) -> AABB {
    AABB { min: p(min.0, min.1, min.2), max: p(max.0, max.1, max.2) }
}

fn coords(q: &Point) -> (f32, f32, f32) {
    (f(q.x), f(q.y), f(q.z))
}

#[test]
fn split_along_each_axis() {
    let b = bx((0.0, 0.0, 0.0), (4.0, 6.0, 8.0));
    let (l, r) = b.split(Axes::X, s(1.0));
    assert_eq!(coords(&l.min), (0.0, 0.0, 0.0));
    assert_eq!(coords(&l.max), (1.0, 6.0, 8.0));
    assert_eq!(coords(&r.min), (1.0, 0.0, 0.0));
    assert_eq!(coords(&r.max), (4.0, 6.0, 8.0));
    let (l, r) = b.split(Axes::Y, s(3.0));
    assert_eq!(coords(&l.max), (4.0, 3.0, 8.0));
    assert_eq!(coords(&r.min), (0.0, 3.0, 0.0));
    let (l, r) = b.split(Axes::Z, s(-2.0));
    assert_eq!(coords(&l.max), (4.0, 6.0, -2.0));
    assert_eq!(coords(&r.min), (0.0, 0.0, -2.0));
}

#[test]
fn intersect_overlapping_touching_and_apart() {
    let a = bx((0.0, 0.0, 0.0), (1.0, 1.0, 1.0));
    let overlapping = bx((0.5, 0.5, 0.5), (2.0, 2.0, 2.0));
    let touching = bx((1.0, 0.0, 0.0), (2.0, 1.0, 1.0));
    let apart_x = bx((1.5, 0.0, 0.0), (2.0, 1.0, 1.0));
    let apart_y = bx((0.0, -3.0, 0.0), (1.0, -0.5, 1.0));
    let apart_z = bx((0.0, 0.0, 2.0), (1.0, 1.0, 3.0));
    assert!(a.intersect(&overlapping));
    assert!(a.intersect(&touching));
    assert!(!a.intersect(&apart_x));
    assert!(!a.intersect(&apart_y));
    assert!(!a.intersect(&apart_z));
}

#[test]
fn intersect_is_symmetric() {
    let boxes = [
        bx((0.0, 0.0, 0.0), (1.0, 1.0, 1.0)),
        bx((0.5, -1.0, 0.2), (3.0, 0.1, 0.3)),
        bx((2.0, 2.0, 2.0), (3.0, 3.0, 3.0)),
        bx((-1.0, -1.0, -1.0), (f32::NAN, 0.0, 0.0)),
    ];
    for a in boxes.iter() {
        for b in boxes.iter() {
            assert_eq!(a.intersect(b), b.intersect(a));
        }
    }
}

#[test]
fn split_halves_cover_the_box() {
    let b = bx((0.0, 0.0, 0.0), (10.0, 10.0, 10.0));
    let (l, r) = b.split(Axes::X, s(5.0));
    let others = [
        bx((1.0, 1.0, 1.0), (2.0, 2.0, 2.0)),
        bx((6.0, 1.0, 1.0), (7.0, 2.0, 2.0)),
        bx((4.0, 1.0, 1.0), (6.0, 2.0, 2.0)),
        bx((5.0, 5.0, 5.0), (5.0, 5.0, 5.0)),
    ];
    for o in others.iter() {
        assert!(o.intersect(&b));
        assert!(o.intersect(&l) || o.intersect(&r));
    }
    assert!(others[0].intersect(&l) && !others[0].intersect(&r));
    assert!(!others[1].intersect(&l) && others[1].intersect(&r));
    assert!(others[2].intersect(&l) && others[2].intersect(&r));
}

#[test]
fn triangle_bounds_take_componentwise_extremes() {
    let b = triangle_bounds(&p(-7.0, 0.0, 20.0), &p(7.0, 0.0, 20.0), &p(-7.0, 5.0, -20.0));
    assert_eq!(coords(&b.min), (-7.0, 0.0, -20.0));
    assert_eq!(coords(&b.max), (7.0, 5.0, 20.0));
    let flat = triangle_bounds(&p(1.0, 2.0, 3.0), &p(1.0, 2.0, 3.0), &p(1.0, 2.0, 3.0));
    assert_eq!(coords(&flat.min), (1.0, 2.0, 3.0));
    assert_eq!(coords(&flat.max), (1.0, 2.0, 3.0));
}

#[test]
fn triangle_bounds_contain_the_corners() {
    let corners = [p(0.5, -1.0, 2.0), p(-3.0, 4.0, 0.0), p(2.0, 2.0, -8.0)];
    let b = triangle_bounds(&corners[0], &corners[1], &corners[2]);
    for c in corners.iter() {
        assert!(b.min.x.le(&c.x) && c.x.le(&b.max.x));
        assert!(b.min.y.le(&c.y) && c.y.le(&b.max.y));
        assert!(b.min.z.le(&c.z) && c.z.le(&b.max.z));
    }
}

#[test]
fn point_inf_and_sup() {
    let a = p(1.0, -2.0, 3.0);
    let b = p(0.0, 5.0, 3.5);
    assert_eq!(coords(&a.inf(&b)), (0.0, -2.0, 3.0));
    assert_eq!(coords(&a.sup(&b)), (1.0, 5.0, 3.5));
    assert_eq!(f(a.coord(Axes::Y)), -2.0);
}
