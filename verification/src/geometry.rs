use vstd::prelude::*;
use crate::scalar::Scalar;
use crate::scene::Axes;

verus! {

/// A point (or a vector) with three coordinates.
#[derive(Clone, Copy, Debug)]
pub struct Point {
    pub x: Scalar,
    pub y: Scalar,
    pub z: Scalar,
}

impl Point {
    pub fn new(x: Scalar, y: Scalar, z: Scalar) -> (r: Point)
        ensures
            r == (Point { x, y, z }),
    {
        Point { x, y, z }
    }

    /// The coordinate along `axis`.
    pub open spec fn along(self, axis: Axes) -> Scalar {
        match axis {
            Axes::X => self.x,
            Axes::Y => self.y,
            Axes::Z => self.z,
        }
    }

    /// This point with its coordinate along `axis` replaced by `value`.
    pub open spec fn with_along(self, axis: Axes, value: Scalar) -> Point {
        match axis {
            Axes::X => Point { x: value, ..self },
            Axes::Y => Point { y: value, ..self },
            Axes::Z => Point { z: value, ..self },
        }
    }

    /// The coordinate along `axis`.
    pub fn coord(&self, axis: Axes) -> (r: Scalar)
        ensures
            r == self.along(axis),
    {
        match axis {
            Axes::X => self.x,
            Axes::Y => self.y,
            Axes::Z => self.z,
        }
    }

    /// The componentwise minimum, each coordinate as `Scalar::min` gives it.
    pub open spec fn inf_spec(self, other: Point) -> Point {
        Point {
            x: self.x.min_spec(other.x),
            y: self.y.min_spec(other.y),
            z: self.z.min_spec(other.z),
        }
    }

    /// The componentwise maximum, each coordinate as `Scalar::max` gives it.
    pub open spec fn sup_spec(self, other: Point) -> Point {
        Point {
            x: self.x.max_spec(other.x),
            y: self.y.max_spec(other.y),
            z: self.z.max_spec(other.z),
        }
    }

    /// The componentwise minimum.
    pub fn inf(&self, other: &Point) -> (r: Point)
        ensures
            r == self.inf_spec(*other),
    {
        Point { x: self.x.min(other.x), y: self.y.min(other.y), z: self.z.min(other.z) }
    }

    /// The componentwise maximum.
    pub fn sup(&self, other: &Point) -> (r: Point)
        ensures
            r == self.sup_spec(*other),
    {
        Point { x: self.x.max(other.x), y: self.y.max(other.y), z: self.z.max(other.z) }
    }
}

/// An axis-aligned box, from its corner `min` to its corner `max`.
#[derive(Clone, Copy, Debug)]
pub struct AABB {
    pub min: Point,
    pub max: Point,
}

impl AABB {
    /// The two halves of this box on either side of the plane where the
    /// coordinate along `axis` is `value`: the first keeps `min` and ends at
    /// the plane, the second starts at the plane and keeps `max`.
    pub open spec fn split_spec(self, axis: Axes, value: Scalar) -> (AABB, AABB) {
        (
            AABB { min: self.min, max: self.max.with_along(axis, value) },
            AABB { min: self.min.with_along(axis, value), max: self.max },
        )
    }

    /// Whether the two boxes are disjoint along `axis`: one of them ends
    /// (by IEEE `<`) before the other starts.
    pub open spec fn apart_along(self, other: AABB, axis: Axes) -> bool {
        other.max.along(axis).lt_spec(self.min.along(axis))
            || self.max.along(axis).lt_spec(other.min.along(axis))
    }

    /// Whether the two boxes overlap: they are apart along no axis.
    pub open spec fn intersect_spec(self, other: AABB) -> bool {
        &&& !self.apart_along(other, Axes::X)
        &&& !self.apart_along(other, Axes::Y)
        &&& !self.apart_along(other, Axes::Z)
    }

    /// Whether the box is not inverted along `axis` (its `max` is not below
    /// its `min` there).
    pub open spec fn ordered_along(self, axis: Axes) -> bool {
        !self.max.along(axis).lt_spec(self.min.along(axis))
    }

    /// Whether the box is inverted along no axis.
    pub open spec fn ordered(self) -> bool {
        &&& self.ordered_along(Axes::X)
        &&& self.ordered_along(Axes::Y)
        &&& self.ordered_along(Axes::Z)
    }

    /// Whether the corners of the box are numbers and its `min` is at most
    /// its `max` along every axis.
    pub open spec fn proper(self) -> bool {
        &&& self.min.x.le_spec(self.max.x)
        &&& self.min.y.le_spec(self.max.y)
        &&& self.min.z.le_spec(self.max.z)
    }

    /// Whether the box lies within `outer` (by IEEE `<=` on each coordinate
    /// of the corners).
    pub open spec fn within(self, outer: AABB) -> bool {
        &&& outer.min.x.le_spec(self.min.x) &&& self.max.x.le_spec(outer.max.x)
        &&& outer.min.y.le_spec(self.min.y) &&& self.max.y.le_spec(outer.max.y)
        &&& outer.min.z.le_spec(self.min.z) &&& self.max.z.le_spec(outer.max.z)
    }

    /// Whether `p` lies in the box (by IEEE `<=` on each coordinate).
    pub open spec fn contains_spec(self, p: Point) -> bool {
        &&& self.min.x.le_spec(p.x) &&& p.x.le_spec(self.max.x)
        &&& self.min.y.le_spec(p.y) &&& p.y.le_spec(self.max.y)
        &&& self.min.z.le_spec(p.z) &&& p.z.le_spec(self.max.z)
    }

    /// Splits the box at `value` along `axis` (see `split_spec`).
    pub fn split(&self, axis: Axes, value: Scalar) -> (r: (AABB, AABB))
        ensures
            r == self.split_spec(axis, value),
    {
        let mut left_max = self.max;
        let mut right_min = self.min;
        match axis {
            Axes::X => {
                left_max.x = value;
                right_min.x = value;
            },
            Axes::Y => {
                left_max.y = value;
                right_min.y = value;
            },
            Axes::Z => {
                left_max.z = value;
                right_min.z = value;
            },
        }
        let left = AABB { min: self.min, max: left_max };
        let right = AABB { min: right_min, max: self.max };
        (left, right)
    }

    /// Whether the two boxes overlap (see `intersect_spec`).
    pub fn intersect(&self, other: &AABB) -> (r: bool)
        ensures
            r == self.intersect_spec(*other),
    {
        if self.min.x.gt(&other.max.x) || other.min.x.gt(&self.max.x) {
            return false;
        }
        if self.min.y.gt(&other.max.y) || other.min.y.gt(&self.max.y) {
            return false;
        }
        if self.min.z.gt(&other.max.z) || other.min.z.gt(&self.max.z) {
            return false;
        }
        true
    }
}

/// The bounding box of a triangle: the componentwise minimum and maximum of
/// its three corners, folded left to right with `Scalar::min` and `Scalar::max`.
pub open spec fn triangle_bounds_spec(p1: Point, p2: Point, p3: Point) -> AABB {
    AABB { min: p1.inf_spec(p2).inf_spec(p3), max: p1.sup_spec(p2).sup_spec(p3) }
}

/// The bounding box of the triangle with corners `p1`, `p2`, `p3`.
pub fn triangle_bounds(p1: &Point, p2: &Point, p3: &Point) -> (r: AABB)
    ensures
        r == triangle_bounds_spec(*p1, *p2, *p3),
{
    let min = Point {
        x: p1.x.min(p2.x).min(p3.x),
        y: p1.y.min(p2.y).min(p3.y),
        z: p1.z.min(p2.z).min(p3.z),
    };
    let max = Point {
        x: p1.x.max(p2.x).max(p3.x),
        y: p1.y.max(p2.y).max(p3.y),
        z: p1.z.max(p2.z).max(p3.z),
    };
    AABB { min, max }
}


/// Overlap does not depend on the order of the two boxes.
pub proof fn lemma_intersect_symmetric(a: AABB, b: AABB)
    ensures
        a.intersect_spec(b) == b.intersect_spec(a),
{
}

/// Splitting a box loses nothing: a box that overlaps it, and is not
/// inverted along the splitting axis, overlaps at least one of the halves,
/// whatever the splitting value.
pub proof fn lemma_split_covers(b: AABB, axis: Axes, value: Scalar, other: AABB)
    requires
        other.intersect_spec(b),
        other.ordered_along(axis),
    ensures
        other.intersect_spec(b.split_spec(axis, value).0) || other.intersect_spec(b.split_spec(axis, value).1),
{
    let (l, r) = b.split_spec(axis, value);
    if !other.intersect_spec(l) && !other.intersect_spec(r) {
        // Both halves are apart from `other` along `axis` only; this puts
        // `other.max` below `value` and `value` below `other.min`.
        crate::scalar::lemma_lt_transitive(other.max.along(axis), value, other.min.along(axis));
    }
}

/// The two halves of a split share the splitting plane, and each keeps the
/// other coordinates of the box.
pub proof fn lemma_split_halves(b: AABB, axis: Axes, value: Scalar)
    ensures
        b.split_spec(axis, value).0.min == b.min,
        b.split_spec(axis, value).1.max == b.max,
        b.split_spec(axis, value).0.max.along(axis) == value,
        b.split_spec(axis, value).1.min.along(axis) == value,
        forall|other: Axes| other != axis ==> #[trigger] b.split_spec(axis, value).0.max.along(other) == b.max.along(other)
            && b.split_spec(axis, value).1.min.along(other) == b.min.along(other),
{
}

/// A box that overlaps a box lying within `outer` overlaps `outer` too.
pub proof fn lemma_within_overlap(inner: AABB, outer: AABB, other: AABB)
    requires
        inner.within(outer),
        other.intersect_spec(inner),
    ensures
        other.intersect_spec(outer),
{
}

/// Splitting a proper box at a value within its extent along the axis gives
/// two proper halves, each within the box.
pub proof fn lemma_split_within(b: AABB, axis: Axes, value: Scalar)
    requires
        b.proper(),
        b.min.along(axis).le_spec(value),
        value.le_spec(b.max.along(axis)),
    ensures
        b.split_spec(axis, value).0.proper(),
        b.split_spec(axis, value).1.proper(),
        b.split_spec(axis, value).0.within(b),
        b.split_spec(axis, value).1.within(b),
{
}

/// The bounding box of a triangle whose corners have no NaN coordinate
/// contains the three corners and is not inverted.
pub proof fn lemma_triangle_bounds_contain(p1: Point, p2: Point, p3: Point)
    requires
        !p1.x.is_nan_spec() && !p1.y.is_nan_spec() && !p1.z.is_nan_spec(),
        !p2.x.is_nan_spec() && !p2.y.is_nan_spec() && !p2.z.is_nan_spec(),
        !p3.x.is_nan_spec() && !p3.y.is_nan_spec() && !p3.z.is_nan_spec(),
    ensures
        triangle_bounds_spec(p1, p2, p3).contains_spec(p1),
        triangle_bounds_spec(p1, p2, p3).contains_spec(p2),
        triangle_bounds_spec(p1, p2, p3).contains_spec(p3),
        triangle_bounds_spec(p1, p2, p3).ordered(),
{
}

/// The bounding box of a triangle whose corners have no NaN coordinate is
/// the tightest one: each coordinate of its `min` and of its `max` is the same
/// coordinate of one of the three corners, and no corner lies below its `min`
/// or above its `max`.
pub proof fn lemma_triangle_bounds_tight(p1: Point, p2: Point, p3: Point)
    requires
        !p1.x.is_nan_spec() && !p1.y.is_nan_spec() && !p1.z.is_nan_spec(),
        !p2.x.is_nan_spec() && !p2.y.is_nan_spec() && !p2.z.is_nan_spec(),
        !p3.x.is_nan_spec() && !p3.y.is_nan_spec() && !p3.z.is_nan_spec(),
    ensures
        forall|a: Axes| #![trigger p1.along(a)] {
            let b = triangle_bounds_spec(p1, p2, p3);
            &&& b.min.along(a) == p1.along(a) || b.min.along(a) == p2.along(a) || b.min.along(a) == p3.along(a)
            &&& b.max.along(a) == p1.along(a) || b.max.along(a) == p2.along(a) || b.max.along(a) == p3.along(a)
            &&& b.min.along(a).le_spec(p1.along(a)) && b.min.along(a).le_spec(p2.along(a)) && b.min.along(a).le_spec(p3.along(a))
            &&& p1.along(a).le_spec(b.max.along(a)) && p2.along(a).le_spec(b.max.along(a)) && p3.along(a).le_spec(b.max.along(a))
        },
{
}

} // verus!
