use vstd::prelude::*;
use crate::scalar::{Scalar, ONE_BITS, ZERO_BITS};

verus! {

/// Bit pattern of `0.0001`, below which a triangle's determinant counts as
/// zero (the ray runs parallel to the triangle).
pub const TRIANGLE_EPSILON_BITS: u32 = 0x38D1_B717;

/// The parameter at which a ray meets a sphere, from the discriminant of the
/// quadratic, the double root `tangent` (used when the discriminant is zero)
/// and the two roots: none when the discriminant is negative; the double root
/// when it is zero; otherwise the smaller root if it is the strictly smaller
/// one and positive, and no hit in every other case.
pub open spec fn sphere_root_spec(determinant: Scalar, tangent: Scalar, root1: Scalar, root2: Scalar) -> Option<Scalar> {
    let zero = Scalar { bits: ZERO_BITS };
    if determinant.lt_spec(zero) {
        None
    } else if determinant.eq_spec(zero) {
        Some(tangent)
    } else if root1.lt_spec(root2) && zero.lt_spec(root1) {
        Some(root1)
    } else if root2.lt_spec(root1) && zero.lt_spec(root2) {
        Some(root2)
    } else {
        None
    }
}

/// Chooses where a ray meets a sphere (see `sphere_root_spec`).
pub fn sphere_root(determinant: Scalar, tangent: Scalar, root1: Scalar, root2: Scalar) -> (r: Option<Scalar>)
    ensures
        r == sphere_root_spec(determinant, tangent, root1, root2),
{
    let zero = Scalar::zero();
    if determinant.lt(&zero) {
        None
    } else if determinant.equals(&zero) {
        Some(tangent)
    } else if root1.lt(&root2) && root1.gt(&zero) {
        Some(root1)
    } else if root2.lt(&root1) && root2.gt(&zero) {
        Some(root2)
    } else {
        None
    }
}

/// The parameter at which a ray meets a triangle, from the determinant
/// `denom` of the Moller-Trumbore system, the ray parameter `omega`, the
/// barycentric coordinates `u` and `v`, and their sum `uv`: none when
/// `|denom| < 0.0001`, none when `omega`, `u` or `v` is below zero or `uv` is
/// above one, and `omega` otherwise.
pub open spec fn triangle_hit_spec(denom: Scalar, omega: Scalar, u: Scalar, v: Scalar, uv: Scalar) -> Option<Scalar> {
    let zero = Scalar { bits: ZERO_BITS };
    let one = Scalar { bits: ONE_BITS };
    if denom.abs_spec().lt_spec(Scalar { bits: TRIANGLE_EPSILON_BITS }) {
        None
    } else if omega.lt_spec(zero) || u.lt_spec(zero) || v.lt_spec(zero) || one.lt_spec(uv) {
        None
    } else {
        Some(omega)
    }
}

/// Decides whether a ray meets a triangle (see `triangle_hit_spec`).
pub fn triangle_hit(denom: Scalar, omega: Scalar, u: Scalar, v: Scalar, uv: Scalar) -> (r: Option<Scalar>)
    ensures
        r == triangle_hit_spec(denom, omega, u, v, uv),
{
    let zero = Scalar::zero();
    let one = Scalar::from_bits(ONE_BITS);
    if denom.abs().lt(&Scalar::from_bits(TRIANGLE_EPSILON_BITS)) {
        return None;
    }
    if omega.lt(&zero) || u.lt(&zero) || v.lt(&zero) || uv.gt(&one) {
        return None;
    }
    Some(omega)
}

/// One slab of a box along one axis, as a ray sees it: the reciprocal of the
/// ray's direction along the axis, and the parameters at which the ray
/// crosses the slab's lower and upper planes.
#[derive(Clone, Copy, Debug)]
pub struct Slab {
    pub inv_dir: Scalar,
    pub t_lower: Scalar,
    pub t_upper: Scalar,
}

/// The parameter interval `[tmin, tmax]` clipped by the slabs `slabs[from..]`
/// in order: each slab's entry and exit (its two crossings, swapped when the
/// ray runs backwards along the axis) raise `tmin` with `max` and lower `tmax`
/// with `min`, and the interval is empty (none) as soon as `tmax < tmin`.
pub open spec fn clip_slabs_spec(slabs: Seq<Slab>, from: int, tmin: Scalar, tmax: Scalar) -> Option<(Scalar, Scalar)>
    decreases slabs.len() - from,
{
    if from >= slabs.len() || from < 0 {
        Some((tmin, tmax))
    } else {
        let s = slabs[from];
        let backwards = s.inv_dir.lt_spec(Scalar { bits: ZERO_BITS });
        let t0 = if backwards { s.t_upper } else { s.t_lower };
        let t1 = if backwards { s.t_lower } else { s.t_upper };
        let lo = tmin.max_spec(t0);
        let hi = tmax.min_spec(t1);
        if hi.lt_spec(lo) {
            None
        } else {
            clip_slabs_spec(slabs, from + 1, lo, hi)
        }
    }
}

/// The part of `[tmin, tmax]` in which a ray is inside a box, given the box's
/// three slabs as the ray sees them (see `clip_slabs_spec`).
pub fn clip_slabs(slabs: &[Slab; 3], tmin: Scalar, tmax: Scalar) -> (r: Option<(Scalar, Scalar)>)
    ensures
        r == clip_slabs_spec(slabs@, 0, tmin, tmax),
{
    let mut lo = tmin;
    let mut hi = tmax;
    let mut i: usize = 0;
    while i < 3
        invariant
            i <= 3,
            slabs@.len() == 3,
            clip_slabs_spec(slabs@, 0, tmin, tmax) == clip_slabs_spec(slabs@, i as int, lo, hi),
        decreases 3 - i,
    {
        let s = slabs[i];
        let (t0, t1) = if s.inv_dir.lt(&Scalar::zero()) { (s.t_upper, s.t_lower) } else { (s.t_lower, s.t_upper) };
        lo = lo.max(t0);
        hi = hi.min(t1);
        if hi.lt(&lo) {
            return None;
        }
        i = i + 1;
    }
    Some((lo, hi))
}

/// A sphere hit is at a positive parameter, except the double root, which is
/// taken as it is; a hit from two roots is the smaller of them.
pub proof fn lemma_sphere_root(determinant: Scalar, tangent: Scalar, root1: Scalar, root2: Scalar)
    ensures
        sphere_root_spec(determinant, tangent, root1, root2) matches Some(t) ==> {
            ||| determinant.eq_spec(Scalar { bits: ZERO_BITS }) && t == tangent
            ||| (Scalar { bits: ZERO_BITS }).lt_spec(t) && (t == root1 || t == root2) && t.le_spec(root1) && t.le_spec(root2)
        },
{
}

/// A triangle hit is at a parameter of at least zero, inside the triangle
/// (barycentric coordinates at least zero and summing to at most one), for
/// a ray that is not parallel to it.
pub proof fn lemma_triangle_hit(denom: Scalar, omega: Scalar, u: Scalar, v: Scalar, uv: Scalar)
    ensures
        triangle_hit_spec(denom, omega, u, v, uv) matches Some(t) ==> {
            &&& t == omega
            &&& !denom.abs_spec().lt_spec(Scalar { bits: TRIANGLE_EPSILON_BITS })
            &&& !omega.is_nan_spec() ==> (Scalar { bits: ZERO_BITS }).le_spec(omega)
            &&& !u.is_nan_spec() ==> (Scalar { bits: ZERO_BITS }).le_spec(u)
            &&& !v.is_nan_spec() ==> (Scalar { bits: ZERO_BITS }).le_spec(v)
            &&& !uv.is_nan_spec() ==> uv.le_spec(Scalar { bits: ONE_BITS })
        },
{
}

/// When a sphere hit is reported: never for a negative discriminant, the
/// double root for a zero one, and for a positive one the smaller root
/// whenever it is strictly the smaller and positive.
pub proof fn lemma_sphere_root_reported(determinant: Scalar, tangent: Scalar, root1: Scalar, root2: Scalar)
    ensures
        determinant.lt_spec(Scalar { bits: 0 }) ==> sphere_root_spec(determinant, tangent, root1, root2) is None,
        determinant.eq_spec(Scalar { bits: 0 }) ==> sphere_root_spec(determinant, tangent, root1, root2) == Some(tangent),
        (Scalar { bits: 0 }).lt_spec(determinant) && root1.lt_spec(root2) && (Scalar { bits: 0 }).lt_spec(root1)
            ==> sphere_root_spec(determinant, tangent, root1, root2) == Some(root1),
        (Scalar { bits: 0 }).lt_spec(determinant) && root2.lt_spec(root1) && (Scalar { bits: 0 }).lt_spec(root2)
            ==> sphere_root_spec(determinant, tangent, root1, root2) == Some(root2),
        (Scalar { bits: 0 }).lt_spec(determinant) && !((Scalar { bits: 0 }).lt_spec(root1) && root1.lt_spec(root2))
            && !((Scalar { bits: 0 }).lt_spec(root2) && root2.lt_spec(root1))
            ==> sphere_root_spec(determinant, tangent, root1, root2) is None,
{
}

/// When a triangle hit is reported: for a ray that is not parallel to the
/// triangle (`|denom|` at least `0.0001`, the bit pattern `0x38D1_B717`), at a
/// parameter of at least zero, with barycentric coordinates at least zero
/// whose sum is at most one, the hit is reported at `omega`; and it is not
/// reported when `|denom|` is below `0.0001`.
pub proof fn lemma_triangle_hit_reported(denom: Scalar, omega: Scalar, u: Scalar, v: Scalar, uv: Scalar)
    ensures
        (Scalar { bits: 0x38D1_B717 }).le_spec(denom.abs_spec()) && (Scalar { bits: 0 }).le_spec(omega)
            && (Scalar { bits: 0 }).le_spec(u) && (Scalar { bits: 0 }).le_spec(v) && uv.le_spec(Scalar { bits: 0x3F80_0000 })
            ==> triangle_hit_spec(denom, omega, u, v, uv) == Some(omega),
        denom.abs_spec().lt_spec(Scalar { bits: 0x38D1_B717 }) ==> triangle_hit_spec(denom, omega, u, v, uv) is None,
{
}

/// Clipping only narrows: a clipped interval of an interval whose ends are
/// not NaN lies within it and is not empty.
pub proof fn lemma_clip_slabs_narrows(slabs: Seq<Slab>, from: int, tmin: Scalar, tmax: Scalar)
    requires
        !tmin.is_nan_spec(),
        !tmax.is_nan_spec(),
        0 <= from,
    ensures
        clip_slabs_spec(slabs, from, tmin, tmax) matches Some((lo, hi)) ==> {
            &&& tmin.le_spec(lo) && hi.le_spec(tmax)
            &&& from < slabs.len() ==> lo.le_spec(hi)
        },
    decreases slabs.len() - from,
{
    if from < slabs.len() {
        let s = slabs[from];
        let backwards = s.inv_dir.lt_spec(Scalar { bits: ZERO_BITS });
        let t0 = if backwards { s.t_upper } else { s.t_lower };
        let t1 = if backwards { s.t_lower } else { s.t_upper };
        let lo = tmin.max_spec(t0);
        let hi = tmax.min_spec(t1);
        crate::scalar::lemma_max(tmin, t0);
        crate::scalar::lemma_min(tmax, t1);
        lemma_clip_slabs_narrows(slabs, from + 1, lo, hi);
        if !hi.lt_spec(lo) {
            crate::scalar::lemma_trichotomy(lo, hi);
        }
    }
}

} // verus!
