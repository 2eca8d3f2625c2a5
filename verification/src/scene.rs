use vstd::prelude::*;
use crate::scalar::{Scalar, ONE_BITS, ZERO_BITS, INFINITY_BITS};
use crate::geometry::{Point, AABB, lemma_split_covers, lemma_split_within, lemma_within_overlap};

verus! {

/// The three coordinate axes.
#[derive(PartialEq, Eq, Structural, Copy, Clone, Debug)]
pub enum Axes {
    X,
    Y,
    Z,
}

impl Axes {
    pub open spec fn next_spec(self) -> Axes {
        match self {
            Axes::X => Axes::Y,
            Axes::Y => Axes::Z,
            Axes::Z => Axes::X,
        }
    }

    /// The unit vector along the axis.
    pub open spec fn unit(self) -> Point {
        let one = Scalar { bits: ONE_BITS };
        let zero = Scalar { bits: ZERO_BITS };
        match self {
            Axes::X => Point { x: one, y: zero, z: zero },
            Axes::Y => Point { x: zero, y: one, z: zero },
            Axes::Z => Point { x: zero, y: zero, z: one },
        }
    }

    /// The axis that follows this one: X, then Y, then Z, then X again.
    pub fn next(&self) -> (r: Axes)
        ensures
            r == self.next_spec(),
    {
        match self {
            Axes::X => Axes::Y,
            Axes::Y => Axes::Z,
            Axes::Z => Axes::X,
        }
    }

    /// The unit vector along the axis.
    pub fn get(&self) -> (r: Point)
        ensures
            r == self.unit(),
    {
        let one = Scalar::from_bits(ONE_BITS);
        let zero = Scalar::from_bits(ZERO_BITS);
        match self {
            Axes::X => Point::new(one, zero, zero),
            Axes::Y => Point::new(zero, one, zero),
            Axes::Z => Point::new(zero, zero, one),
        }
    }
}


/// A node of the k-d tree over the objects' bounding boxes.
///
/// A leaf has neither child and lists the objects it holds by their index; an
/// interior node splits its voxel at `value` along `axis`: `front` holds the
/// half below the plane and `back` the half above it.
#[derive(Debug)]
pub struct KDNode {
    pub axis: Axes,
    pub value: Scalar,
    pub front: Option<Box<KDNode>>,
    pub back: Option<Box<KDNode>>,
    pub object_indices: Vec<usize>,
    pub voxel: AABB,
}

/// The indices among `indices` whose bounding box overlaps `region`, in order.
pub open spec fn overlapping(bounds: Seq<AABB>, indices: Seq<usize>, region: AABB) -> Seq<usize> {
    indices.filter(|i: usize| bounds[i as int].intersect_spec(region))
}

impl KDNode {
    pub open spec fn is_leaf(self) -> bool {
        self.front is None && self.back is None
    }

    /// Whether the node is a leaf holding exactly `indices` for `voxel`, as
    /// `new_leaf` makes it.
    pub open spec fn is_leaf_of(self, indices: Seq<usize>, voxel: AABB) -> bool {
        &&& self.is_leaf()
        &&& self.axis == Axes::X
        &&& self.value.bits == ZERO_BITS
        &&& self.object_indices@ == indices
        &&& self.voxel == voxel
    }

    /// Well-formedness for a world of `n` objects: a node has both children
    /// or neither, and every index that a leaf lists is below `n`.
    pub open spec fn wf(self, n: nat) -> bool
        decreases self,
    {
        match (self.front, self.back) {
            (None, None) => forall|k: int| 0 <= k < self.object_indices@.len() ==> #[trigger] self.object_indices@[k] < n,
            (Some(f), Some(b)) => f.wf(n) && b.wf(n),
            _ => false,
        }
    }

    /// Whether `i` is listed by some leaf of the tree (a node without both
    /// children counts as a leaf, as the search treats it).
    pub open spec fn holds(self, i: usize) -> bool
        decreases self,
    {
        match (self.front, self.back) {
            (Some(f), Some(b)) => f.holds(i) || b.holds(i),
            _ => self.object_indices@.contains(i),
        }
    }

    /// Whether `other` is this node or a node below it.
    pub open spec fn reaches(self, other: KDNode) -> bool
        decreases self,
    {
        ||| self == other
        ||| (match self.front {
            Some(f) => f.reaches(other),
            None => false,
        })
        ||| (match self.back {
            Some(b) => b.reaches(other),
            None => false,
        })
    }

    /// Whether `other` is a node strictly below this one.
    pub open spec fn below(self, other: KDNode) -> bool {
        ||| (match self.front {
            Some(f) => f.reaches(other),
            None => false,
        })
        ||| (match self.back {
            Some(b) => b.reaches(other),
            None => false,
        })
    }

    /// Whether `node` is the tree that `get_node` builds for the objects with
    /// bounding boxes `bounds`, the objects `indices`, the region `voxel`, the
    /// splitting axis `axis` and the depth `depth`, where each splitting value
    /// is one that `interpolate` returns for the voxel's extent along the axis
    /// and the fraction one half.
    ///
    /// Up to two objects, or below depth 32, make a leaf. Otherwise the voxel
    /// is split halfway along the axis, each half takes the objects
    /// whose box overlaps it (an object may go to both), and the halves are
    /// built one level deeper along the next axis.
    pub open spec fn builds<M: Fn(Scalar, Scalar, Scalar) -> Scalar>(
        node: KDNode,
        bounds: Seq<AABB>,
        indices: Seq<usize>,
        voxel: AABB,
        axis: Axes,
        depth: int,
        interpolate: M,
    ) -> bool
        decreases node,
    {
        if indices.len() <= 2 || depth > 32 {
            node.is_leaf_of(indices, voxel)
        } else {
            match (node.front, node.back) {
                (Some(f), Some(b)) => {
                    let halves = voxel.split_spec(axis, node.value);
                    &&& node.axis == axis
                    &&& node.voxel == voxel
                    &&& node.object_indices@.len() == 0
                    &&& call_ensures(interpolate, (voxel.min.along(axis), voxel.max.along(axis), Scalar { bits: SPLIT_BITS }), node.value)
                    &&& KDNode::builds(*f, bounds, overlapping(bounds, indices, halves.0), halves.0, axis.next_spec(), depth + 1, interpolate)
                    &&& KDNode::builds(*b, bounds, overlapping(bounds, indices, halves.1), halves.1, axis.next_spec(), depth + 1, interpolate)
                },
                _ => false,
            }
        }
    }

    /// A leaf holding `indices` for `voxel`.
    pub fn new_leaf(indices: Vec<usize>, voxel: AABB) -> (r: KDNode)
        ensures
            r.is_leaf_of(indices@, voxel),
    {
        KDNode { axis: Axes::X, value: Scalar::zero(), front: None, back: None, object_indices: indices, voxel }
    }

    /// An interior node splitting `voxel` at `value` along `axis`.
    pub fn new_interior(axis: Axes, value: Scalar, front: KDNode, back: KDNode, voxel: AABB) -> (r: KDNode)
        ensures
            r.axis == axis,
            r.value == value,
            r.front == Some(Box::new(front)),
            r.back == Some(Box::new(back)),
            r.object_indices@.len() == 0,
            r.voxel == voxel,
    {
        KDNode { axis, value, front: Some(Box::new(front)), back: Some(Box::new(back)), object_indices: Vec::new(), voxel }
    }

    /// Builds the k-d tree for the objects `indices` of `world` in the region
    /// `voxel`, splitting first along `curr_axis`; `depth` is the depth of the
    /// node being built. `interpolate(lo, hi, t)` gives the point at the
    /// fraction `t` of the way from `lo` to `hi`; the splitting value of a
    /// voxel that spans `lo` to `hi` along the splitting axis is the one at
    /// the fraction one half. A leaf (at most two objects, or past depth 32)
    /// reads no object's box, so only a node that splits needs its objects
    /// to be objects of the world.
    pub fn get_node<M: Fn(Scalar, Scalar, Scalar) -> Scalar>(
        world: &World,
        indices: Vec<usize>,
        voxel: AABB,
        curr_axis: Axes,
        depth: usize,
        interpolate: &M,
    ) -> (r: KDNode)
        requires
            indices@.len() > 2 && depth <= 32 ==>
                forall|k: int| 0 <= k < indices@.len() ==> #[trigger] indices@[k] < world.bounds@.len(),
            forall|lo: Scalar, hi: Scalar, t: Scalar| call_requires(*interpolate, (lo, hi, t)),
        ensures
            KDNode::builds(r, world.bounds@, indices@, voxel, curr_axis, depth as int, *interpolate),
            (forall|k: int| 0 <= k < indices@.len() ==> #[trigger] indices@[k] < world.bounds@.len())
                ==> r.wf(world.bounds@.len()),
            voxel.proper() && halfway_within(*interpolate) ==> forall|leaf: KDNode| #[trigger] r.below(leaf) && leaf.is_leaf()
                ==> leaf.object_indices@ == overlapping(world.bounds@, indices@, leaf.voxel),
        decreases 33 - depth,
    {
        if indices.len() <= 2 || depth > 32 {
            return KDNode::new_leaf(indices, voxel);
        }
        let split = Scalar::from_bits(SPLIT_BITS);
        let value = match curr_axis {
            Axes::X => interpolate(voxel.min.x, voxel.max.x, split),
            Axes::Y => interpolate(voxel.min.y, voxel.max.y, split),
            Axes::Z => interpolate(voxel.min.z, voxel.max.z, split),
        };
        let (left, right) = voxel.split(curr_axis, value);
        let ghost bounds = world.bounds@;
        let mut objs_left: Vec<usize> = Vec::new();
        let mut objs_right: Vec<usize> = Vec::new();
        let n = indices.len();
        for k in 0..n
            invariant
                n == indices@.len(),
                bounds == world.bounds@,
                forall|j: int| 0 <= j < indices@.len() ==> #[trigger] indices@[j] < bounds.len(),
                objs_left@ == overlapping(bounds, indices@.take(k as int), left),
                objs_right@ == overlapping(bounds, indices@.take(k as int), right),
                forall|j: int| 0 <= j < objs_left@.len() ==> #[trigger] objs_left@[j] < bounds.len(),
                forall|j: int| 0 <= j < objs_right@.len() ==> #[trigger] objs_right@[j] < bounds.len(),
        {
            let i = indices[k];
            proof {
                reveal(Seq::filter);
                assert(indices@.take(k + 1).drop_last() =~= indices@.take(k as int));
            }
            if world.bounds[i].intersect(&left) {
                objs_left.push(i);
            }
            if world.bounds[i].intersect(&right) {
                objs_right.push(i);
            }
        }
        proof {
            assert(indices@.take(n as int) =~= indices@);
        }
        let next = curr_axis.next();
        let front = KDNode::get_node(world, objs_left, left, next, depth + 1, interpolate);
        let back = KDNode::get_node(world, objs_right, right, next, depth + 1, interpolate);
        let r = KDNode::new_interior(curr_axis, value, front, back, voxel);
        proof {
            assert(KDNode::builds(r, bounds, indices@, voxel, curr_axis, depth as int, *interpolate));
            if voxel.proper() && halfway_within(*interpolate) {
                assert forall|leaf: KDNode| #[trigger] r.below(leaf) && leaf.is_leaf()
                    implies leaf.object_indices@ == overlapping(bounds, indices@, leaf.voxel) by {
                    KDNode::lemma_builds_leaves_exact(r, bounds, indices@, voxel, curr_axis, depth as int, *interpolate, leaf);
                }
            }
        }
        r
    }
}

/// The part of a scene that the k-d tree indexes: the bounding box of each
/// object, in the order the objects were added, and the tree itself.
pub struct World {
    pub bounds: Vec<AABB>,
    pub kdtree: KDNode,
}

/// A ray: an origin and a direction.
#[derive(Clone, Copy, Debug)]
pub struct Ray {
    pub origin: Point,
    pub direction: Point,
}

impl Ray {
    pub fn new(origin: Point, direction: Point) -> (r: Ray)
        ensures
            r == (Ray { origin, direction }),
    {
        Ray { origin, direction }
    }
}

/// Where a ray meets an object: the object's index and the ray parameter
/// `omega` at the meeting point.
#[derive(Clone, Copy, Debug)]
pub struct Hit {
    pub object: usize,
    pub omega: Scalar,
}

/// Bit pattern of `0.5`, the fraction of a voxel at which it is split.
pub const SPLIT_BITS: u32 = 0x3F00_0000;
/// Bit pattern of `1e-8`, below which a direction coordinate counts as zero.
pub const PARALLEL_BITS: u32 = 0x322B_CC77;
/// Bit pattern of `-50.0`, the lower corner of the region the k-d tree covers.
pub const REGION_LOW_BITS: u32 = 0xC248_0000;
/// Bit pattern of `50.0`, the upper corner of the region the k-d tree covers.
pub const REGION_HIGH_BITS: u32 = 0x4248_0000;

/// The nearest of the candidate hits `hits[k]` (of the objects `indices[k]`)
/// whose parameter lies in `[tmin, tmax]`, scanning in order and keeping the
/// first of equally near ones.
pub open spec fn leaf_best(indices: Seq<usize>, hits: Seq<Option<Scalar>>, tmin: Scalar, tmax: Scalar) -> Option<Hit>
    decreases indices.len(),
{
    if indices.len() == 0 || hits.len() != indices.len() {
        None
    } else {
        let prev = leaf_best(indices.drop_last(), hits.drop_last(), tmin, tmax);
        match hits.last() {
            Some(omega) => {
                if tmin.le_spec(omega) && omega.le_spec(tmax) && (prev is None || omega.lt_spec(prev->0.omega)) {
                    Some(Hit { object: indices.last(), omega })
                } else {
                    prev
                }
            },
            None => prev,
        }
    }
}

/// True of every value: it only gives the quantifier in `traversal` over the
/// result of the search on the near side of a plane a term to trigger on.
pub open spec fn result_trigger(r: Option<Hit>) -> bool {
    true
}

/// Whether `r` is a result that `traverse_tree` can give for `node`, the ray
/// `ray` and the parameter range `[tmin, tmax]`, where `intersect(i)` gives the
/// parameter at which the ray meets object `i` (if it does) and
/// `split_param(value, origin, direction)` gives the parameter `t_split` at
/// which the ray crosses a splitting plane.
///
/// At a leaf, `r` is the nearest hit in range among the leaf's objects. At an
/// interior node, a ray parallel to the plane goes to the side that holds its
/// origin. Otherwise the near side is the one the ray starts in, by the sign
/// of its direction: if the range ends before the plane only the near side is
/// searched, if it starts after the plane only the far side is; else the near
/// side is searched up to the plane (giving `r_near`), and if that finds
/// nothing the far side is searched from the plane on.
pub open spec fn traversal<H: Fn(usize) -> Option<Scalar>, S: Fn(Scalar, Scalar, Scalar) -> Scalar>(
    node: KDNode,
    ray: Ray,
    tmin: Scalar,
    tmax: Scalar,
    intersect: H,
    split_param: S,
    r: Option<Hit>,
) -> bool
    decreases node,
{
    if node.front is Some && node.back is Some {
        if node.crossed_along(ray).abs_spec().lt_spec(Scalar { bits: PARALLEL_BITS }) {
            if node.origin_along(ray).le_spec(node.value) {
                traversal(*node.front->0, ray, tmin, tmax, intersect, split_param, r)
            } else {
                traversal(*node.back->0, ray, tmin, tmax, intersect, split_param, r)
            }
        } else if (Scalar { bits: ZERO_BITS }).le_spec(node.crossed_along(ray)) {
            exists|t_split: Scalar, r_near: Option<Hit>|
                #![trigger call_ensures(split_param, (node.value, node.origin_along(ray), node.crossed_along(ray)), t_split), result_trigger(r_near)]
            {
                &&& result_trigger(r_near)
                &&& call_ensures(split_param, (node.value, node.origin_along(ray), node.crossed_along(ray)), t_split)
                &&& if tmax.le_spec(t_split) {
                    traversal(*node.front->0, ray, tmin, tmax, intersect, split_param, r)
                } else if t_split.le_spec(tmin) {
                    traversal(*node.back->0, ray, tmin, tmax, intersect, split_param, r)
                } else {
                    &&& traversal(*node.front->0, ray, tmin, t_split, intersect, split_param, r_near)
                    &&& r_near is Some ==> r == r_near
                    &&& r_near is None ==> traversal(*node.back->0, ray, t_split, tmax, intersect, split_param, r)
                }
            }
        } else {
            exists|t_split: Scalar, r_near: Option<Hit>|
                #![trigger call_ensures(split_param, (node.value, node.origin_along(ray), node.crossed_along(ray)), t_split), result_trigger(r_near)]
            {
                &&& result_trigger(r_near)
                &&& call_ensures(split_param, (node.value, node.origin_along(ray), node.crossed_along(ray)), t_split)
                &&& if tmax.le_spec(t_split) {
                    traversal(*node.back->0, ray, tmin, tmax, intersect, split_param, r)
                } else if t_split.le_spec(tmin) {
                    traversal(*node.front->0, ray, tmin, tmax, intersect, split_param, r)
                } else {
                    &&& traversal(*node.back->0, ray, tmin, t_split, intersect, split_param, r_near)
                    &&& r_near is Some ==> r == r_near
                    &&& r_near is None ==> traversal(*node.front->0, ray, t_split, tmax, intersect, split_param, r)
                }
            }
        }
    } else {
        exists|hits: Seq<Option<Scalar>>| {
            &&& hits.len() == node.object_indices@.len()
            &&& forall|k: int| 0 <= k < hits.len() ==> call_ensures(intersect, (#[trigger] node.object_indices@[k],), hits[k])
            &&& r == leaf_best(node.object_indices@, hits, tmin, tmax)
        }
    }
}

impl KDNode {
    /// The coordinate of the ray's origin along the node's splitting axis.
    pub open spec fn origin_along(self, ray: Ray) -> Scalar {
        ray.origin.along(self.axis)
    }

    /// The coordinate of the ray's direction along the node's splitting axis.
    pub open spec fn crossed_along(self, ray: Ray) -> Scalar {
        ray.direction.along(self.axis)
    }
}

/// Whether, for the ray `ray`, `split_param` gives no NaN at any interior
/// node of the tree `node` that the ray is not parallel to: the parameters at
/// which the ray crosses the splitting planes that the search computes are
/// numbers. A NaN there fails every comparison, so the search goes on below
/// the plane with a NaN bound, and a hit it finds there may lie outside the
/// range it was asked for.
pub open spec fn splits_not_nan<S: Fn(Scalar, Scalar, Scalar) -> Scalar>(node: KDNode, ray: Ray, split_param: S) -> bool
    decreases node,
{
    match (node.front, node.back) {
        (Some(f), Some(b)) => {
            &&& !node.crossed_along(ray).abs_spec().lt_spec(Scalar { bits: PARALLEL_BITS }) ==>
                forall|t: Scalar| #[trigger] call_ensures(split_param, (node.value, node.origin_along(ray), node.crossed_along(ray)), t)
                    ==> !t.is_nan_spec()
            &&& splits_not_nan(*f, ray, split_param)
            &&& splits_not_nan(*b, ray, split_param)
        },
        _ => true,
    }
}

impl World {
    /// Whether the tree lists only objects of this world.
    pub open spec fn wf(&self) -> bool {
        self.kdtree.wf(self.bounds@.len())
    }

    /// An empty world: no objects, and a tree that is one empty leaf.
    pub fn new() -> (r: World)
        ensures
            r.bounds@.len() == 0,
            r.kdtree.is_leaf_of(Seq::empty(), AABB { min: origin_spec(), max: origin_spec() }),
            r.wf(),
    {
        let kdtree = KDNode::new_leaf(Vec::new(), AABB { min: origin(), max: origin() });
        World { bounds: Vec::new(), kdtree }
    }

    /// Adds an object by its bounding box; its index is the number of objects
    /// before it.
    pub fn add(&mut self, bounds: AABB)
        ensures
            final(self).bounds@ == old(self).bounds@.push(bounds),
            final(self).kdtree == old(self).kdtree,
            old(self).wf() ==> final(self).wf(),
    {
        proof {
            if self.wf() {
                self.kdtree.lemma_wf_grows(self.bounds@.len(), self.bounds@.len() + 1);
            }
        }
        self.bounds.push(bounds);
    }

    /// Rebuilds the tree over all objects, in the region from `-50` to `50`
    /// on every axis, splitting first along X at depth 1.
    pub fn build_kdtree<M: Fn(Scalar, Scalar, Scalar) -> Scalar>(&mut self, interpolate: &M)
        requires
            old(self).bounds@.len() > 0,
            forall|lo: Scalar, hi: Scalar, t: Scalar| call_requires(*interpolate, (lo, hi, t)),
        ensures
            final(self).bounds@ == old(self).bounds@,
            KDNode::builds(final(self).kdtree, old(self).bounds@, Seq::new(old(self).bounds@.len(), |i: int| i as usize),
                kd_region(), Axes::X, 1, *interpolate),
            final(self).wf(),
            halfway_within(*interpolate) ==> forall|leaf: KDNode| #[trigger] final(self).kdtree.below(leaf) && leaf.is_leaf()
                ==> leaf.object_indices@ == overlapping(old(self).bounds@, Seq::new(old(self).bounds@.len(), |i: int| i as usize), leaf.voxel),
    {
        let n = self.bounds.len();
        let mut indices: Vec<usize> = Vec::new();
        for i in 0..n
            invariant
                n == self.bounds@.len(),
                indices@ == Seq::new(i as nat, |j: int| j as usize),
        {
            indices.push(i);
            proof {
                assert(indices@ =~= Seq::new((i + 1) as nat, |j: int| j as usize));
            }
        }
        let low = Scalar::from_bits(REGION_LOW_BITS);
        let high = Scalar::from_bits(REGION_HIGH_BITS);
        let region = AABB { min: Point::new(low, low, low), max: Point::new(high, high, high) };
        proof {
            assert(region == kd_region());
            assert(region.proper());
        }
        let tree = KDNode::get_node(self, indices, region, Axes::X, 1, interpolate);
        self.kdtree = tree;
    }

    /// The nearest hit that the tree search finds below `node` for the ray in
    /// the parameter range `[tmin, tmax]` (see `traversal`).
    pub fn traverse_tree<H: Fn(usize) -> Option<Scalar>, S: Fn(Scalar, Scalar, Scalar) -> Scalar>(
        &self,
        node: &KDNode,
        ray: &Ray,
        tmin: Scalar,
        tmax: Scalar,
        intersect: &H,
        split_param: &S,
    ) -> (r: Option<Hit>)
        requires
            node.wf(self.bounds@.len()),
            forall|i: usize| i < self.bounds@.len() ==> call_requires(*intersect, (i,)),
            forall|v: Scalar, o: Scalar, d: Scalar| call_requires(*split_param, (v, o, d)),
        ensures
            traversal(*node, *ray, tmin, tmax, *intersect, *split_param, r),
            r matches Some(h) ==> {
                &&& h.object < self.bounds@.len()
                &&& node.holds(h.object)
                &&& call_ensures(*intersect, (h.object,), Some(h.omega))
                &&& !tmin.is_nan_spec() && !tmax.is_nan_spec() && splits_not_nan(*node, *ray, *split_param) ==> hit_in_range(Some(h.omega), tmin, tmax)
            },
            splits_not_nan(*node, *ray, *split_param) ==> forall|i: usize, omega: Scalar|
                #[trigger] located(*node, *ray, *split_param, i, omega)
                && (forall|h: Option<Scalar>| #[trigger] call_ensures(*intersect, (i,), h) ==> h == Some(omega))
                && tmin.le_spec(omega) && omega.le_spec(tmax)
                ==> r is Some && r->0.omega.le_spec(omega),
        decreases node,
    {
        match (&node.front, &node.back) {
            (Some(front), Some(back)) => {
                let axis_val = ray.origin.coord(node.axis);
                let dir_val = ray.direction.coord(node.axis);
                if dir_val.abs().lt(&Scalar::from_bits(PARALLEL_BITS)) {
                    let child = if axis_val.le(&node.value) { front } else { back };
                    let r = self.traverse_tree(child, ray, tmin, tmax, intersect, split_param);
                    proof {
                        lemma_search_complete(*node, *ray, tmin, tmax, *intersect, *split_param, r);
                    }
                    return r;
                }
                let t_split = split_param(node.value, axis_val, dir_val);
                let forward = dir_val.ge(&Scalar::zero());
                let (near, far) = if forward { (front, back) } else { (back, front) };
                if t_split.ge(&tmax) {
                    let r = self.traverse_tree(near, ray, tmin, tmax, intersect, split_param);
                    proof {
                        assert(result_trigger(None));
                        lemma_search_complete(*node, *ray, tmin, tmax, *intersect, *split_param, r);
                    }
                    return r;
                }
                if t_split.le(&tmin) {
                    let r = self.traverse_tree(far, ray, tmin, tmax, intersect, split_param);
                    proof {
                        assert(result_trigger(None));
                        lemma_search_complete(*node, *ray, tmin, tmax, *intersect, *split_param, r);
                    }
                    return r;
                }
                let r_near = self.traverse_tree(near, ray, tmin, t_split, intersect, split_param);
                let r = if r_near.is_some() {
                    r_near
                } else {
                    self.traverse_tree(far, ray, t_split, tmax, intersect, split_param)
                };
                proof {
                    assert(result_trigger(r_near));
                    lemma_search_complete(*node, *ray, tmin, tmax, *intersect, *split_param, r);
                }
                r
            },
            _ => {
                let r = self.closest_in_leaf(node, tmin, tmax, intersect);
                proof {
                    assert(traversal(*node, *ray, tmin, tmax, *intersect, *split_param, r));
                    lemma_search_complete(*node, *ray, tmin, tmax, *intersect, *split_param, r);
                }
                r
            },
        }
    }

    /// The nearest hit in range among the objects that the leaf `node` lists.
    fn closest_in_leaf<H: Fn(usize) -> Option<Scalar>>(&self, node: &KDNode, tmin: Scalar, tmax: Scalar, intersect: &H) -> (r: Option<Hit>)
        requires
            forall|k: int| 0 <= k < node.object_indices@.len() ==> #[trigger] node.object_indices@[k] < self.bounds@.len(),
            forall|i: usize| i < self.bounds@.len() ==> call_requires(*intersect, (i,)),
        ensures
            exists|hits: Seq<Option<Scalar>>| {
                &&& hits.len() == node.object_indices@.len()
                &&& forall|k: int| 0 <= k < hits.len() ==> call_ensures(*intersect, (#[trigger] node.object_indices@[k],), hits[k])
                &&& r == leaf_best(node.object_indices@, hits, tmin, tmax)
            },
            r matches Some(h) ==> {
                &&& h.object < self.bounds@.len()
                &&& node.object_indices@.contains(h.object)
                &&& call_ensures(*intersect, (h.object,), Some(h.omega))
                &&& hit_in_range(Some(h.omega), tmin, tmax)
            },
    {
        let mut best: Option<Hit> = None;
        let ghost mut hits: Seq<Option<Scalar>> = Seq::empty();
        let n = node.object_indices.len();
        for k in 0..n
            invariant
                n == node.object_indices@.len(),
                forall|j: int| 0 <= j < n ==> #[trigger] node.object_indices@[j] < self.bounds@.len(),
                forall|i: usize| i < self.bounds@.len() ==> call_requires(*intersect, (i,)),
                hits.len() == k,
                forall|j: int| 0 <= j < k ==> call_ensures(*intersect, (#[trigger] node.object_indices@[j],), hits[j]),
                best == leaf_best(node.object_indices@.take(k as int), hits, tmin, tmax),
                best matches Some(h) ==> h.object < self.bounds@.len(),
        {
            let i = node.object_indices[k];
            let hit = intersect(i);
            proof {
                let ghost old_hits = hits;
                hits = hits.push(hit);
                assert(hits.drop_last() =~= old_hits);
                assert(node.object_indices@.take(k + 1).drop_last() =~= node.object_indices@.take(k as int));
            }
            if let Some(omega) = hit {
                if omega.ge(&tmin) && omega.le(&tmax) {
                    let closer = match best {
                        None => true,
                        Some(b) => omega.lt(&b.omega),
                    };
                    if closer {
                        best = Some(Hit { object: i, omega });
                    }
                }
            }
        }
        proof {
            assert(node.object_indices@.take(n as int) =~= node.object_indices@);
            lemma_leaf_best_nearest(node.object_indices@, hits, tmin, tmax);
            if best is Some {
                let h = best->0;
                let k = choose|k: int| 0 <= k < node.object_indices@.len() && node.object_indices@[k] == h.object && hits[k] == Some(h.omega);
                assert(call_ensures(*intersect, (node.object_indices@[k],), hits[k]));
                assert(node.object_indices@.contains(h.object));
            }
        }
        best
    }

    /// The nearest hit for the ray from parameter `+0` to `+inf`.
    pub fn spawn_ray<H: Fn(usize) -> Option<Scalar>, S: Fn(Scalar, Scalar, Scalar) -> Scalar>(
        &self,
        ray: Ray,
        intersect: &H,
        split_param: &S,
    ) -> (r: Option<Hit>)
        requires
            self.wf(),
            forall|i: usize| i < self.bounds@.len() ==> call_requires(*intersect, (i,)),
            forall|v: Scalar, o: Scalar, d: Scalar| call_requires(*split_param, (v, o, d)),
        ensures
            traversal(self.kdtree, ray, Scalar { bits: ZERO_BITS }, Scalar { bits: INFINITY_BITS }, *intersect, *split_param, r),
            r matches Some(h) ==> {
                &&& h.object < self.bounds@.len()
                &&& self.kdtree.holds(h.object)
                &&& call_ensures(*intersect, (h.object,), Some(h.omega))
                &&& splits_not_nan(self.kdtree, ray, *split_param) ==> hit_in_range(Some(h.omega), Scalar { bits: ZERO_BITS }, Scalar { bits: INFINITY_BITS })
            },
            splits_not_nan(self.kdtree, ray, *split_param) ==> forall|i: usize, omega: Scalar|
                #[trigger] located(self.kdtree, ray, *split_param, i, omega)
                && (forall|h: Option<Scalar>| #[trigger] call_ensures(*intersect, (i,), h) ==> h == Some(omega))
                && (Scalar { bits: ZERO_BITS }).le_spec(omega)
                ==> r is Some && r->0.omega.le_spec(omega),
    {
        let r = self.traverse_tree(&self.kdtree, &ray, Scalar::zero(), Scalar::infinity(), intersect, split_param);
        proof {
            if splits_not_nan(self.kdtree, ray, *split_param) {
                assert forall|i: usize, omega: Scalar|
                    #[trigger] located(self.kdtree, ray, *split_param, i, omega)
                    && (forall|h: Option<Scalar>| #[trigger] call_ensures(*intersect, (i,), h) ==> h == Some(omega))
                    && (Scalar { bits: ZERO_BITS }).le_spec(omega)
                    implies r is Some && r->0.omega.le_spec(omega) by {
                    lemma_traversal_complete(self.kdtree, ray, Scalar { bits: ZERO_BITS }, Scalar { bits: INFINITY_BITS },
                        *intersect, *split_param, r, i, omega);
                }
            }
        }
        r
    }
}

/// The region that `build_kdtree` divides: from `-50` to `50` on every axis.
pub open spec fn kd_region() -> AABB {
    let low = Scalar { bits: REGION_LOW_BITS };
    let high = Scalar { bits: REGION_HIGH_BITS };
    AABB { min: Point { x: low, y: low, z: low }, max: Point { x: high, y: high, z: high } }
}

/// The origin, `(+0, +0, +0)`.
pub open spec fn origin_spec() -> Point {
    let zero = Scalar { bits: ZERO_BITS };
    Point { x: zero, y: zero, z: zero }
}

/// The origin, `(+0, +0, +0)`.
pub fn origin() -> (r: Point)
    ensures
        r == origin_spec(),
{
    Point::new(Scalar::zero(), Scalar::zero(), Scalar::zero())
}

impl KDNode {
    /// A tree that is well-formed for `n` objects is so for more.
    pub proof fn lemma_wf_grows(self, n: nat, m: nat)
        requires
            self.wf(n),
            n <= m,
        ensures
            self.wf(m),
        decreases self,
    {
        match (self.front, self.back) {
            (Some(f), Some(b)) => {
                f.lemma_wf_grows(n, m);
                b.lemma_wf_grows(n, m);
            },
            _ => {},
        }
    }
}


/// Taking the next axis three times comes back to the same axis, and the
/// three axes met on the way are all different.
pub proof fn lemma_next_cycles(a: Axes)
    ensures
        a.next_spec().next_spec().next_spec() == a,
        a.next_spec() != a,
        a.next_spec().next_spec() != a,
{
}

/// Whether a candidate hit lies in the parameter range `[tmin, tmax]`.
pub open spec fn hit_in_range(hit: Option<Scalar>, tmin: Scalar, tmax: Scalar) -> bool {
    hit is Some && tmin.le_spec(hit->0) && hit->0.le_spec(tmax)
}

/// The leaf search keeps the nearest hit in range: a result is a hit that
/// `hits` reports for one of the listed objects, lies in `[tmin, tmax]`, and no
/// reported hit in range is nearer; there is no result exactly when no
/// reported hit lies in range.
pub proof fn lemma_leaf_best_nearest(indices: Seq<usize>, hits: Seq<Option<Scalar>>, tmin: Scalar, tmax: Scalar)
    requires
        hits.len() == indices.len(),
    ensures
        leaf_best(indices, hits, tmin, tmax) is Some ==> {
            let h = leaf_best(indices, hits, tmin, tmax)->0;
            &&& hit_in_range(Some(h.omega), tmin, tmax)
            &&& exists|k: int| 0 <= k < indices.len() && indices[k] == h.object && hits[k] == Some(h.omega)
            &&& forall|k: int| 0 <= k < hits.len() && hit_in_range(#[trigger] hits[k], tmin, tmax)
                ==> !hits[k]->0.lt_spec(h.omega)
        },
        leaf_best(indices, hits, tmin, tmax) is None <==> forall|k: int| 0 <= k < hits.len() ==>
            !hit_in_range(#[trigger] hits[k], tmin, tmax),
    decreases indices.len(),
{
    if indices.len() > 0 {
        let ip = indices.drop_last();
        let hp = hits.drop_last();
        lemma_leaf_best_nearest(ip, hp, tmin, tmax);
        let prev = leaf_best(ip, hp, tmin, tmax);
        let n = hits.len() - 1;
        assert forall|k: int| 0 <= k < n implies hits[k] == hp[k] && indices[k] == ip[k] by {}
        let res = leaf_best(indices, hits, tmin, tmax);
        if res is Some {
            let h = res->0;
            if prev is Some && h == prev->0 {
                let p = prev->0;
                let k0 = choose|k: int| 0 <= k < ip.len() && ip[k] == p.object && hp[k] == Some(p.omega);
                assert(indices[k0] == h.object && hits[k0] == Some(h.omega));
                assert forall|k: int| 0 <= k < hits.len() && hit_in_range(#[trigger] hits[k], tmin, tmax)
                    implies !hits[k]->0.lt_spec(h.omega) by {
                    if k < n {
                        assert(hp[k] == hits[k]);
                    }
                }
            } else {
                assert(indices[n] == h.object && hits[n] == Some(h.omega));
                assert forall|k: int| 0 <= k < hits.len() && hit_in_range(#[trigger] hits[k], tmin, tmax)
                    implies !hits[k]->0.lt_spec(h.omega) by {
                    if k < n {
                        assert(hp[k] == hits[k]);
                        if prev is Some {
                            let o = hits[k]->0;
                            let p = prev->0;
                            crate::scalar::lemma_trichotomy(o, p.omega);
                            if o.lt_spec(h.omega) {
                                crate::scalar::lemma_lt_transitive(o, h.omega, p.omega);
                            }
                        }
                    }
                }
            }
            let k0 = choose|k: int| 0 <= k < indices.len() && indices[k] == h.object && hits[k] == Some(h.omega);
            assert(hit_in_range(hits[k0], tmin, tmax));
        } else {
            assert forall|k: int| 0 <= k < hits.len() implies !hit_in_range(#[trigger] hits[k], tmin, tmax) by {
                if k < n {
                    assert(hp[k] == hits[k]);
                }
            }
        }
    }
}

impl KDNode {
    /// The two cases of `builds`, spelled out: a leaf of exactly the objects
    /// and the voxel, or a node that splits the voxel at a value `interpolate`
    /// gives and whose children are built for the two halves.
    pub proof fn lemma_builds_cases<M: Fn(Scalar, Scalar, Scalar) -> Scalar>(
        node: KDNode,
        bounds: Seq<AABB>,
        indices: Seq<usize>,
        voxel: AABB,
        axis: Axes,
        depth: int,
        interpolate: M,
    )
        requires
            KDNode::builds(node, bounds, indices, voxel, axis, depth, interpolate),
        ensures
            indices.len() <= 2 || depth > 32 ==> node.is_leaf_of(indices, voxel),
            !(indices.len() <= 2 || depth > 32) ==> {
                let halves = voxel.split_spec(axis, node.value);
                &&& node.front is Some && node.back is Some
                &&& node.axis == axis
                &&& node.voxel == voxel
                &&& node.object_indices@.len() == 0
                &&& call_ensures(interpolate, (voxel.min.along(axis), voxel.max.along(axis), Scalar { bits: SPLIT_BITS }), node.value)
                &&& KDNode::builds(*node.front->0, bounds, overlapping(bounds, indices, halves.0), halves.0, axis.next_spec(), depth + 1, interpolate)
                &&& KDNode::builds(*node.back->0, bounds, overlapping(bounds, indices, halves.1), halves.1, axis.next_spec(), depth + 1, interpolate)
            },
    {
    }

    /// Every object that a leaf of a built tree lists is one of the objects
    /// the tree was built for.
    pub proof fn lemma_builds_sound<M: Fn(Scalar, Scalar, Scalar) -> Scalar>(
        node: KDNode,
        bounds: Seq<AABB>,
        indices: Seq<usize>,
        voxel: AABB,
        axis: Axes,
        depth: int,
        interpolate: M,
        i: usize,
    )
        requires
            KDNode::builds(node, bounds, indices, voxel, axis, depth, interpolate),
            node.holds(i),
        ensures
            indices.contains(i),
        decreases node,
    {
        if indices.len() <= 2 || depth > 32 {
        } else {
            let halves = voxel.split_spec(axis, node.value);
            let f = *node.front->0;
            let b = *node.back->0;
            let pl = |j: usize| bounds[j as int].intersect_spec(halves.0);
            let pr = |j: usize| bounds[j as int].intersect_spec(halves.1);
            if f.holds(i) {
                KDNode::lemma_builds_sound(f, bounds, overlapping(bounds, indices, halves.0), halves.0, axis.next_spec(), depth + 1, interpolate, i);
                let k = choose|k: int| 0 <= k < indices.filter(pl).len() && indices.filter(pl)[k] == i;
                indices.lemma_filter_contains_rev(pl, i);
            } else {
                KDNode::lemma_builds_sound(b, bounds, overlapping(bounds, indices, halves.1), halves.1, axis.next_spec(), depth + 1, interpolate, i);
                indices.lemma_filter_contains_rev(pr, i);
            }
        }
    }

    /// A built tree loses no object: every object it was built for whose box
    /// overlaps the tree's region and is not inverted is listed by some leaf.
    pub proof fn lemma_builds_complete<M: Fn(Scalar, Scalar, Scalar) -> Scalar>(
        node: KDNode,
        bounds: Seq<AABB>,
        indices: Seq<usize>,
        voxel: AABB,
        axis: Axes,
        depth: int,
        interpolate: M,
        i: usize,
    )
        requires
            KDNode::builds(node, bounds, indices, voxel, axis, depth, interpolate),
            indices.contains(i),
            i < bounds.len(),
            bounds[i as int].intersect_spec(voxel),
            bounds[i as int].ordered(),
        ensures
            node.holds(i),
        decreases node,
    {
        if indices.len() <= 2 || depth > 32 {
        } else {
            let halves = voxel.split_spec(axis, node.value);
            let f = *node.front->0;
            let b = *node.back->0;
            let pl = |j: usize| bounds[j as int].intersect_spec(halves.0);
            let pr = |j: usize| bounds[j as int].intersect_spec(halves.1);
            let k = choose|k: int| 0 <= k < indices.len() && indices[k] == i;
            lemma_split_covers(voxel, axis, node.value, bounds[i as int]);
            if bounds[i as int].intersect_spec(halves.0) {
                indices.lemma_filter_contains(pl, k);
                KDNode::lemma_builds_complete(f, bounds, overlapping(bounds, indices, halves.0), halves.0, axis.next_spec(), depth + 1, interpolate, i);
            } else {
                indices.lemma_filter_contains(pr, k);
                KDNode::lemma_builds_complete(b, bounds, overlapping(bounds, indices, halves.1), halves.1, axis.next_spec(), depth + 1, interpolate, i);
            }
        }
    }
}

/// Whether `interpolate`, given two numbers `lo <= hi` and the fraction one
/// half, gives a number between them.
pub open spec fn halfway_within<M: Fn(Scalar, Scalar, Scalar) -> Scalar>(interpolate: M) -> bool {
    forall|lo: Scalar, hi: Scalar, v: Scalar|
        lo.le_spec(hi) && #[trigger] call_ensures(interpolate, (lo, hi, Scalar { bits: SPLIT_BITS }), v)
        ==> lo.le_spec(v) && v.le_spec(hi)
}

/// Taking the objects that overlap `outer` and then those of them that
/// overlap `inner`, a box within `outer`, gives the objects that overlap
/// `inner`, in the same order.
pub proof fn lemma_overlapping_within(bounds: Seq<AABB>, indices: Seq<usize>, inner: AABB, outer: AABB)
    requires
        inner.within(outer),
    ensures
        overlapping(bounds, overlapping(bounds, indices, outer), inner) == overlapping(bounds, indices, inner),
    decreases indices.len(),
{
    reveal(Seq::filter);
    if indices.len() > 0 {
        let rest = indices.drop_last();
        let i = indices.last();
        lemma_overlapping_within(bounds, rest, inner, outer);
        if bounds[i as int].intersect_spec(inner) {
            lemma_within_overlap(inner, outer, bounds[i as int]);
        }
        if bounds[i as int].intersect_spec(outer) {
            assert(overlapping(bounds, rest, outer).push(i).drop_last() =~= overlapping(bounds, rest, outer));
        }
    }
}

impl KDNode {
    /// Below a node whose objects are those of `base` that overlap its voxel,
    /// every leaf lists the objects of `base` that overlap the leaf's voxel.
    proof fn lemma_leaves_from<M: Fn(Scalar, Scalar, Scalar) -> Scalar>(
        node: KDNode,
        bounds: Seq<AABB>,
        indices: Seq<usize>,
        voxel: AABB,
        axis: Axes,
        depth: int,
        interpolate: M,
        base: Seq<usize>,
        leaf: KDNode,
    )
        requires
            KDNode::builds(node, bounds, indices, voxel, axis, depth, interpolate),
            voxel.proper(),
            halfway_within(interpolate),
            indices == overlapping(bounds, base, voxel),
            node.reaches(leaf),
            leaf.is_leaf(),
        ensures
            leaf.object_indices@ == overlapping(bounds, base, leaf.voxel),
        decreases node,
    {
        if indices.len() <= 2 || depth > 32 {
        } else {
            let f = *node.front->0;
            let b = *node.back->0;
            let halves = voxel.split_spec(axis, node.value);
            lemma_split_within(voxel, axis, node.value);
            lemma_overlapping_within(bounds, base, halves.0, voxel);
            lemma_overlapping_within(bounds, base, halves.1, voxel);
            if f.reaches(leaf) {
                KDNode::lemma_leaves_from(f, bounds, overlapping(bounds, indices, halves.0), halves.0, axis.next_spec(), depth + 1, interpolate, base, leaf);
            } else if b.reaches(leaf) {
                KDNode::lemma_leaves_from(b, bounds, overlapping(bounds, indices, halves.1), halves.1, axis.next_spec(), depth + 1, interpolate, base, leaf);
            }
        }
    }

    /// The leaves of a built tree are exact: when the tree is built from a
    /// proper region, with an `interpolate` that puts the halfway point of two
    /// ordered numbers between them, every leaf below the root lists exactly
    /// the objects, in their order, whose box overlaps the leaf's voxel.
    pub proof fn lemma_builds_leaves_exact<M: Fn(Scalar, Scalar, Scalar) -> Scalar>(
        node: KDNode,
        bounds: Seq<AABB>,
        indices: Seq<usize>,
        voxel: AABB,
        axis: Axes,
        depth: int,
        interpolate: M,
        leaf: KDNode,
    )
        requires
            KDNode::builds(node, bounds, indices, voxel, axis, depth, interpolate),
            voxel.proper(),
            halfway_within(interpolate),
            node.below(leaf),
            leaf.is_leaf(),
        ensures
            leaf.object_indices@ == overlapping(bounds, indices, leaf.voxel),
    {
        if indices.len() <= 2 || depth > 32 {
        } else {
            let f = *node.front->0;
            let b = *node.back->0;
            let halves = voxel.split_spec(axis, node.value);
            lemma_split_within(voxel, axis, node.value);
            if f.reaches(leaf) {
                KDNode::lemma_leaves_from(f, bounds, overlapping(bounds, indices, halves.0), halves.0, axis.next_spec(), depth + 1, interpolate, indices, leaf);
            } else {
                KDNode::lemma_leaves_from(b, bounds, overlapping(bounds, indices, halves.1), halves.1, axis.next_spec(), depth + 1, interpolate, indices, leaf);
            }
        }
    }
}

/// Whether the hit of object `i` at the ray parameter `omega` lies, at every
/// interior node of the tree `node` on its way, on the side where the ray is
/// at that parameter, down to a leaf that lists `i`: where the ray runs
/// parallel to the plane, on the side that holds its origin; otherwise, with
/// `t` the parameter at which the ray crosses the plane, on the side the ray
/// starts in (the near side) if `omega <= t`, and on the far side if
/// `t <= omega`. A hit point inside the voxel of a leaf that lists the object
/// is placed so.
pub open spec fn located<S: Fn(Scalar, Scalar, Scalar) -> Scalar>(node: KDNode, ray: Ray, split_param: S, i: usize, omega: Scalar) -> bool
    decreases node,
{
    if node.front is Some && node.back is Some {
        let in_front = located(*node.front->0, ray, split_param, i, omega);
        let in_back = located(*node.back->0, ray, split_param, i, omega);
        if node.crossed_along(ray).abs_spec().lt_spec(Scalar { bits: PARALLEL_BITS }) {
            if node.origin_along(ray).le_spec(node.value) { in_front } else { in_back }
        } else {
            let forward = (Scalar { bits: ZERO_BITS }).le_spec(node.crossed_along(ray));
            let in_near = if forward { in_front } else { in_back };
            let in_far = if forward { in_back } else { in_front };
            forall|t: Scalar| #[trigger] call_ensures(split_param, (node.value, node.origin_along(ray), node.crossed_along(ray)), t)
                ==> (omega.le_spec(t) ==> in_near) && (t.le_spec(omega) ==> in_far)
        }
    } else {
        node.object_indices@.contains(i)
    }
}

/// A result of the search lies in the range it was asked for, when the ends
/// of the range and the parameters at which the ray crosses the planes are
/// numbers.
pub proof fn lemma_traversal_in_range<H: Fn(usize) -> Option<Scalar>, S: Fn(Scalar, Scalar, Scalar) -> Scalar>(
    node: KDNode,
    ray: Ray,
    tmin: Scalar,
    tmax: Scalar,
    intersect: H,
    split_param: S,
    r: Option<Hit>,
)
    requires
        traversal(node, ray, tmin, tmax, intersect, split_param, r),
        splits_not_nan(node, ray, split_param),
        !tmin.is_nan_spec(),
        !tmax.is_nan_spec(),
    ensures
        r matches Some(h) ==> hit_in_range(Some(h.omega), tmin, tmax),
    decreases node,
{
    if node.front is Some && node.back is Some {
        let f = *node.front->0;
        let b = *node.back->0;
        if node.crossed_along(ray).abs_spec().lt_spec(Scalar { bits: PARALLEL_BITS }) {
            if node.origin_along(ray).le_spec(node.value) {
                lemma_traversal_in_range(f, ray, tmin, tmax, intersect, split_param, r);
            } else {
                lemma_traversal_in_range(b, ray, tmin, tmax, intersect, split_param, r);
            }
        } else {
            let forward = (Scalar { bits: ZERO_BITS }).le_spec(node.crossed_along(ray));
            let near = if forward { f } else { b };
            let far = if forward { b } else { f };
            let args = (node.value, node.origin_along(ray), node.crossed_along(ray));
            let (t, r_near) = if forward {
                choose|t_split: Scalar, r_near: Option<Hit>|
                #![trigger call_ensures(split_param, (node.value, node.origin_along(ray), node.crossed_along(ray)), t_split), result_trigger(r_near)]
            {
                &&& result_trigger(r_near)
                &&& call_ensures(split_param, (node.value, node.origin_along(ray), node.crossed_along(ray)), t_split)
                &&& if tmax.le_spec(t_split) {
                    traversal(*node.front->0, ray, tmin, tmax, intersect, split_param, r)
                } else if t_split.le_spec(tmin) {
                    traversal(*node.back->0, ray, tmin, tmax, intersect, split_param, r)
                } else {
                    &&& traversal(*node.front->0, ray, tmin, t_split, intersect, split_param, r_near)
                    &&& r_near is Some ==> r == r_near
                    &&& r_near is None ==> traversal(*node.back->0, ray, t_split, tmax, intersect, split_param, r)
                }
            }
            } else {
                choose|t_split: Scalar, r_near: Option<Hit>|
                #![trigger call_ensures(split_param, (node.value, node.origin_along(ray), node.crossed_along(ray)), t_split), result_trigger(r_near)]
            {
                &&& result_trigger(r_near)
                &&& call_ensures(split_param, (node.value, node.origin_along(ray), node.crossed_along(ray)), t_split)
                &&& if tmax.le_spec(t_split) {
                    traversal(*node.back->0, ray, tmin, tmax, intersect, split_param, r)
                } else if t_split.le_spec(tmin) {
                    traversal(*node.front->0, ray, tmin, tmax, intersect, split_param, r)
                } else {
                    &&& traversal(*node.back->0, ray, tmin, t_split, intersect, split_param, r_near)
                    &&& r_near is Some ==> r == r_near
                    &&& r_near is None ==> traversal(*node.front->0, ray, t_split, tmax, intersect, split_param, r)
                }
            }
            };
            assert(!t.is_nan_spec());
            if tmax.le_spec(t) {
                lemma_traversal_in_range(near, ray, tmin, tmax, intersect, split_param, r);
            } else if t.le_spec(tmin) {
                lemma_traversal_in_range(far, ray, tmin, tmax, intersect, split_param, r);
            } else {
                lemma_traversal_in_range(near, ray, tmin, t, intersect, split_param, r_near);
                if r_near is None {
                    lemma_traversal_in_range(far, ray, t, tmax, intersect, split_param, r);
                }
            }
        }
    } else {
        let hits = choose|hits: Seq<Option<Scalar>>| {
            &&& hits.len() == node.object_indices@.len()
            &&& forall|k: int| 0 <= k < hits.len() ==> call_ensures(intersect, (#[trigger] node.object_indices@[k],), hits[k])
            &&& r == leaf_best(node.object_indices@, hits, tmin, tmax)
        };
        lemma_leaf_best_nearest(node.object_indices@, hits, tmin, tmax);
    }
}

/// The search is complete for every object and parameter at once (see
/// `lemma_traversal_complete`).
pub proof fn lemma_search_complete<H: Fn(usize) -> Option<Scalar>, S: Fn(Scalar, Scalar, Scalar) -> Scalar>(
    node: KDNode,
    ray: Ray,
    tmin: Scalar,
    tmax: Scalar,
    intersect: H,
    split_param: S,
    r: Option<Hit>,
)
    requires
        traversal(node, ray, tmin, tmax, intersect, split_param, r),
    ensures
        splits_not_nan(node, ray, split_param) ==> forall|i: usize, omega: Scalar|
            #[trigger] located(node, ray, split_param, i, omega)
            && (forall|h: Option<Scalar>| #[trigger] call_ensures(intersect, (i,), h) ==> h == Some(omega))
            && tmin.le_spec(omega) && omega.le_spec(tmax)
            ==> r is Some && r->0.omega.le_spec(omega),
{
    if splits_not_nan(node, ray, split_param) {
        assert forall|i: usize, omega: Scalar|
            #[trigger] located(node, ray, split_param, i, omega)
            && (forall|h: Option<Scalar>| #[trigger] call_ensures(intersect, (i,), h) ==> h == Some(omega))
            && tmin.le_spec(omega) && omega.le_spec(tmax)
            implies r is Some && r->0.omega.le_spec(omega) by {
            lemma_traversal_complete(node, ray, tmin, tmax, intersect, split_param, r, i, omega);
        }
    }
}

/// The search is complete: if the object `i` reports exactly one hit, at a
/// parameter `omega` within `[tmin, tmax]`, and the hit lies in the tree where
/// the ray is at that parameter (see `located`), the search finds a hit, and
/// the hit it finds is no farther along the ray than `omega`.
pub proof fn lemma_traversal_complete<H: Fn(usize) -> Option<Scalar>, S: Fn(Scalar, Scalar, Scalar) -> Scalar>(
    node: KDNode,
    ray: Ray,
    tmin: Scalar,
    tmax: Scalar,
    intersect: H,
    split_param: S,
    r: Option<Hit>,
    i: usize,
    omega: Scalar,
)
    requires
        traversal(node, ray, tmin, tmax, intersect, split_param, r),
        splits_not_nan(node, ray, split_param),
        located(node, ray, split_param, i, omega),
        forall|h: Option<Scalar>| #[trigger] call_ensures(intersect, (i,), h) ==> h == Some(omega),
        tmin.le_spec(omega),
        omega.le_spec(tmax),
    ensures
        r is Some,
        r matches Some(h) ==> h.omega.le_spec(omega),
    decreases node,
{
    if node.front is Some && node.back is Some {
        let f = *node.front->0;
        let b = *node.back->0;
        if node.crossed_along(ray).abs_spec().lt_spec(Scalar { bits: PARALLEL_BITS }) {
            if node.origin_along(ray).le_spec(node.value) {
                lemma_traversal_complete(f, ray, tmin, tmax, intersect, split_param, r, i, omega);
            } else {
                lemma_traversal_complete(b, ray, tmin, tmax, intersect, split_param, r, i, omega);
            }
        } else {
            let forward = (Scalar { bits: ZERO_BITS }).le_spec(node.crossed_along(ray));
            let near = if forward { f } else { b };
            let far = if forward { b } else { f };
            let args = (node.value, node.origin_along(ray), node.crossed_along(ray));
            let (t, r_near) = if forward {
                choose|t_split: Scalar, r_near: Option<Hit>|
                #![trigger call_ensures(split_param, (node.value, node.origin_along(ray), node.crossed_along(ray)), t_split), result_trigger(r_near)]
            {
                &&& result_trigger(r_near)
                &&& call_ensures(split_param, (node.value, node.origin_along(ray), node.crossed_along(ray)), t_split)
                &&& if tmax.le_spec(t_split) {
                    traversal(*node.front->0, ray, tmin, tmax, intersect, split_param, r)
                } else if t_split.le_spec(tmin) {
                    traversal(*node.back->0, ray, tmin, tmax, intersect, split_param, r)
                } else {
                    &&& traversal(*node.front->0, ray, tmin, t_split, intersect, split_param, r_near)
                    &&& r_near is Some ==> r == r_near
                    &&& r_near is None ==> traversal(*node.back->0, ray, t_split, tmax, intersect, split_param, r)
                }
            }
            } else {
                choose|t_split: Scalar, r_near: Option<Hit>|
                #![trigger call_ensures(split_param, (node.value, node.origin_along(ray), node.crossed_along(ray)), t_split), result_trigger(r_near)]
            {
                &&& result_trigger(r_near)
                &&& call_ensures(split_param, (node.value, node.origin_along(ray), node.crossed_along(ray)), t_split)
                &&& if tmax.le_spec(t_split) {
                    traversal(*node.back->0, ray, tmin, tmax, intersect, split_param, r)
                } else if t_split.le_spec(tmin) {
                    traversal(*node.front->0, ray, tmin, tmax, intersect, split_param, r)
                } else {
                    &&& traversal(*node.back->0, ray, tmin, t_split, intersect, split_param, r_near)
                    &&& r_near is Some ==> r == r_near
                    &&& r_near is None ==> traversal(*node.front->0, ray, t_split, tmax, intersect, split_param, r)
                }
            }
            };
            assert(call_ensures(split_param, args, t));
            assert(!t.is_nan_spec());
            if tmax.le_spec(t) {
                lemma_traversal_complete(near, ray, tmin, tmax, intersect, split_param, r, i, omega);
            } else if t.le_spec(tmin) {
                lemma_traversal_complete(far, ray, tmin, tmax, intersect, split_param, r, i, omega);
            } else if omega.le_spec(t) {
                lemma_traversal_complete(near, ray, tmin, t, intersect, split_param, r_near, i, omega);
            } else {
                lemma_traversal_in_range(near, ray, tmin, t, intersect, split_param, r_near);
                if r_near is None {
                    lemma_traversal_complete(far, ray, t, tmax, intersect, split_param, r, i, omega);
                }
            }
        }
    } else {
        let idx = node.object_indices@;
        let hits = choose|hits: Seq<Option<Scalar>>| {
            &&& hits.len() == idx.len()
            &&& forall|k: int| 0 <= k < hits.len() ==> call_ensures(intersect, (#[trigger] idx[k],), hits[k])
            &&& r == leaf_best(idx, hits, tmin, tmax)
        };
        let k = choose|k: int| 0 <= k < idx.len() && idx[k] == i;
        assert(call_ensures(intersect, (idx[k],), hits[k]));
        assert(hits[k] == Some(omega));
        assert(hit_in_range(hits[k], tmin, tmax));
        lemma_leaf_best_nearest(idx, hits, tmin, tmax);
    }
}

} // verus!
