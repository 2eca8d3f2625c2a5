use raytracer::geometry::{Point, AABB};
use raytracer::scalar::Scalar;
use raytracer::scene::{Axes, KDNode, Ray, World};

fn s(x: f32) -> Scalar {
    Scalar::from_bits(x.to_bits())
}

fn f(x: Scalar) -> f32 {
    f32::from_bits(x.bits)
}

fn p(x: f32, y: f32, z: f32) -> Point {
    Point::new(s(x), s(y), s(z))
}

fn cube(c: (f32, f32, f32), r: f32) -> AABB {
    AABB { min: p(c.0 - r, c.1 - r, c.2 - r), max: p(c.0 + r, c.1 + r, c.2 + r) }
}

fn interpolate(lo: Scalar, hi: Scalar, t: Scalar) -> Scalar {
    s(((f(hi) - f(lo)) * f(t)) + f(lo))
}

fn split_param(value: Scalar, origin: Scalar, dir: Scalar) -> Scalar {
    s((f(value) - f(origin)) / f(dir))
}

/// Ray parameter of the nearest positive meeting with a sphere, as a ray
/// tracer computes it.
fn sphere_hit(center: (f32, f32, f32), radius: f32, ray: &Ray) -> Option<Scalar> {
    let o = (f(ray.origin.x) - center.0, f(ray.origin.y) - center.1, f(ray.origin.z) - center.2);
    let d = (f(ray.direction.x), f(ray.direction.y), f(ray.direction.z));
    let b = 2.0 * (d.0 * o.0 + d.1 * o.1 + d.2 * o.2);
    let c = o.0 * o.0 + o.1 * o.1 + o.2 * o.2 - radius * radius;
    let det = b * b - 4.0 * c;
    if det < 0.0 {
        return None;
    }
    let r1 = (-b + det.sqrt()) / 2.0;
    let r2 = (-b - det.sqrt()) / 2.0;
    if r1 < r2 && r1 > 0.0 {
        Some(s(r1))
    } else if r2 <= r1 && r2 > 0.0 {
        Some(s(r2))
    } else {
        None
    }
}

fn leaf_indices(node: &KDNode, out: &mut Vec<Vec<usize>>) {
    match (&node.front, &node.back) {
        (Some(front), Some(back)) => {
            leaf_indices(front, out);
            leaf_indices(back, out);
        }
        _ => out.push(node.object_indices.clone()),
    }
}

fn depth(node: &KDNode) -> usize {
    match (&node.front, &node.back) {
        (Some(front), Some(back)) => 1 + depth(front).max(depth(back)),
        _ => 0,
    }
}

#[test]
fn axes_cycle() {
    for a in [Axes::X, Axes::Y, Axes::Z].iter() {
        assert_eq!(a.next().next().next(), *a);
        assert_ne!(a.next(), *a);
    }
    assert_eq!(Axes::X.next(), Axes::Y);
    assert_eq!(Axes::Y.next(), Axes::Z);
    assert_eq!(Axes::Z.next(), Axes::X);
}

#[test]
fn axes_unit_vectors() {
    let x = Axes::X.get();
    let y = Axes::Y.get();
    let z = Axes::Z.get();
    assert_eq!((f(x.x), f(x.y), f(x.z)), (1.0, 0.0, 0.0));
    assert_eq!((f(y.x), f(y.y), f(y.z)), (0.0, 1.0, 0.0));
    assert_eq!((f(z.x), f(z.y), f(z.z)), (0.0, 0.0, 1.0));
}

#[test]
fn new_world_is_empty() {
    let w = World::new();
    assert_eq!(w.bounds.len(), 0);
    assert!(w.kdtree.front.is_none() && w.kdtree.back.is_none());
    assert!(w.kdtree.object_indices.is_empty());
}

#[test]
fn leaf_and_interior_constructors() {
    let leaf = KDNode::new_leaf(vec![3, 1], cube((0.0, 0.0, 0.0), 1.0));
    assert_eq!(leaf.object_indices, vec![3, 1]);
    assert_eq!(leaf.axis, Axes::X);
    assert_eq!(f(leaf.value), 0.0);
    let other = KDNode::new_leaf(vec![], cube((0.0, 0.0, 0.0), 1.0));
    let node = KDNode::new_interior(Axes::Z, s(0.25), leaf, other, cube((0.0, 0.0, 0.0), 2.0));
    assert_eq!(node.axis, Axes::Z);
    assert_eq!(f(node.value), 0.25);
    assert!(node.front.is_some() && node.back.is_some());
    assert!(node.object_indices.is_empty());
}

#[test]
fn few_objects_make_a_leaf() {
    let mut w = World::new();
    w.add(cube((1.0, 1.0, 1.0), 0.5));
    w.add(cube((-1.0, 1.0, 1.0), 0.5));
    let region = cube((0.0, 0.0, 0.0), 50.0);
    let node = KDNode::get_node(&w, vec![0, 1], region, Axes::X, 1, &interpolate);
    assert!(node.front.is_none() && node.back.is_none());
    assert_eq!(node.object_indices, vec![0, 1]);
}

#[test]
fn deep_nodes_are_leaves() {
    let mut w = World::new();
    for _ in 0..4 {
        w.add(cube((0.0, 0.0, 0.0), 50.0));
    }
    let region = cube((0.0, 0.0, 0.0), 50.0);
    let node = KDNode::get_node(&w, vec![0, 1, 2, 3], region, Axes::Y, 33, &interpolate);
    assert!(node.front.is_none() && node.back.is_none());
    assert_eq!(node.object_indices, vec![0, 1, 2, 3]);
}

#[test]
fn split_partitions_by_overlap() {
    let mut w = World::new();
    w.add(cube((-10.0, 0.0, 0.0), 1.0));
    w.add(cube((10.0, 0.0, 0.0), 1.0));
    w.add(cube((0.0, 0.0, 0.0), 1.0));
    let region = cube((0.0, 0.0, 0.0), 50.0);
    let node = KDNode::get_node(&w, vec![0, 1, 2], region, Axes::X, 1, &interpolate);
    assert_eq!(node.axis, Axes::X);
    assert_eq!(f(node.value), 0.0);
    let front = node.front.as_ref().unwrap();
    let back = node.back.as_ref().unwrap();
    assert_eq!(front.object_indices, vec![0, 2]);
    assert_eq!(back.object_indices, vec![1, 2]);
    assert_eq!(f(front.voxel.max.x), 0.0);
    assert_eq!(f(back.voxel.min.x), 0.0);
    assert!(front.front.is_none() && back.front.is_none());
}

#[test]
fn built_tree_loses_no_object() {
    let mut w = World::new();
    let centers = [
        (-20.0, -20.0, -20.0), (20.0, 5.0, 0.0), (0.5, 0.5, 0.5), (-3.0, 12.0, 7.0),
        (15.0, -15.0, 30.0), (-40.0, 40.0, -10.0), (8.0, 8.0, -8.0),
    ];
    for c in centers.iter() {
        w.add(cube(*c, 1.5));
    }
    w.build_kdtree(&interpolate);
    assert_eq!(w.bounds.len(), centers.len());
    let mut leaves = Vec::new();
    leaf_indices(&w.kdtree, &mut leaves);
    for i in 0..centers.len() {
        assert!(leaves.iter().any(|l| l.contains(&i)), "object {} is in no leaf", i);
    }
    for l in leaves.iter() {
        assert!(l.len() <= 2);
        for i in l.iter() {
            assert!(*i < centers.len());
        }
    }
    assert!(depth(&w.kdtree) <= 32);
}

fn scene() -> (Vec<((f32, f32, f32), f32)>, World) {
    let spheres = vec![
        ((0.0, 0.0, -10.0), 1.0),
        ((0.0, 0.0, -20.0), 2.0),
        ((5.0, 0.0, -10.0), 1.0),
        ((-5.0, 3.0, -15.0), 1.5),
        ((0.0, -6.0, -8.0), 1.0),
    ];
    let mut w = World::new();
    for (c, r) in spheres.iter() {
        w.add(cube(*c, *r));
    }
    w.build_kdtree(&interpolate);
    (spheres, w)
}

fn nearest(spheres: &[((f32, f32, f32), f32)], ray: &Ray) -> Option<(usize, f32)> {
    let mut best: Option<(usize, f32)> = None;
    for (i, (c, r)) in spheres.iter().enumerate() {
        if let Some(t) = sphere_hit(*c, *r, ray) {
            if best.map_or(true, |(_, bt)| f(t) < bt) {
                best = Some((i, f(t)));
            }
        }
    }
    best
}

fn normalized(d: (f32, f32, f32)) -> Point {
    let n = (d.0 * d.0 + d.1 * d.1 + d.2 * d.2).sqrt();
    p(d.0 / n, d.1 / n, d.2 / n)
}

#[test]
fn spawn_ray_finds_the_nearest_sphere() {
    let (spheres, w) = scene();
    let dirs = [
        (0.0, 0.0, -1.0), (0.5, 0.0, -1.0), (-5.0, 3.0, -15.0), (0.0, -6.0, -8.0),
        (0.0, 1.0, 0.0), (1.0, 0.0, 0.0), (0.05, 0.02, -1.0),
    ];
    for d in dirs.iter() {
        let ray = Ray::new(p(0.0, 0.0, 0.0), normalized(*d));
        let hit = w.spawn_ray(ray, &|i: usize| sphere_hit(spheres[i].0, spheres[i].1, &ray), &split_param);
        let expected = nearest(&spheres, &ray);
        match (hit, expected) {
            (Some(h), Some((i, t))) => {
                assert_eq!(h.object, i);
                assert_eq!(f(h.omega), t);
            }
            (None, None) => {}
            (h, e) => panic!("direction {:?}: found {:?}, expected {:?}", d, h, e),
        }
    }
}

#[test]
fn spawn_ray_straight_ahead_hits_the_front_sphere() {
    let (spheres, w) = scene();
    let ray = Ray::new(p(0.0, 0.0, 0.0), p(0.0, 0.0, -1.0));
    let hit = w.spawn_ray(ray, &|i: usize| sphere_hit(spheres[i].0, spheres[i].1, &ray), &split_param).unwrap();
    assert_eq!(hit.object, 0);
    assert_eq!(f(hit.omega), 9.0);
}

#[test]
fn traverse_tree_respects_the_range() {
    let (spheres, w) = scene();
    let ray = Ray::new(p(0.0, 0.0, 0.0), p(0.0, 0.0, -1.0));
    let hit = |i: usize| sphere_hit(spheres[i].0, spheres[i].1, &ray);
    let far = w.traverse_tree(&w.kdtree, &ray, s(12.0), s(100.0), &hit, &split_param).unwrap();
    assert_eq!(far.object, 1);
    assert_eq!(f(far.omega), 18.0);
    let none = w.traverse_tree(&w.kdtree, &ray, s(0.0), s(5.0), &hit, &split_param);
    assert!(none.is_none());
}

#[test]
fn leaf_keeps_the_first_of_equally_near_hits() {
    let mut w = World::new();
    w.add(cube((0.0, 0.0, 0.0), 1.0));
    w.add(cube((0.0, 0.0, 0.0), 1.0));
    let ray = Ray::new(p(0.0, 0.0, 5.0), p(0.0, 0.0, -1.0));
    let leaf = KDNode::new_leaf(vec![1, 0], cube((0.0, 0.0, 0.0), 50.0));
    let hit = w.traverse_tree(&leaf, &ray, s(0.0), s(100.0), &|_i: usize| Some(s(4.0)), &split_param).unwrap();
    assert_eq!(hit.object, 1);
    let leaf2 = KDNode::new_leaf(vec![0, 1], cube((0.0, 0.0, 0.0), 50.0));
    let nearer = |i: usize| if i == 1 { Some(s(3.0)) } else { Some(s(4.0)) };
    let hit2 = w.traverse_tree(&leaf2, &ray, s(0.0), s(100.0), &nearer, &split_param).unwrap();
    assert_eq!(hit2.object, 1);
    assert_eq!(f(hit2.omega), 3.0);
    let out_of_range = w.traverse_tree(&leaf2, &ray, s(5.0), s(100.0), &nearer, &split_param);
    assert!(out_of_range.is_none());
}

#[test]
fn parallel_ray_searches_its_own_side() {
    let mut w = World::new();
    w.add(cube((-5.0, 0.0, 0.0), 1.0));
    w.add(cube((5.0, 0.0, 0.0), 1.0));
    let front = KDNode::new_leaf(vec![0], cube((-25.0, 0.0, 0.0), 25.0));
    let back = KDNode::new_leaf(vec![1], cube((25.0, 0.0, 0.0), 25.0));
    let node = KDNode::new_interior(Axes::X, s(0.0), front, back, cube((0.0, 0.0, 0.0), 50.0));
    let hit = |_i: usize| Some(s(2.0));
    let left_ray = Ray::new(p(-5.0, 0.0, 10.0), p(0.0, 0.0, -1.0));
    let right_ray = Ray::new(p(5.0, 0.0, 10.0), p(0.0, 0.0, -1.0));
    assert_eq!(w.traverse_tree(&node, &left_ray, s(0.0), s(100.0), &hit, &split_param).unwrap().object, 0);
    assert_eq!(w.traverse_tree(&node, &right_ray, s(0.0), s(100.0), &hit, &split_param).unwrap().object, 1);
}

#[test]
fn near_side_hit_ends_the_search() {
    let mut w = World::new();
    w.add(cube((-5.0, 0.0, 0.0), 1.0));
    w.add(cube((5.0, 0.0, 0.0), 1.0));
    let front = KDNode::new_leaf(vec![0], cube((-25.0, 0.0, 0.0), 25.0));
    let back = KDNode::new_leaf(vec![1], cube((25.0, 0.0, 0.0), 25.0));
    let node = KDNode::new_interior(Axes::X, s(0.0), front, back, cube((0.0, 0.0, 0.0), 50.0));
    // A ray along +X from x = -10: the plane is crossed at t = 10.
    let ray = Ray::new(p(-10.0, 0.0, 0.0), p(1.0, 0.0, 0.0));
    let hit = |i: usize| if i == 0 { Some(s(4.0)) } else { Some(s(14.0)) };
    let r = w.traverse_tree(&node, &ray, s(0.0), s(100.0), &hit, &split_param).unwrap();
    assert_eq!(r.object, 0);
    // A hit of the near object beyond the plane is not taken; the far side is.
    let late = |i: usize| if i == 0 { Some(s(12.0)) } else { Some(s(14.0)) };
    let r2 = w.traverse_tree(&node, &ray, s(0.0), s(100.0), &late, &split_param).unwrap();
    assert_eq!(r2.object, 1);
    // Going the other way, the back side is near.
    let back_ray = Ray::new(p(10.0, 0.0, 0.0), p(-1.0, 0.0, 0.0));
    let mirrored = |i: usize| if i == 1 { Some(s(4.0)) } else { Some(s(14.0)) };
    let r3 = w.traverse_tree(&node, &back_ray, s(0.0), s(100.0), &mirrored, &split_param).unwrap();
    assert_eq!(r3.object, 1);
    assert!(w.traverse_tree(&node, &back_ray, s(0.0), s(100.0), &hit, &split_param).is_none());
}

#[test]
fn voxels_are_split_halfway() {
    let mut w = World::new();
    w.add(cube((-3.0, 0.0, 0.0), 0.5));
    w.add(cube((3.0, 0.0, 0.0), 0.5));
    w.add(cube((5.0, 0.0, 0.0), 0.5));
    let region = AABB { min: p(-4.0, -4.0, -4.0), max: p(12.0, 4.0, 4.0) };
    let checked = |lo: Scalar, hi: Scalar, t: Scalar| {
        assert_eq!(f(t), 0.5);
        interpolate(lo, hi, t)
    };
    let node = KDNode::get_node(&w, vec![0, 1, 2], region, Axes::X, 1, &checked);
    assert_eq!(f(node.value), 4.0);
    assert_eq!(node.front.as_ref().unwrap().object_indices, vec![0, 1]);
    assert_eq!(node.back.as_ref().unwrap().object_indices, vec![2]);
}

fn leaves_with_voxels(node: &KDNode, out: &mut Vec<(Vec<usize>, AABB)>) {
    match (&node.front, &node.back) {
        (Some(front), Some(back)) => {
            leaves_with_voxels(front, out);
            leaves_with_voxels(back, out);
        }
        _ => out.push((node.object_indices.clone(), node.voxel)),
    }
}

#[test]
fn leaves_list_exactly_the_overlapping_objects() {
    let mut w = World::new();
    let centers = [
        (-20.0, -20.0, -20.0), (20.0, 5.0, 0.0), (0.5, 0.5, 0.5), (-3.0, 12.0, 7.0),
        (15.0, -15.0, 30.0), (-40.0, 40.0, -10.0), (8.0, 8.0, -8.0), (0.0, 0.0, 0.0),
    ];
    for c in centers.iter() {
        w.add(cube(*c, 3.0));
    }
    w.add(cube((200.0, 0.0, 0.0), 1.0));
    w.build_kdtree(&interpolate);
    let mut leaves = Vec::new();
    leaves_with_voxels(&w.kdtree, &mut leaves);
    assert!(leaves.len() > 1);
    for (listed, voxel) in leaves.iter() {
        let expected: Vec<usize> = (0..w.bounds.len()).filter(|i| w.bounds[*i].intersect(voxel)).collect();
        assert_eq!(*listed, expected);
        assert!(!listed.contains(&8));
    }
}

#[test]
fn a_leaf_reads_no_object() {
    let w = World::new();
    let region = cube((0.0, 0.0, 0.0), 50.0);
    let node = KDNode::get_node(&w, vec![7, 9], region, Axes::Z, 1, &interpolate);
    assert!(node.front.is_none() && node.back.is_none());
    assert_eq!(node.object_indices, vec![7, 9]);
    let deep = KDNode::get_node(&w, vec![4, 5, 6], region, Axes::X, 40, &interpolate);
    assert_eq!(deep.object_indices, vec![4, 5, 6]);
}

#[test]
fn a_nan_split_lets_a_hit_leave_the_range() {
    let mut w = World::new();
    w.add(cube((-5.0, 0.0, 0.0), 1.0));
    let inner = KDNode::new_interior(
        Axes::X,
        s(1.0),
        KDNode::new_leaf(vec![0], cube((-25.0, 0.0, 0.0), 25.0)),
        KDNode::new_leaf(vec![], cube((25.0, 0.0, 0.0), 25.0)),
        cube((0.0, 0.0, 0.0), 50.0),
    );
    let root = KDNode::new_interior(Axes::X, s(0.0), inner, KDNode::new_leaf(vec![], cube((25.0, 0.0, 0.0), 25.0)), cube((0.0, 0.0, 0.0), 50.0));
    let ray = Ray::new(p(-10.0, 0.0, 0.0), p(1.0, 0.0, 0.0));
    let split = |value: Scalar, _o: Scalar, _d: Scalar| if f(value) == 0.0 { s(f32::NAN) } else { s(100.0) };
    let hit = |_i: usize| Some(s(50.0));
    let r = w.traverse_tree(&root, &ray, s(0.0), s(10.0), &hit, &split).unwrap();
    assert_eq!(r.object, 0);
    assert_eq!(f(r.omega), 50.0);
    // With split values that are numbers, the same search keeps to the range.
    assert!(w.traverse_tree(&root, &ray, s(0.0), s(10.0), &hit, &split_param).is_none());
}
