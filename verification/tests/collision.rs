use collision::bounds::{from_ordinal, ordinal, Bounds};
use collision::hierarchy::{collide, BoundingVolumeHierarchy};
use collision::morton::interleave;
use collision::pairs::flatten;
use rand::{Rng, SeedableRng};

/// Numbers the floats in their order; the two zeros get one number.
fn number(x: f32) -> i32 {
    ordinal((x + 0.0).to_bits())
}

fn corners(min: [f32; 3], max: [f32; 3]) -> Bounds {
    Bounds {
        min: [number(min[0]), number(min[1]), number(min[2])],
        max: [number(max[0]), number(max[1]), number(max[2])],
    }
}

fn sphere(point: &([f32; 3], f32)) -> Bounds {
    let (centre, radius) = point;
    let mut min = [0.0f32; 3];
    let mut max = [0.0f32; 3];
    for i in 0..3 {
        min[i] = centre[i] - radius;
        max[i] = centre[i] + radius;
    }
    corners(min, max)
}

fn code(value: [f32; 3]) -> u32 {
    let scale = ((1 << 10) - 1) as f32;
    let mut fixed_value: [u16; 3] = [0, 0, 0];
    for i in 0..3 {
        fixed_value[i] = (value[i].max(0.0).min(1.0) * scale) as u16;
    }
    interleave(fixed_value)
}

/// The box of each sphere with the key of its centre within the scene.
fn keyed(points: &[([f32; 3], f32)]) -> Vec<(Bounds, u32)> {
    let mut scene_min = [f32::INFINITY; 3];
    let mut scene_max = [f32::NEG_INFINITY; 3];
    for (centre, radius) in points {
        for i in 0..3 {
            scene_min[i] = scene_min[i].min(centre[i] - radius);
            scene_max[i] = scene_max[i].max(centre[i] + radius);
        }
    }
    points
        .iter()
        .map(|point| {
            let (centre, radius) = point;
            let mut normal = [0.0f32; 3];
            for i in 0..3 {
                let min = centre[i] - radius;
                let max = centre[i] + radius;
                let mid = min + (max - min) / 2.0;
                normal[i] = (mid - scene_min[i]) / (scene_max[i] - scene_min[i]);
            }
            (sphere(point), code(normal))
        })
        .collect()
}

fn naive_collisions(points: &[([f32; 3], f32)]) -> Vec<(usize, usize)> {
    let mut collisions = Vec::new();
    for (i, pt1) in points.iter().enumerate() {
        let bounds1 = sphere(pt1);
        for (j, pt2) in points[(i + 1)..].iter().enumerate() {
            let j = j + i + 1;
            let bounds2 = sphere(pt2);
            if bounds1.intersects(&bounds2) {
                collisions.push((i, j));
            }
        }
    }
    collisions
}

fn naive_boxes(boxes: &[(Bounds, u32)]) -> Vec<(usize, usize)> {
    let mut collisions = Vec::new();
    for i in 0..boxes.len() {
        for j in (i + 1)..boxes.len() {
            if boxes[i].0.intersects(&boxes[j].0) {
                collisions.push((i, j));
            }
        }
    }
    collisions
}

fn sort_pair(pair: &(usize, usize)) -> (usize, usize) {
    (usize::min(pair.0, pair.1), usize::max(pair.0, pair.1))
}

fn sorted_pairs(pairs: &[(usize, usize)]) -> Vec<(usize, usize)> {
    let mut result = pairs.iter().map(sort_pair).collect::<Vec<_>>();
    result.sort();
    result
}

fn six_spheres() -> [([f32; 3], f32); 6] {
    [
        ([0.0, 1.0, 3.0], 1.0),
        ([0.0, 1.0, 3.0], 1.0),
        ([4.0, 1.0, 8.0], 1.0),
        ([-4.0, -6.0, 3.0], 1.0),
        ([-5.0, 0.0, -1.0], 1.0),
        ([-5.0, 0.5, -0.5], 1.0),
    ]
}

/// A small generator of numbers that look scattered.
fn scatter(state: &mut u64) -> u32 {
    *state = state
        .wrapping_mul(6364136223846793005)
        .wrapping_add(1442695040888963407);
    (*state >> 33) as u32
}

#[test]
fn test_update_bounds() {
    let mut acc = Bounds::null();
    acc.update(&sphere(&([0.0, 0.0, 0.0], 0.0)));
    assert_eq!(acc, corners([0.0, 0.0, 0.0], [0.0, 0.0, 0.0]));
    acc.update(&sphere(&([0.0, -2.0, 1.0], 1.0)));
    assert_eq!(acc, corners([-1.0, -3.0, 0.0], [1.0, 0.0, 2.0]));
}

#[test]
fn test_bounds() {
    assert_eq!(Bounds::from_iter(&[]), Bounds::null());
    let boxes: Vec<Bounds> = [([0.0, 0.0, 0.0], 0.0), ([0.0, -2.0, 1.0], 1.0)]
        .iter()
        .map(sphere)
        .collect();
    assert_eq!(
        Bounds::from_iter(&boxes),
        corners([-1.0, -3.0, 0.0], [1.0, 0.0, 2.0])
    );
}

#[test]
fn test_intersects() {
    let bounds = corners([0.0, -2.0, 0.0], [4.0, 0.0, 1.0]);
    assert!(bounds.intersects(&corners([0.0, -2.0, 0.0], [4.0, 0.0, 1.0])));
    assert!(bounds.intersects(&corners([1.0, -1.0, 0.5], [10.0, 10.0, 10.0])));
    assert!(!bounds.intersects(&corners([5.0, -2.0, 0.0], [10.0, 0.0, 1.0])));
}

#[test]
fn test_code() {
    assert!(code([0.0, 0.0, 0.0]) < code([1.0, 1.0, 1.0]));
    assert!(code([0.0, 0.0, 0.0]) < code([1.0, 0.0, 0.0]));
    assert!(code([0.5, 0.0, 0.0]) < code([0.5, 0.5, 0.5]));
    assert!(code([0.5, 0.5, 0.5]) < code([0.6, 0.0, 0.0]));
}

#[test]
fn test_build() {
    let mut bvh = BoundingVolumeHierarchy::new();
    let points = six_spheres();
    bvh.build(&keyed(&points));

    let expected = [(0, 1), (4, 5)];
    let mut result = bvh.collide();
    result.sort();
    assert_eq!(result, expected)
}

#[test]
fn test_naive_collisions() {
    let points = six_spheres();
    let expected = [(0, 1), (4, 5)];
    assert_eq!(naive_collisions(&points), expected);
}

#[test]
fn test_random_collisions() {
    let mut rng = rand::rngs::StdRng::seed_from_u64(4);
    let points = (0..100)
        .map(|_| {
            let (centre, radius) = rng.gen::<([f32; 3], f32)>();
            (centre, radius * 0.1)
        })
        .collect::<Vec<_>>();

    let mut reference = naive_collisions(&points);
    reference.sort();

    let mut result = collide(&keyed(&points))
        .iter()
        .map(sort_pair)
        .collect::<Vec<_>>();
    result.sort();

    assert!(result.len() > 0);
    assert!(result.len() < points.len() * points.len());
    assert_eq!(result, reference);
}

#[test]
fn no_boxes_give_no_pairs() {
    let mut bvh = BoundingVolumeHierarchy::new();
    assert_eq!(bvh.collide(), vec![]);
    bvh.build(&[]);
    assert_eq!(bvh.node_count(), 0);
    assert_eq!(bvh.leaf_count(), 0);
    assert_eq!(bvh.collide(), vec![]);
    assert_eq!(collide(&[]), vec![]);
}

#[test]
fn one_box_gives_no_pairs() {
    let mut bvh = BoundingVolumeHierarchy::new();
    bvh.build(&keyed(&[([1.0, 2.0, 3.0], 1.0)]));
    assert_eq!(bvh.node_count(), 0);
    assert_eq!(bvh.leaf_count(), 1);
    assert!(bvh.is_leaf(0));
    assert_eq!(*bvh.get_bounds(0), corners([0.0, 1.0, 2.0], [2.0, 3.0, 4.0]));
    assert_eq!(bvh.get_right_edge(0), 0);
    assert_eq!(bvh.collide(), vec![]);
    assert_eq!(collide(&keyed(&[([1.0, 2.0, 3.0], 1.0)])), vec![]);
}

#[test]
fn two_boxes() {
    let apart = keyed(&[([0.0, 0.0, 0.0], 1.0), ([5.0, 0.0, 0.0], 1.0)]);
    assert_eq!(collide(&apart), vec![]);
    let near = keyed(&[([0.0, 0.0, 0.0], 1.0), ([1.0, 0.0, 0.0], 1.0)]);
    assert_eq!(sorted_pairs(&collide(&near)), vec![(0, 1)]);
}

#[test]
fn boxes_that_only_touch_do_not_collide() {
    let touching = keyed(&[([0.0, 0.0, 0.0], 1.0), ([2.0, 0.0, 0.0], 1.0)]);
    assert_eq!(collide(&touching), vec![]);
    let a = corners([0.0, 0.0, 0.0], [1.0, 1.0, 1.0]);
    assert!(!a.intersects(&corners([1.0, 0.0, 0.0], [2.0, 1.0, 1.0])));
    assert!(!a.intersects(&corners([0.0, -1.0, 0.0], [1.0, 0.0, 1.0])));
    assert!(a.intersects(&corners([0.5, 0.5, 0.5], [0.75, 0.75, 0.75])));
    assert!(!a.intersects(&Bounds::null()));
    assert!(!Bounds::null().intersects(&a));
}

#[test]
fn node_counts_follow_the_number_of_boxes() {
    let mut state = 11u64;
    for n in 1..40usize {
        let points: Vec<(Bounds, u32)> = (0..n)
            .map(|_| {
                let x = (scatter(&mut state) % 50) as i32;
                let y = (scatter(&mut state) % 50) as i32;
                let z = (scatter(&mut state) % 50) as i32;
                (
                    Bounds::new([x, y, z], [x + 5, y + 5, z + 5]),
                    scatter(&mut state) % 64,
                )
            })
            .collect();
        let mut bvh = BoundingVolumeHierarchy::new();
        bvh.build(&points);
        assert_eq!(bvh.leaf_count(), n);
        assert_eq!(bvh.node_count(), n - 1);
    }
}

#[test]
fn every_node_encloses_its_children() {
    let points = keyed(&six_spheres());
    let mut bvh = BoundingVolumeHierarchy::new();
    bvh.build(&points);
    assert_eq!(bvh.node_count(), 5);
    for idx in 0..bvh.node_count() {
        assert!(!bvh.is_leaf(idx));
        let outer = *bvh.get_bounds(idx);
        let (first, second) = bvh.children(idx);
        let mut joined = Bounds::null();
        for child in [first, second] {
            assert!(child < bvh.node_count() + bvh.leaf_count());
            assert!(bvh.is_leaf(child) || child > idx);
            let inner = *bvh.get_bounds(child);
            for axis in 0..3 {
                assert!(outer.min[axis] <= inner.min[axis]);
                assert!(inner.max[axis] <= outer.max[axis]);
            }
            joined.update(&inner);
        }
        assert_eq!(joined, outer);
        assert_eq!(bvh.get_right_edge(first) + 1 <= bvh.get_right_edge(second), true);
        assert_eq!(bvh.get_right_edge(idx), bvh.get_right_edge(second));
    }
    let all: Vec<Bounds> = points.iter().map(|p| p.0).collect();
    assert_eq!(*bvh.get_bounds(0), Bounds::from_iter(&all));
    assert_eq!(bvh.get_right_edge(0), 5);
}

#[test]
fn leaves_come_in_the_order_of_their_keys() {
    let points: Vec<(Bounds, u32)> = vec![
        (Bounds::new([40, 0, 0], [41, 1, 1]), 900),
        (Bounds::new([30, 0, 0], [31, 1, 1]), 700),
        (Bounds::new([20, 0, 0], [21, 1, 1]), 500),
        (Bounds::new([10, 0, 0], [11, 1, 1]), 300),
        (Bounds::new([0, 0, 0], [1, 1, 1]), 100),
    ];
    let mut bvh = BoundingVolumeHierarchy::new();
    bvh.build(&points);
    let nodes = bvh.node_count();
    assert_eq!(nodes, 4);
    for k in 0..5usize {
        assert!(bvh.is_leaf(nodes + k));
        assert_eq!(*bvh.get_bounds(nodes + k), points[4 - k].0);
        assert_eq!(bvh.get_right_edge(nodes + k), k);
    }
}

#[test]
fn pairs_carry_the_places_of_the_boxes_given() {
    let points: Vec<(Bounds, u32)> = vec![
        (Bounds::new([40, 0, 0], [42, 1, 1]), 900),
        (Bounds::new([0, 0, 0], [2, 1, 1]), 100),
        (Bounds::new([41, 0, 0], [43, 1, 1]), 901),
        (Bounds::new([1, 0, 0], [3, 1, 1]), 101),
    ];
    assert_eq!(collide(&points), vec![(1, 3), (0, 2)]);
}

#[test]
fn building_again_replaces_what_was_built() {
    let mut bvh = BoundingVolumeHierarchy::new();
    bvh.build(&keyed(&six_spheres()));
    assert_eq!(sorted_pairs(&bvh.collide()), vec![(0, 1), (4, 5)]);
    bvh.build(&keyed(&[([0.0, 0.0, 0.0], 1.0), ([0.5, 0.0, 0.0], 1.0), ([9.0, 0.0, 0.0], 1.0)]));
    assert_eq!(bvh.leaf_count(), 3);
    assert_eq!(bvh.node_count(), 2);
    assert_eq!(sorted_pairs(&bvh.collide()), vec![(0, 1)]);
    bvh.build(&[]);
    assert_eq!(bvh.leaf_count(), 0);
    assert_eq!(bvh.collide(), vec![]);
}

#[test]
fn coincident_boxes_are_each_paired_once() {
    for n in 2..20usize {
        let points: Vec<([f32; 3], f32)> = (0..n).map(|_| ([1.0, 2.0, 3.0], 0.5)).collect();
        let result = collide(&keyed(&points));
        assert_eq!(result.len(), n * (n - 1) / 2);
        assert_eq!(sorted_pairs(&result), naive_collisions(&points));
    }
}

#[test]
fn groups_of_coincident_boxes_match_the_naive_search() {
    let mut points: Vec<([f32; 3], f32)> = Vec::new();
    for i in 0..30 {
        let corner = (i % 3) as f32;
        points.push(([corner, corner * 0.5, 0.0], 0.3));
    }
    points.push(([1.0, 0.5, 0.2], 0.3));
    points.push(([0.1, 0.0, 0.0], 0.0));
    let result = collide(&keyed(&points));
    assert_eq!(sorted_pairs(&result), naive_collisions(&points));
}

#[test]
fn any_keys_give_the_naive_pairs() {
    let mut state = 5u64;
    for round in 0..60usize {
        let n = 2 + round % 23;
        let spread = 1 + (round % 7) as u32;
        let points: Vec<(Bounds, u32)> = (0..n)
            .map(|_| {
                let x = (scatter(&mut state) % 40) as i32 - 20;
                let y = (scatter(&mut state) % 40) as i32 - 20;
                let z = (scatter(&mut state) % 40) as i32 - 20;
                let w = (scatter(&mut state) % 12) as i32;
                let key = if round % 2 == 0 {
                    scatter(&mut state) % (1 << spread)
                } else {
                    scatter(&mut state)
                };
                (Bounds::new([x, y, z], [x + w, y + w, z + w]), key)
            })
            .collect();
        let result = collide(&points);
        let sorted = sorted_pairs(&result);
        assert_eq!(sorted, naive_boxes(&points));
        for pair in result.iter() {
            assert!(pair.0 != pair.1);
        }
    }
}

#[test]
fn keys_that_differ_in_their_last_bit_only() {
    let points: Vec<(Bounds, u32)> = vec![
        (Bounds::new([0, 0, 0], [4, 4, 4]), 3),
        (Bounds::new([1, 1, 1], [5, 5, 5]), 2),
        (Bounds::new([9, 9, 9], [12, 12, 12]), 2),
        (Bounds::new([3, 3, 3], [10, 10, 10]), 3),
    ];
    assert_eq!(sorted_pairs(&collide(&points)), vec![(0, 1), (0, 3), (1, 3), (2, 3)]);
}

#[test]
fn ordinals_are_ordered_as_the_floats_are() {
    assert_eq!(ordinal(0), 0);
    assert_eq!(ordinal(1), 1);
    assert_eq!(ordinal(0x7FFF_FFFF), i32::MAX);
    assert_eq!(ordinal(0x8000_0000), -1);
    assert_eq!(ordinal(0x8000_0001), -2);
    assert_eq!(ordinal(0xFFFF_FFFF), i32::MIN);
    assert_eq!(ordinal(1.0f32.to_bits()), 0x3F80_0000);
    let values = [
        f32::NEG_INFINITY,
        -3.5e10,
        -2.0,
        -1.0,
        -1.0e-30,
        0.0,
        1.0e-30,
        0.5,
        1.0,
        2.0,
        7.25e20,
        f32::INFINITY,
    ];
    for pair in values.windows(2) {
        assert!(number(pair[0]) < number(pair[1]));
    }
    assert_eq!(number(-0.0), number(0.0));
    for value in values.iter() {
        assert_eq!(f32::from_bits(from_ordinal(number(*value))), *value);
    }
    for key in [i32::MIN, -77, -1, 0, 1, 1234567, i32::MAX] {
        assert_eq!(ordinal(from_ordinal(key)), key);
    }
}

#[test]
fn hull_of_boxes() {
    let boxes = [
        Bounds::new([3, -4, 0], [5, 2, 1]),
        Bounds::new([-7, 0, 0], [4, 9, 1]),
        Bounds::new([0, 0, -2], [1, 1, 8]),
    ];
    assert_eq!(Bounds::from_iter(&boxes), Bounds::new([-7, -4, -2], [5, 9, 8]));
    assert_eq!(Bounds::from_iter(&boxes[..1]), boxes[0]);
    assert_eq!(
        Bounds::null(),
        Bounds::new([i32::MAX; 3], [i32::MIN; 3])
    );
}

#[test]
fn update_with_itself_and_with_the_null_box() {
    let a = Bounds::new([3, -4, 0], [5, 2, 1]);
    let mut b = a;
    b.update(&a);
    assert_eq!(b, a);
    b.update(&Bounds::null());
    assert_eq!(b, a);
    let mut c = Bounds::null();
    c.update(&a);
    assert_eq!(c, a);
    let other = Bounds::new([4, -9, 0], [4, 3, 0]);
    let mut d = a;
    d.update(&other);
    let mut e = other;
    e.update(&a);
    assert_eq!(d, e);
    assert_eq!(d, Bounds::new([3, -9, 0], [5, 3, 1]));
}

#[test]
fn flatten_writes_two_numbers_for_each_pair() {
    assert_eq!(flatten(&[]), Vec::<usize>::new());
    assert_eq!(flatten(&[(3, 1), (0, 2)]), vec![3, 1, 0, 2]);
    let pairs = collide(&keyed(&six_spheres()));
    let flat = flatten(&pairs);
    assert_eq!(flat.len(), 4);
    let back: Vec<(usize, usize)> = flat.chunks_exact(2).map(|c| (c[0], c[1])).collect();
    assert_eq!(back, pairs);
}
