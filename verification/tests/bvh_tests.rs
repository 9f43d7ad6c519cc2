use bvh::builder::{build, BuildError};
use bvh::geometry::{Aabb, Primitive, Vec3i, COORD_LIMIT};
use bvh::tree::{Bvh, Node};

fn prim(x: i64, y: i64, z: i64, radius: i64) -> Primitive {
    Primitive { position: Vec3i { x, y, z }, radius }
}

fn on_x(x: i64) -> Primitive {
    prim(x, 0, 0, 1)
}

/// The union of the boxes of `prims[start..end)`, folded left to right.
fn range_box(prims: &[Primitive], start: usize, end: usize) -> Aabb {
    let mut b = prims[start].bounds();
    for p in &prims[start + 1..end] {
        b = b.union(&p.bounds());
    }
    b
}

/// Collects the `(start, end)` range of every leaf in the arena.
fn leaf_ranges(t: &Bvh) -> Vec<(usize, usize)> {
    let mut out = Vec::new();
    for node in &t.nodes {
        if let Node::Leaf { start, end, .. } = node {
            out.push((*start, *end));
        }
    }
    out
}

fn xs_of_range(t: &Bvh, start: usize, end: usize) -> Vec<i64> {
    let mut xs: Vec<i64> = t.primitives[start..end].iter().map(|p| p.position.x).collect();
    xs.sort();
    xs
}

#[test]
fn empty_input_is_rejected() {
    assert!(matches!(build(Vec::new(), 2), Err(BuildError::EmptyInput)));
}

#[test]
fn zero_threshold_is_rejected() {
    assert!(matches!(build(vec![on_x(0)], 0), Err(BuildError::ZeroThreshold)));
}

#[test]
fn single_primitive_single_leaf() {
    let p = prim(3, -4, 5, 2);
    let t = build(vec![p], 1).unwrap();
    assert_eq!(t.nodes.len(), 1);
    match t.nodes[0] {
        Node::Leaf { bounds, start, end } => {
            assert_eq!((start, end), (0, 1));
            assert_eq!(bounds, p.bounds());
        }
        Node::Internal { .. } => panic!("expected a single leaf"),
    }
}

#[test]
fn primitive_bounds_circumscribe_the_sphere() {
    let p = prim(10, -20, 30, 4);
    let b = p.bounds();
    assert_eq!(b.lb, Vec3i { x: 6, y: -24, z: 26 });
    assert_eq!(b.ub, Vec3i { x: 14, y: -16, z: 34 });
}

#[test]
fn union_is_componentwise_min_max() {
    let a = Aabb { lb: Vec3i { x: -1, y: 5, z: 0 }, ub: Vec3i { x: 2, y: 9, z: 3 } };
    let b = Aabb { lb: Vec3i { x: -3, y: 7, z: 1 }, ub: Vec3i { x: 1, y: 12, z: 2 } };
    let u = a.union(&b);
    assert_eq!(u.lb, Vec3i { x: -3, y: 5, z: 0 });
    assert_eq!(u.ub, Vec3i { x: 2, y: 12, z: 3 });
}

#[test]
fn five_points_on_x_axis_split_as_expected() {
    // x-coordinates {-10, -5, 0, 5, 10}, radius 1, threshold 2:
    // root box spans x in [-11, 11] and splits at 0 into {-10, -5} and
    // {0, 5, 10}; the right side spans [-1, 11] and splits again at 5 into
    // {0} and {5, 10}. Leaf sizes: 2, 1, 2.
    let input: Vec<Primitive> = [-10, -5, 0, 5, 10].iter().map(|&x| on_x(x)).collect();
    let t = build(input, 2).unwrap();

    let mut sizes: Vec<usize> = leaf_ranges(&t).iter().map(|&(s, e)| e - s).collect();
    sizes.sort();
    assert_eq!(sizes, vec![1, 2, 2]);

    let mut sets: Vec<Vec<i64>> =
        leaf_ranges(&t).iter().map(|&(s, e)| xs_of_range(&t, s, e)).collect();
    sets.sort();
    assert_eq!(sets, vec![vec![-10, -5], vec![0], vec![5, 10]]);
}

#[test]
fn coincident_primitives_leave_one_oversized_leaf() {
    // all primitives at the same point: the midpoint split is one-sided, the
    // degenerate guard fires, and the leaf stays terminal (no recursion)
    let input: Vec<Primitive> = (0..5).map(|_| prim(7, 7, 7, 1)).collect();
    let t = build(input, 2).unwrap();
    assert_eq!(t.nodes.len(), 1);
    assert_eq!(leaf_ranges(&t), vec![(0, 5)]);
}

#[test]
fn building_twice_gives_identical_trees() {
    let input: Vec<Primitive> = vec![
        prim(-100, 30, 2, 5),
        prim(40, -70, 1, 3),
        prim(0, 0, 0, 1),
        prim(13, 88, -40, 2),
        prim(-5, -5, 90, 4),
        prim(61, 17, -2, 6),
    ];
    let t1 = build(input.clone(), 2).unwrap();
    let t2 = build(input, 2).unwrap();
    assert_eq!(t1.nodes, t2.nodes);
    assert_eq!(t1.primitives, t2.primitives);
}

#[test]
fn internal_bounds_are_union_of_children() {
    let input: Vec<Primitive> = (0..16).map(|i| prim(i * 9 - 70, (i % 5) * 11, -i * 4, 2)).collect();
    let t = build(input, 2).unwrap();
    for node in &t.nodes {
        if let Node::Internal { bounds, left, right } = node {
            let expect = t.nodes[*left].bounds().union(&t.nodes[*right].bounds());
            assert_eq!(*bounds, expect);
        }
    }
}

#[test]
fn leaf_bounds_are_union_of_their_primitives() {
    let input: Vec<Primitive> = (0..16).map(|i| prim(-i * 13 + 50, i * 7, (i % 3) * 21, 1 + i % 4)).collect();
    let t = build(input, 3).unwrap();
    for node in &t.nodes {
        if let Node::Leaf { bounds, start, end } = node {
            assert_eq!(*bounds, range_box(&t.primitives, *start, *end));
        }
    }
}

#[test]
fn leaf_ranges_partition_the_array_exactly() {
    let input: Vec<Primitive> = (0..23).map(|i| prim((i * i) % 97 - 48, i * 3 - 30, 60 - i * 5, 2)).collect();
    let n = input.len();
    let t = build(input, 2).unwrap();
    let mut hits = vec![0usize; n];
    for (s, e) in leaf_ranges(&t) {
        assert!(s < e && e <= n);
        for slot in &mut hits[s..e] {
            *slot += 1;
        }
    }
    assert!(hits.iter().all(|&c| c == 1));
}

#[test]
fn output_primitives_are_a_permutation_of_the_input() {
    let input: Vec<Primitive> = (0..12).map(|i| prim(i * 17 - 90, -i * 6, i % 7, 3)).collect();
    let mut before: Vec<(i64, i64, i64, i64)> =
        input.iter().map(|p| (p.position.x, p.position.y, p.position.z, p.radius)).collect();
    let t = build(input, 2).unwrap();
    let mut after: Vec<(i64, i64, i64, i64)> =
        t.primitives.iter().map(|p| (p.position.x, p.position.y, p.position.z, p.radius)).collect();
    before.sort();
    after.sort();
    assert_eq!(before, after);
}

#[test]
fn leaves_respect_the_threshold_unless_degenerate() {
    let input: Vec<Primitive> = (0..40).map(|i| prim(i * 23 % 311 - 150, i * 7 % 101 - 50, i % 13, 1)).collect();
    let t = build(input, 4).unwrap();
    for (s, e) in leaf_ranges(&t) {
        assert!(e - s <= 4);
    }
}

#[test]
fn node_bounds_accessor_reads_both_kinds() {
    let input: Vec<Primitive> = vec![on_x(-10), on_x(-5), on_x(0), on_x(5), on_x(10)];
    let t = build(input, 2).unwrap();
    for node in &t.nodes {
        let b = node.bounds();
        match node {
            Node::Internal { bounds, .. } => assert_eq!(b, *bounds),
            Node::Leaf { bounds, .. } => assert_eq!(b, *bounds),
        }
    }
}

#[test]
fn is_wf_accepts_reasonable_primitives_and_rejects_bad_ones() {
    assert!(prim(0, 0, 0, 1).is_wf());
    assert!(prim(-500, 499, 3, 5).is_wf());
    assert!(!prim(0, 0, 0, 0).is_wf());
    assert!(!prim(0, 0, 0, -3).is_wf());
    assert!(!prim(COORD_LIMIT, 0, 0, 1).is_wf());
}

#[test]
fn one_sided_split_keeps_leaf_terminal() {
    // two primitives at x = 0 and x = 10 (radius 1): the box spans [-1, 11]
    // and the midpoint 5 puts only the last primitive on the right, so the
    // guard leaves the leaf terminal even though it exceeds the threshold
    let t = build(vec![on_x(0), on_x(10)], 1).unwrap();
    assert_eq!(t.nodes.len(), 1);
    assert_eq!(leaf_ranges(&t), vec![(0, 2)]);
}
