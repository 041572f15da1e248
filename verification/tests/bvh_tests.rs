use ray_tracer::aabb::{Aabb, Axis, GridPoint};
use ray_tracer::bvh::index::Bvh;
use ray_tracer::bvh::tree::LEAF_CAPACITY;

fn point(x: i32, y: i32, z: i32) -> GridPoint {
    GridPoint::new(x, y, z)
}

fn cube(x: i32, y: i32, z: i32, half: i32) -> Aabb {
    Aabb::with_bounds(point(x - half, y - half, z - half), point(x + half, y + half, z + half))
}

/// Cubes scattered by a fixed rule, so that every run sees the same scene.
fn scene(n: usize) -> Vec<Aabb> {
    let mut boxes = Vec::new();
    let mut seed: u64 = 0x2545_f491_4f6c_dd1d;
    for _ in 0..n {
        let mut next = || {
            seed ^= seed << 13;
            seed ^= seed >> 7;
            seed ^= seed << 17;
            (seed % 2001) as i32 - 1000
        };
        let (x, y, z) = (next(), next(), next());
        let half = next().rem_euclid(40) + 1;
        boxes.push(cube(x, y, z, half));
    }
    boxes
}

/// Whether the box has a point with the given `x` and `y`: what a ray along
/// the z axis through that point asks of a box.
fn column_meets(b: &Aabb, x: i32, y: i32) -> bool {
    b.min.x <= x && x <= b.max.x && b.min.y <= y && y <= b.max.y
}

#[test]
fn triangle_box_spans_the_corners() {
    let b = Aabb::around_triangle(&point(1, 5, -3), &point(-2, 7, 0), &point(4, 6, -9));
    assert_eq!(b, Aabb::with_bounds(point(-2, 5, -9), point(4, 7, 0)));
}

#[test]
fn triangle_box_of_one_point_is_the_point() {
    let p = point(3, -4, 5);
    assert_eq!(Aabb::around_triangle(&p, &p, &p), Aabb::with_bounds(p, p));
}

#[test]
fn triangle_box_does_not_depend_on_the_order_of_corners() {
    let (a, b, c) = (point(1, 5, -3), point(-2, 7, 0), point(4, 6, -9));
    let first = Aabb::around_triangle(&a, &b, &c);
    assert_eq!(first, Aabb::around_triangle(&c, &a, &b));
    assert_eq!(first, Aabb::around_triangle(&b, &c, &a));
}

#[test]
fn join_is_the_hull() {
    let a = Aabb::with_bounds(point(0, 0, 0), point(1, 1, 1));
    let b = Aabb::with_bounds(point(-3, 2, 0), point(0, 5, 1));
    let hull = a.join(&b);
    assert_eq!(hull, Aabb::with_bounds(point(-3, 0, 0), point(1, 5, 1)));
    assert!(hull.contains(&a));
    assert!(hull.contains(&b));
    assert!(!a.contains(&hull));
    assert_eq!(hull, b.join(&a));
}

#[test]
fn contains_counts_the_faces_in() {
    let a = Aabb::with_bounds(point(0, 0, 0), point(4, 4, 4));
    assert!(a.contains(&a));
    assert!(a.contains(&Aabb::with_bounds(point(0, 1, 1), point(4, 2, 2))));
    assert!(!a.contains(&Aabb::with_bounds(point(0, 1, 1), point(5, 2, 2))));
    assert!(!a.contains(&Aabb::with_bounds(point(-1, 1, 1), point(4, 2, 2))));
}

#[test]
fn centre_twice_adds_the_faces() {
    let a = Aabb::with_bounds(point(-3, 10, i32::MAX), point(5, 11, i32::MAX));
    assert_eq!(a.centre_twice(Axis::X), 2);
    assert_eq!(a.centre_twice(Axis::Y), 21);
    assert_eq!(a.centre_twice(Axis::Z), 2 * i32::MAX as i64);
    assert_eq!(point(1, 2, 3).along(Axis::Y), 2);
}

#[test]
fn hierarchy_of_nothing_has_no_nodes() {
    let bvh = Bvh::build(Vec::new());
    assert_eq!(bvh.len(), 0);
    assert_eq!(bvh.node_count(), 0);
    assert_eq!(bvh.traverse(|_b: &Aabb| true), Vec::<usize>::new());
    assert_eq!(bvh.leaf_of(0), None);
    assert_eq!(bvh.node(0), None);
}

#[test]
fn hierarchy_of_one_is_one_leaf() {
    let only = cube(5, 5, 5, 1);
    let bvh = Bvh::build(vec![only]);
    assert_eq!(bvh.len(), 1);
    assert_eq!(bvh.node_count(), 1);
    let root = bvh.node(0).unwrap();
    assert_eq!(root.bounds, only);
    assert_eq!(root.first, 0);
    assert_eq!(root.count, 1);
    assert_eq!(root.children, None);
    assert_eq!(bvh.leaf_of(0), Some(0));
    assert_eq!(bvh.traverse(|_b: &Aabb| true), vec![0]);
    assert_eq!(bvh.traverse(|_b: &Aabb| false), Vec::<usize>::new());
}

#[test]
fn every_primitive_has_one_slot() {
    let boxes = scene(200);
    let bvh = Bvh::build(boxes);
    let mut seen = vec![false; 200];
    for s in 0..200 {
        let p = bvh.primitive_at(s).unwrap();
        assert!(!seen[p]);
        seen[p] = true;
    }
    assert!(seen.iter().all(|b| *b));
    assert_eq!(bvh.primitive_at(200), None);
}

#[test]
fn nodes_are_well_built() {
    let boxes = scene(300);
    let bvh = Bvh::build(boxes.clone());
    let root = bvh.node_count() - 1;
    let top = bvh.node(root).unwrap();
    assert_eq!(top.first, 0);
    assert_eq!(top.count, 300);
    let mut leaves = 0;
    let mut covered = 0;
    let mut stack = vec![root];
    while let Some(i) = stack.pop() {
        let node = bvh.node(i).unwrap();
        assert!(node.count >= 1);
        match node.children {
            None => {
                assert!(node.count <= LEAF_CAPACITY);
                leaves += 1;
                covered += node.count;
                let mut hull = boxes[bvh.primitive_at(node.first).unwrap()];
                for s in node.first..node.first + node.count {
                    let p = bvh.primitive_at(s).unwrap();
                    hull = hull.join(&boxes[p]);
                    assert_eq!(bvh.leaf_of(p), Some(i));
                }
                assert_eq!(node.bounds, hull);
            }
            Some((left, right)) => {
                assert!(left < i && right < i);
                let l = bvh.node(left).unwrap();
                let r = bvh.node(right).unwrap();
                assert_eq!(l.first, node.first);
                assert_eq!(r.first, node.first + l.count);
                assert_eq!(l.count + r.count, node.count);
                assert_eq!(node.bounds, l.bounds.join(&r.bounds));
                assert!(node.bounds.contains(&l.bounds));
                assert!(node.bounds.contains(&r.bounds));
                stack.push(left);
                stack.push(right);
            }
        }
    }
    assert_eq!(covered, 300);
    assert!(leaves >= 300 / LEAF_CAPACITY);
}

#[test]
fn traverse_with_a_test_that_accepts_all_reports_all_in_slot_order() {
    let bvh = Bvh::build(scene(50));
    let all = bvh.traverse(|_b: &Aabb| true);
    let order: Vec<usize> = (0..50).map(|s| bvh.primitive_at(s).unwrap()).collect();
    assert_eq!(all, order);
}

#[test]
fn traverse_with_a_test_that_rejects_all_reports_nothing() {
    let bvh = Bvh::build(scene(50));
    assert!(bvh.traverse(|_b: &Aabb| false).is_empty());
}

#[test]
fn traverse_has_no_false_negatives() {
    let boxes = scene(400);
    let bvh = Bvh::build(boxes.clone());
    for x in (-1000..=1000).step_by(125) {
        for y in (-1000..=1000).step_by(125) {
            let reported = bvh.traverse(|b: &Aabb| column_meets(b, x, y));
            for (p, b) in boxes.iter().enumerate() {
                if column_meets(b, x, y) {
                    assert!(reported.contains(&p), "primitive {} missing at {} {}", p, x, y);
                }
            }
        }
    }
}

#[test]
fn traverse_reports_no_primitive_twice() {
    let boxes = scene(150);
    let bvh = Bvh::build(boxes);
    let reported = bvh.traverse(|b: &Aabb| column_meets(b, 0, 0) || b.max.x > 300);
    let mut sorted = reported.clone();
    sorted.sort();
    sorted.dedup();
    assert_eq!(sorted.len(), reported.len());
}

#[test]
fn traverse_prunes_what_lies_apart() {
    let mut boxes = Vec::new();
    for i in 0..64 {
        boxes.push(cube(i * 100, 0, 0, 10));
    }
    let bvh = Bvh::build(boxes);
    let asked = std::cell::Cell::new(0usize);
    let reported = bvh.traverse(|b: &Aabb| {
        asked.set(asked.get() + 1);
        column_meets(b, 300, 0)
    });
    assert!(reported.contains(&3));
    assert!(reported.len() <= LEAF_CAPACITY);
    assert!(asked.get() < bvh.node_count());
}

#[test]
fn primitives_with_one_centre_are_split_in_halves() {
    let boxes = vec![cube(0, 0, 0, 3); 9];
    let bvh = Bvh::build(boxes);
    let top = bvh.node(bvh.node_count() - 1).unwrap();
    let (left, right) = top.children.unwrap();
    assert_eq!(bvh.node(left).unwrap().count, 4);
    assert_eq!(bvh.node(right).unwrap().count, 5);
    assert_eq!(bvh.traverse(|_b: &Aabb| true).len(), 9);
}

#[test]
fn a_plane_parts_two_clusters() {
    let mut boxes = Vec::new();
    for i in 0..4 {
        boxes.push(cube(-500 + i, 0, 0, 1));
    }
    for i in 0..4 {
        boxes.push(cube(500 + i, 0, 0, 1));
    }
    let bvh = Bvh::build(boxes);
    let top = bvh.node(bvh.node_count() - 1).unwrap();
    let (left, right) = top.children.unwrap();
    let l = bvh.node(left).unwrap();
    let r = bvh.node(right).unwrap();
    assert_eq!((l.count, r.count), (4, 4));
    assert!(l.bounds.max.x < r.bounds.min.x);
    let near = bvh.traverse(|b: &Aabb| b.min.x < 0);
    let mut sorted = near.clone();
    sorted.sort();
    assert_eq!(sorted, vec![0, 1, 2, 3]);
}

/// The distance at which a column at `x`, `y` that comes down the z axis
/// meets a box: the height of its top, if it passes through it.
fn top_under(b: &Aabb, x: i32, y: i32) -> Option<i32> {
    if column_meets(b, x, y) {
        Some(-b.max.z)
    } else {
        None
    }
}

#[test]
fn nearest_hit_is_what_a_scan_of_all_finds() {
    let boxes = scene(300);
    let bvh = Bvh::build(boxes.clone());
    let mut some = 0;
    for x in (-1000..=1000).step_by(100) {
        for y in (-1000..=1000).step_by(100) {
            let scan: Vec<Option<i32>> = boxes.iter().map(|b| top_under(b, x, y)).collect();
            let found = bvh.nearest_hit(
                |b: &Aabb| column_meets(b, x, y),
                |p: usize| top_under(&boxes[p], x, y),
            );
            match ray_tracer::hit::nearest(&scan) {
                None => assert_eq!(found, None),
                Some(p) => {
                    some += 1;
                    let found = found.unwrap();
                    assert_eq!(found.primitive, p);
                    assert_eq!(Some(found.distance), scan[p]);
                }
            }
        }
    }
    assert!(some > 10);
}

#[test]
fn of_hits_at_one_distance_the_lesser_number_is_nearer() {
    let boxes = vec![cube(0, 0, 0, 5); 9];
    let bvh = Bvh::build(boxes);
    let found = bvh.nearest_hit(|_b: &Aabb| true, |p: usize| if p >= 3 { Some(7) } else { None });
    assert_eq!(found.map(|h| (h.primitive, h.distance)), Some((3, 7)));
    assert_eq!(bvh.nearest_hit(|_b: &Aabb| true, |_p: usize| None), None);
    assert_eq!(bvh.nearest_hit(|_b: &Aabb| false, |_p: usize| Some(1)), None);
}

#[test]
fn only_reported_primitives_are_measured() {
    let mut boxes = Vec::new();
    for i in 0..64 {
        boxes.push(cube(i * 100, 0, 0, 10));
    }
    let bvh = Bvh::build(boxes.clone());
    let measured = std::cell::Cell::new(0usize);
    let found = bvh.nearest_hit(
        |b: &Aabb| column_meets(b, 300, 0),
        |p: usize| {
            measured.set(measured.get() + 1);
            top_under(&boxes[p], 300, 0)
        },
    );
    assert_eq!(found.map(|h| h.primitive), Some(3));
    assert!(measured.get() <= 4);
}
