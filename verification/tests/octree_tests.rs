use octree_search::bound::Bound;
use octree_search::kernel::{inscribed, AbstractKernel, Kernel, KernelFactory, KernelT};
use octree_search::octree::{Octant, Octree, MAX_DEPTH};
use octree_search::point::{Point, COORD_LIMIT};

fn pt(x: i64, y: i64, z: i64, id: usize) -> Point {
    Point { x, y, z, id: Some(id) }
}

fn grid(step: i64) -> Vec<Point> {
    let mut v = Vec::new();
    let mut id = 0;
    for x in 0..3 {
        for y in 0..3 {
            for z in 0..3 {
                v.push(pt(x * step, y * step, z * step, id));
                id += 1;
            }
        }
    }
    v
}

fn corners_and_center(step: i64) -> Vec<Point> {
    let mut v = Vec::new();
    let mut id = 0;
    for x in [0, 2] {
        for y in [0, 2] {
            for z in [0, 2] {
                v.push(pt(x * step, y * step, z * step, id));
                id += 1;
            }
        }
    }
    v.push(pt(step, step, step, id));
    v
}

fn scattered(n: usize) -> Vec<Point> {
    let mut v = Vec::new();
    let mut a: i64 = 12345;
    for id in 0..n {
        a = (a * 1103515245 + 12345) % 2147483648;
        let x = a % 200 - 100;
        a = (a * 1103515245 + 12345) % 2147483648;
        let y = a % 200 - 100;
        a = (a * 1103515245 + 12345) % 2147483648;
        let z = a % 50 - 25;
        v.push(pt(x, y, z, id));
    }
    v
}

fn ids(found: &Vec<&Point>) -> Vec<usize> {
    let mut v: Vec<usize> = found.iter().map(|p| p.id.unwrap()).collect();
    v.sort();
    v
}

fn walk(tree: &Octree, oct: &Octant) -> Vec<usize> {
    let mut v = Vec::new();
    let mut cur = oct.start_idx;
    for _ in 0..oct.size {
        v.push(cur);
        cur = tree.successors[cur];
    }
    v
}

fn leaves(tree: &Octree, oct: &Octant, out: &mut Vec<usize>) {
    if oct.n_octants == 0 {
        out.extend(walk(tree, oct));
    } else {
        for child in oct.octants.iter().flatten() {
            leaves(tree, child, out);
        }
    }
}

fn check_cells(tree: &Octree, oct: &Octant, depth: usize) {
    let span = walk(tree, oct);
    assert_eq!(*span.last().unwrap(), oct.end_idx);
    assert_eq!(oct.octants.len(), 8);
    assert_eq!(oct.n_octants, oct.octants.iter().flatten().count());
    assert_eq!(oct.n_octants == 0, oct.size <= tree.bucket_size || depth >= MAX_DEPTH);
    for &i in &span {
        let p = tree.points[i];
        assert!(oct.bound.min.x <= p.x && p.x <= oct.bound.max.x);
        assert!(oct.bound.min.y <= p.y && p.y <= oct.bound.max.y);
        assert!(oct.bound.min.z <= p.z && p.z <= oct.bound.max.z);
    }
    if oct.n_octants > 0 {
        let mut joined = Vec::new();
        for child in oct.octants.iter().flatten() {
            joined.extend(walk(tree, child));
            check_cells(tree, child, depth + 1);
        }
        assert_eq!(joined, span);
    }
}

fn brute(points: &Vec<Point>, k: &Kernel) -> Vec<usize> {
    let mut v = Vec::new();
    for p in points {
        if k.is_inside(p) && !k.get_center().has_same_id(p) {
            v.push(p.id.unwrap());
        }
    }
    v.sort();
    v
}

#[test]
fn bound_reaches_the_half_extent_on_every_axis() {
    let b = Bound::new(&pt(1, -2, 3, 7), 5);
    assert_eq!((b.min.x, b.min.y, b.min.z), (-4, -7, -2));
    assert_eq!((b.max.x, b.max.y, b.max.z), (6, 3, 8));
    assert!(b.min.id.is_none() && b.max.id.is_none());
}

#[test]
fn point_copy_keeps_the_identifier() {
    let p = pt(4, 5, 6, 9);
    let q = Point::new_from_point(&p);
    assert_eq!((q.x, q.y, q.z, q.id), (4, 5, 6, Some(9)));
    let d = Point::default();
    assert_eq!((d.x, d.y, d.z, d.id), (0, 0, 0, None));
}

#[test]
fn range_check_is_inclusive() {
    assert!(pt(COORD_LIMIT, -COORD_LIMIT, 0, 0).is_in_range());
    assert!(!pt(COORD_LIMIT + 1, 0, 0, 0).is_in_range());
    assert!(!pt(0, 0, -COORD_LIMIT - 1, 0).is_in_range());
}

#[test]
fn identifiers_match_only_when_both_present() {
    let a = pt(0, 0, 0, 3);
    let b = pt(9, 9, 9, 3);
    let c = pt(0, 0, 0, 4);
    let n = Point { x: 0, y: 0, z: 0, id: None };
    assert!(a.has_same_id(&b));
    assert!(!a.has_same_id(&c));
    assert!(!a.has_same_id(&n));
    assert!(!n.has_same_id(&n));
}

#[test]
fn inscribed_half_extent_values() {
    assert_eq!(inscribed(0), 0);
    assert_eq!(inscribed(1), 0);
    assert_eq!(inscribed(2), 1);
    assert_eq!(inscribed(10), 7);
    assert_eq!(inscribed(1000), 707);
    assert_eq!(inscribed(i64::MAX), 6521908912666391105);
}

#[test]
fn kernel_boxes_per_shape() {
    let p = pt(10, 20, 30, 1);
    let c = KernelFactory::new(&p, 10, &KernelT::Circle);
    assert_eq!((c.inner.min.x, c.inner.max.x), (3, 17));
    assert_eq!((c.outer.min.y, c.outer.max.y), (10, 30));
    let s = KernelFactory::new(&p, 10, &KernelT::Sphere);
    assert_eq!((s.inner.min.z, s.inner.max.z), (23, 37));
    let q = KernelFactory::new(&p, 10, &KernelT::Square);
    assert_eq!((q.inner.min.x, q.inner.max.x), (0, 20));
    let k = KernelFactory::new(&p, 10, &KernelT::Cube);
    assert_eq!((k.inner.min.z, k.inner.max.z), (20, 40));
    assert_eq!((k.outer.min.z, k.outer.max.z), (20, 40));
    assert_eq!(k.get_center().id, Some(1));
    assert_eq!(k.radius, 10);
}

#[test]
fn membership_excludes_the_boundary() {
    let p = pt(0, 0, 0, 0);
    let circle = KernelFactory::new(&p, 5, &KernelT::Circle);
    assert!(circle.is_inside(&pt(3, 3, 100, 1)));
    assert!(!circle.is_inside(&pt(3, 4, 0, 1)));
    assert!(!circle.is_inside(&pt(5, 0, 0, 1)));
    let sphere = KernelFactory::new(&p, 5, &KernelT::Sphere);
    assert!(sphere.is_inside(&pt(2, 2, 4, 1)));
    assert!(!sphere.is_inside(&pt(3, 3, 100, 1)));
    assert!(!sphere.is_inside(&pt(0, 3, 4, 1)));
    let square = KernelFactory::new(&p, 5, &KernelT::Square);
    assert!(square.is_inside(&pt(4, -4, 100, 1)));
    assert!(!square.is_inside(&pt(5, 0, 0, 1)));
    let cube = KernelFactory::new(&p, 5, &KernelT::Cube);
    assert!(cube.is_inside(&pt(4, -4, 4, 1)));
    assert!(!cube.is_inside(&pt(4, -4, 5, 1)));
    assert!(!cube.is_inside(&pt(4, -4, 100, 1)));
}

#[test]
fn containment_and_overlap_of_boxes() {
    let p = pt(0, 0, 0, 0);
    let cube = KernelFactory::new(&p, 10, &KernelT::Cube);
    let square = KernelFactory::new(&p, 10, &KernelT::Square);
    let small = Bound::new(&pt(0, 0, 0, 0), 9);
    let touching = Bound::new(&pt(0, 0, 0, 0), 10);
    let tall = Bound { min: pt(-1, -1, -50, 0), max: pt(1, 1, 50, 0) };
    let far = Bound::new(&pt(0, 0, 40, 0), 5);
    let edge = Bound::new(&pt(15, 0, 0, 0), 5);
    let away = Bound::new(&pt(16, 0, 0, 0), 5);
    assert!(cube.contains(&small));
    assert!(!cube.contains(&touching));
    assert!(!cube.contains(&tall));
    assert!(square.contains(&tall));
    assert!(!cube.box_overlap(&far));
    assert!(square.box_overlap(&far));
    assert!(cube.box_overlap(&edge));
    assert!(!cube.box_overlap(&away));
    assert!(!square.box_overlap(&away));
}

#[test]
fn child_numbers_follow_the_three_comparisons() {
    let mut o = Octant::default();
    o.center = pt(0, 0, 0, 0);
    assert_eq!(o.octant_idx(&pt(0, 0, 0, 1)), 0);
    assert_eq!(o.octant_idx(&pt(1, 0, 0, 1)), 1);
    assert_eq!(o.octant_idx(&pt(0, 1, 0, 1)), 2);
    assert_eq!(o.octant_idx(&pt(0, 0, 1, 1)), 4);
    assert_eq!(o.octant_idx(&pt(1, 1, 1, 1)), 7);
    assert_eq!(o.octant_idx(&pt(-1, 5, 5, 1)), 6);
    assert!(o.is_leaf());
}

#[test]
fn root_cube_is_centred_and_cubic() {
    let pts = vec![pt(0, 0, 0, 0), pt(3, 1, 1, 1), pt(1, 10, -4, 2)];
    let tree = Octree::new(&pts, 1);
    assert_eq!((tree.root.center.x, tree.root.center.y, tree.root.center.z), (2, 5, -1));
    assert_eq!(tree.root.radius, 5);
    assert_eq!((tree.root.bound.min.x, tree.root.bound.max.x), (-3, 7));
    let (c, r) = tree.mbb();
    assert_eq!((c.x, c.y, c.z, r), (2, 5, -1, 5));
}

#[test]
fn successors_start_as_the_input_order() {
    let pts = grid(1);
    let mut tree = Octree::default();
    assert_eq!(tree.bucket_size, 25);
    tree.insert_points(&pts);
    assert_eq!(tree.points.len(), 27);
    for i in 0..27 {
        assert_eq!(tree.successors[i], i + 1);
    }
    tree.insert_point(&pts[0]);
    assert_eq!(tree.points.len(), 28);
}

#[test]
fn every_point_is_in_exactly_one_leaf() {
    for bucket in [0usize, 1, 2, 5, 100] {
        let pts = scattered(200);
        let tree = Octree::new(&pts, bucket);
        let mut all = Vec::new();
        leaves(&tree, &tree.root, &mut all);
        all.sort();
        assert_eq!(all, (0..200).collect::<Vec<usize>>());
        assert_eq!(tree.root.size, 200);
    }
}

#[test]
fn every_cell_bounds_its_points() {
    for bucket in [1usize, 3, 50] {
        let pts = scattered(150);
        let tree = Octree::new(&pts, bucket);
        check_cells(&tree, &tree.root, 0);
    }
    let pts = grid(1);
    let tree = Octree::new(&pts, 1);
    check_cells(&tree, &tree.root, 0);
}

#[test]
fn children_halve_the_radius_rounding_up() {
    let pts = vec![pt(0, 0, 0, 0), pt(10, 10, 10, 1)];
    let tree = Octree::new(&pts, 1);
    assert_eq!(tree.root.radius, 5);
    assert_eq!(tree.root.n_octants, 2);
    let low = tree.root.octants[0].as_ref().unwrap();
    let high = tree.root.octants[7].as_ref().unwrap();
    assert_eq!(low.radius, 3);
    assert_eq!((low.center.x, low.center.y, low.center.z), (2, 2, 2));
    assert_eq!((high.center.x, high.center.y, high.center.z), (8, 8, 8));
    assert_eq!((low.size, high.size), (1, 1));
    assert_eq!(tree.root.start_idx, 0);
    assert_eq!(tree.root.end_idx, 1);
}

#[test]
fn grid_cube_query_finds_all_other_points() {
    let pts = grid(10);
    let tree = Octree::new(&pts, 1);
    let found = tree.search_neighbors(&pts[13], 15, &KernelT::Cube);
    let mut expected: Vec<usize> = (0..27).collect();
    expected.retain(|&i| i != 13);
    assert_eq!(ids(&found), expected);
}

#[test]
fn corners_around_a_center_cube_query() {
    let pts = corners_and_center(10);
    let tree = Octree::new(&pts, 1);
    let found = tree.search_neighbors(&pts[8], 15, &KernelT::Cube);
    assert_eq!(ids(&found), vec![0, 1, 2, 3, 4, 5, 6, 7]);
    let none = tree.search_neighbors(&pts[8], 10, &KernelT::Cube);
    assert!(none.is_empty());
}

#[test]
fn single_leaf_matches_deep_tree() {
    let pts = scattered(120);
    let deep = Octree::new(&pts, 1);
    let flat = Octree::new(&pts, 120);
    assert_eq!(flat.root.n_octants, 0);
    assert!(deep.root.n_octants > 0);
    for kt in [KernelT::Circle, KernelT::Square, KernelT::Cube] {
        for q in [0usize, 17, 63, 119] {
            for r in [1i64, 10, 40, 500] {
                let a = deep.search_neighbors(&pts[q], r, &kt);
                let b = flat.search_neighbors(&pts[q], r, &kt);
                assert_eq!(ids(&a), ids(&b));
            }
        }
    }
}

#[test]
fn exact_shapes_agree_with_a_scan() {
    let pts = scattered(150);
    let tree = Octree::new(&pts, 4);
    for kt in [KernelT::Circle, KernelT::Square, KernelT::Cube] {
        for q in [3usize, 77, 149] {
            for r in [0i64, 5, 30, 90, 1000] {
                let k = KernelFactory::new(&pts[q], r, &kt);
                let found = tree.search_neighbors(&pts[q], r, &kt);
                assert_eq!(ids(&found), brute(&pts, &k));
            }
        }
    }
}

#[test]
fn query_point_is_never_returned() {
    let pts = scattered(100);
    let tree = Octree::new(&pts, 3);
    for kt in [KernelT::Circle, KernelT::Sphere, KernelT::Square, KernelT::Cube] {
        for q in 0..100 {
            let found = tree.search_neighbors(&pts[q], 60, &kt);
            assert!(found.iter().all(|p| p.id != Some(q)));
        }
    }
}

#[test]
fn query_point_outside_the_index() {
    let pts = grid(10);
    let tree = Octree::new(&pts, 2);
    let stranger = Point { x: 10, y: 10, z: 10, id: None };
    let found = tree.search_neighbors(&stranger, 15, &KernelT::Cube);
    assert_eq!(found.len(), 27);
    let other = pt(10, 10, 10, 500);
    let found = tree.search_neighbors(&other, 5, &KernelT::Sphere);
    assert_eq!(ids(&found), vec![13]);
}

#[test]
fn larger_radius_finds_no_less() {
    let pts = scattered(150);
    let tree = Octree::new(&pts, 2);
    for kt in [KernelT::Circle, KernelT::Sphere, KernelT::Square, KernelT::Cube] {
        for q in [0usize, 50, 100] {
            let mut last: Vec<usize> = Vec::new();
            for r in [1i64, 2, 3, 5, 8, 13, 21, 34, 55, 89, 144, 400] {
                let now = ids(&tree.search_neighbors(&pts[q], r, &kt));
                assert!(last.iter().all(|i| now.contains(i)));
                last = now;
            }
        }
    }
}

#[test]
fn boxes_find_what_round_shapes_find() {
    let pts = scattered(150);
    let tree = Octree::new(&pts, 2);
    for q in [5usize, 60, 140] {
        for r in [4i64, 20, 70, 200] {
            let sphere = ids(&tree.search_neighbors(&pts[q], r, &KernelT::Sphere));
            let cube = ids(&tree.search_neighbors(&pts[q], r, &KernelT::Cube));
            assert!(sphere.iter().all(|i| cube.contains(i)));
            let circle = ids(&tree.search_neighbors(&pts[q], r, &KernelT::Circle));
            let square = ids(&tree.search_neighbors(&pts[q], r, &KernelT::Square));
            assert!(circle.iter().all(|i| square.contains(i)));
        }
    }
}

#[test]
fn repeated_queries_agree() {
    let pts = scattered(80);
    let tree = Octree::new(&pts, 3);
    let a: Vec<usize> = tree.search_neighbors(&pts[9], 50, &KernelT::Sphere).iter().map(|p| p.id.unwrap()).collect();
    let b: Vec<usize> = tree.search_neighbors(&pts[9], 50, &KernelT::Sphere).iter().map(|p| p.id.unwrap()).collect();
    assert_eq!(a, b);
}

#[test]
fn no_points_give_an_empty_tree() {
    let pts: Vec<Point> = Vec::new();
    let tree = Octree::new(&pts, 1);
    assert_eq!(tree.root.size, 0);
    assert_eq!(tree.root.n_octants, 0);
    assert!(tree.root.octants.iter().all(|c| c.is_none()));
    let found = tree.search_neighbors(&pt(0, 0, 0, 0), 10, &KernelT::Cube);
    assert!(found.is_empty());
}

#[test]
fn equal_points_stop_at_the_depth_limit() {
    let pts = vec![pt(5, 5, 5, 0), pt(5, 5, 5, 1), pt(5, 5, 5, 2), pt(-7, 0, 3, 3)];
    let tree = Octree::new(&pts, 1);
    check_cells(&tree, &tree.root, 0);
    let found = tree.search_neighbors(&pts[0], 1, &KernelT::Sphere);
    assert_eq!(ids(&found), vec![1, 2]);
}

#[test]
fn extreme_coordinates_are_indexed() {
    let pts = vec![
        pt(COORD_LIMIT, COORD_LIMIT, COORD_LIMIT, 0),
        pt(-COORD_LIMIT, -COORD_LIMIT, -COORD_LIMIT, 1),
        pt(0, 0, 0, 2),
    ];
    let tree = Octree::new(&pts, 1);
    check_cells(&tree, &tree.root, 0);
    assert_eq!(tree.root.radius, COORD_LIMIT);
    let found = tree.search_neighbors(&pts[2], COORD_LIMIT + 1, &KernelT::Cube);
    assert_eq!(ids(&found), vec![0, 1]);
}

fn through_trait<K: AbstractKernel>(k: &K, p: &Point, b: &Bound) -> (bool, bool, bool, Option<usize>) {
    (k.is_inside(p), k.contains(b), k.box_overlap(b), k.get_center().id)
}

#[test]
fn kernel_answers_through_its_trait() {
    let k = KernelFactory::new(&pt(0, 0, 0, 42), 10, &KernelT::Sphere);
    let b = Bound::new(&pt(1, 1, 1, 0), 2);
    assert_eq!(through_trait(&k, &pt(5, 5, 5, 1), &b), (true, true, true, Some(42)));
    assert_eq!(through_trait(&k, &pt(6, 6, 6, 1), &Bound::new(&pt(20, 0, 0, 0), 5)), (false, false, false, Some(42)));
}

#[test]
fn a_single_leaf_keeps_the_input_order() {
    let pts = scattered(30);
    let tree = Octree::new(&pts, 30);
    let found = tree.search_neighbors(&pts[0], 1000, &KernelT::Cube);
    let order: Vec<usize> = found.iter().map(|p| p.id.unwrap()).collect();
    assert_eq!(order, (1..30).collect::<Vec<usize>>());
}

#[test]
fn children_are_listed_in_slot_order() {
    let pts = vec![pt(9, 9, 9, 0), pt(1, 1, 1, 1), pt(9, 1, 1, 2), pt(1, 1, 2, 3)];
    let tree = Octree::new(&pts, 3);
    assert_eq!(walk(&tree, &tree.root), vec![1, 3, 2, 0]);
    assert_eq!((tree.root.start_idx, tree.root.end_idx, tree.root.n_octants), (1, 0, 3));
    let stranger = Point { x: 5, y: 5, z: 5, id: None };
    let found = tree.search_neighbors(&stranger, 100, &KernelT::Sphere);
    let order: Vec<usize> = found.iter().map(|p| p.id.unwrap()).collect();
    assert_eq!(order, vec![1, 3, 2, 0]);
}
