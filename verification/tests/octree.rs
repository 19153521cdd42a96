use stl::octree::{DEPTH_LIMIT, TRIANGLE_LIMIT};
use stl::{Normal, Octant, Octree, Point, StlFile, Triangle};

fn tri(a: (i64, i64, i64), b: (i64, i64, i64), c: (i64, i64, i64)) -> Triangle {
    Triangle {
        normal: Normal::zero(),
        v0: Point::new(a.0, a.1, a.2),
        v1: Point::new(b.0, b.1, b.2),
        v2: Point::new(c.0, c.1, c.2),
    }
}

fn small_at(x: i64, y: i64, z: i64) -> Triangle {
    tri((x, y, z), (x + 1, y, z), (x, y + 1, z))
}

fn mesh_of(triangles: &[Triangle]) -> StlFile {
    let mut mesh = StlFile::new();
    for t in triangles {
        mesh.add_triangle(*t);
    }
    mesh
}

/// Fifty small triangles near the origin, then whatever `rest` holds.
fn crowded(rest: &[Triangle]) -> Vec<Triangle> {
    let mut all = Vec::new();
    for i in 0..50 {
        all.push(small_at(i % 10, i / 10, 0));
    }
    all.extend_from_slice(rest);
    all
}

/// A triangle that reaches (1024, 1024, 1024).
fn far() -> Triangle {
    tri((1014, 1014, 1014), (1024, 1024, 1024), (1014, 1024, 1014))
}

fn check_invariants(tree: &Octree) {
    // every triangle stands in exactly one list, once
    let mut seen = vec![0usize; tree.triangles.len()];
    for octant in &tree.octants {
        for &id in &octant.triangle_ids {
            assert!(id < tree.triangles.len());
            seen[id] += 1;
            assert!(octant.contains_triangle(tree.triangles[id]));
        }
    }
    assert!(seen.iter().all(|&n| n == 1));
    for octant in &tree.octants {
        assert!(octant.depth <= DEPTH_LIMIT);
        let within = tree.triangles.iter().filter(|t| octant.contains_triangle(**t)).count();
        match octant.children {
            Some(children) => {
                assert!(within >= TRIANGLE_LIMIT);
                for (k, &child) in children.iter().enumerate() {
                    assert!(child < tree.octants.len());
                    assert_eq!(tree.octants[child].depth, octant.depth + 1);
                    assert_eq!(tree.octants[child].radius, octant.radius.half());
                    let h = octant.radius.half();
                    let c = octant.center;
                    let right = Point::new(c.x + h.x, c.y + h.y, c.z + h.z);
                    let left = Point::new(c.x - h.x, c.y - h.y, c.z - h.z);
                    let expected = [
                        (right.x, left.y, right.z),
                        (right.x, right.y, right.z),
                        (right.x, right.y, left.z),
                        (right.x, left.y, left.z),
                        (left.x, left.y, left.z),
                        (left.x, left.y, right.z),
                        (left.x, right.y, right.z),
                        (left.x, right.y, left.z),
                    ][k];
                    assert_eq!(
                        tree.octants[child].center,
                        Point::new(expected.0, expected.1, expected.2)
                    );
                    for &id in &octant.triangle_ids {
                        assert!(!tree.octants[child].contains_triangle(tree.triangles[id]));
                    }
                }
            },
            None => {
                if octant.depth < DEPTH_LIMIT {
                    assert!(octant.triangle_ids.len() <= TRIANGLE_LIMIT);
                }
            },
        }
        if within < TRIANGLE_LIMIT {
            assert!(octant.children.is_none());
        }
    }
}

#[test]
fn insert_one_triangle_goes_to_root() {
    let mut file = StlFile::new();

    let origin = Point { x: 0, y: 0, z: 0 };

    file.add_triangle(Triangle {
        normal: Normal { i: 0, j: 0, k: 0 },
        v0: origin,
        v1: origin,
        v2: origin,
    });

    let octree = Octree::new(file);

    assert_eq!(octree.octants.len(), 1);
    assert_eq!(octree.triangles.len(), 1);
}

#[test]
fn empty_mesh_gives_a_root_alone() {
    let octree = Octree::new(StlFile::new());
    assert_eq!(octree.octants.len(), 1);
    assert_eq!(octree.triangles.len(), 0);
    assert!(octree.octants[0].children.is_none());
    assert_eq!(octree.octants[0].depth, 0);
}

#[test]
fn root_is_centered_on_the_box_with_its_whole_extent_for_radius() {
    let mesh = mesh_of(&[tri((0, 0, 0), (10, 20, 30), (4, 4, 4))]);
    let octree = Octree::new(mesh);
    assert_eq!(octree.octants[0].center, Point::new(5, 10, 15));
    assert_eq!(octree.octants[0].radius, Point::new(10, 20, 30));
    assert_eq!(octree.octants[0].triangle_ids, vec![0]);
}

#[test]
fn fifty_triangles_stay_in_the_root() {
    let all = crowded(&[]);
    let octree = Octree::new(mesh_of(&all));
    assert_eq!(octree.octants.len(), 1);
    assert_eq!(octree.triangles, all);
    assert_eq!(octree.octants[0].triangle_ids, (0..50).collect::<Vec<usize>>());
    assert!(octree.octants[0].children.is_none());
    check_invariants(&octree);
}

#[test]
fn the_fifty_first_triangle_splits_the_root() {
    let all = crowded(&[far()]);
    let octree = Octree::new(mesh_of(&all));

    assert_eq!(octree.triangles, all);
    assert_eq!(octree.octants.len(), 9);
    let root = &octree.octants[0];
    assert_eq!(root.center, Point::new(512, 512, 512));
    assert_eq!(root.radius, Point::new(1024, 1024, 1024));
    assert_eq!(root.children, Some([1, 2, 3, 4, 5, 6, 7, 8]));
    assert!(root.triangle_ids.is_empty());

    let centers = [
        (1024, 0, 1024),
        (1024, 1024, 1024),
        (1024, 1024, 0),
        (1024, 0, 0),
        (0, 0, 0),
        (0, 0, 1024),
        (0, 1024, 1024),
        (0, 1024, 0),
    ];
    for k in 0..8 {
        let child: &Octant = &octree.octants[k + 1];
        assert_eq!(child.center, Point::new(centers[k].0, centers[k].1, centers[k].2));
        assert_eq!(child.radius, Point::new(512, 512, 512));
        assert_eq!(child.depth, 1);
        assert!(child.children.is_none());
    }
    // the fifty near the origin went to the fifth octant, in order
    assert_eq!(octree.octants[5].triangle_ids, (0..50).collect::<Vec<usize>>());
    // the far one went to the second
    assert_eq!(octree.octants[2].triangle_ids, vec![50]);
    for k in [1, 3, 4, 6, 7, 8] {
        assert!(octree.octants[k].triangle_ids.is_empty());
    }
    check_invariants(&octree);
}

#[test]
fn a_triangle_across_the_octants_stays_above_them() {
    let across = tri((400, 400, 400), (600, 600, 600), (400, 600, 400));
    let all = crowded(&[far(), across]);
    let octree = Octree::new(mesh_of(&all));
    assert_eq!(octree.octants.len(), 9);
    assert_eq!(octree.octants[0].triangle_ids, vec![51]);
    assert_eq!(octree.octants[2].triangle_ids, vec![50]);
    check_invariants(&octree);
}

#[test]
fn a_triangle_on_the_border_goes_to_the_first_octant_that_holds_it() {
    // the point (512, 512, 512) lies in all eight octants
    let middle = tri((512, 512, 512), (512, 512, 512), (512, 512, 512));
    let all = crowded(&[far(), middle]);
    let octree = Octree::new(mesh_of(&all));
    assert_eq!(octree.octants[1].triangle_ids, vec![51]);
    check_invariants(&octree);
}

#[test]
fn a_full_octant_below_the_root_is_split_in_turn() {
    let near = small_at(400, 400, 400);
    let all = crowded(&[far(), near]);
    let octree = Octree::new(mesh_of(&all));
    // the last triangle goes down through two full octants, and each is split as it comes
    assert_eq!(octree.octants.len(), 25);
    assert_eq!(octree.octants[5].children, Some([9, 10, 11, 12, 13, 14, 15, 16]));
    assert_eq!(octree.octants[10].center, Point::new(256, 256, 256));
    assert_eq!(octree.octants[10].radius, Point::new(256, 256, 256));
    assert_eq!(octree.octants[10].depth, 2);
    assert_eq!(octree.octants[10].children, Some([17, 18, 19, 20, 21, 22, 23, 24]));
    assert_eq!(octree.octants[21].center, Point::new(128, 128, 128));
    assert_eq!(octree.octants[21].radius, Point::new(128, 128, 128));
    assert_eq!(octree.octants[21].depth, 3);
    assert_eq!(octree.octants[21].children, None);
    assert_eq!(octree.octants[21].triangle_ids, (0..50).collect::<Vec<usize>>());
    assert_eq!(octree.octants[18].center, Point::new(384, 384, 384));
    assert_eq!(octree.octants[18].triangle_ids, vec![51]);
    assert_eq!(octree.octants[2].triangle_ids, vec![50]);
    assert!(octree.octants[0].triangle_ids.is_empty());
    assert!(octree.octants[5].triangle_ids.is_empty());
    assert!(octree.octants[10].triangle_ids.is_empty());
    check_invariants(&octree);
}

#[test]
fn an_odd_radius_is_halved_upward_so_that_the_octants_leave_no_gap() {
    // the box is [0, 125]: center 62, radius 125; the octants below have radius 63
    let mut all = Vec::new();
    for _ in 0..50 {
        all.push(tri((0, 0, 0), (125, 125, 125), (62, 62, 62)));
    }
    // the point 62 lies in the octants on either side; -1 + 63 = 62 = 125 - 63
    let border = tri((62, 62, 62), (62, 62, 62), (62, 62, 62));
    all.push(border);
    let octree = Octree::new(mesh_of(&all));
    assert_eq!(octree.octants.len(), 9);
    assert_eq!(octree.octants[0].center, Point::new(62, 62, 62));
    assert_eq!(octree.octants[0].radius, Point::new(125, 125, 125));
    assert_eq!(octree.octants[2].center, Point::new(125, 125, 125));
    assert_eq!(octree.octants[2].radius, Point::new(63, 63, 63));
    assert_eq!(octree.octants[5].center, Point::new(-1, -1, -1));
    assert_eq!(octree.octants[5].radius, Point::new(63, 63, 63));
    // the wide triangles stay at the root, the point goes to the first octant
    assert_eq!(octree.octants[0].triangle_ids, (0..50).collect::<Vec<usize>>());
    assert_eq!(octree.octants[1].triangle_ids, vec![50]);
    check_invariants(&octree);
}

#[test]
fn equal_triangles_go_down_to_the_depth_limit_and_no_further() {
    let origin = tri((0, 0, 0), (0, 0, 0), (0, 0, 0));
    let all = vec![origin; 120];
    let octree = Octree::new(mesh_of(&all));
    assert_eq!(octree.triangles.len(), 120);
    assert_eq!(octree.octants.len(), 1 + 8 * 8);
    let deepest = octree.octants.iter().map(|o| o.depth).max().unwrap();
    assert_eq!(deepest, 8);
    let at_the_bottom: Vec<&Octant> = octree.octants.iter().filter(|o| o.depth == 8).collect();
    assert_eq!(at_the_bottom.len(), 8);
    assert_eq!(at_the_bottom[0].triangle_ids, (0..120).collect::<Vec<usize>>());
    assert!(octree.octants.iter().all(|o| o.depth == 8 || o.triangle_ids.is_empty()));
    check_invariants(&octree);
}

#[test]
fn a_spread_mesh_keeps_the_invariants() {
    let mut all = Vec::new();
    let mut seed: i64 = 12345;
    for _ in 0..2000 {
        let mut next = || {
            seed = (seed * 1103515245 + 12345) % 2147483648;
            seed % 4096
        };
        let (x, y, z) = (next(), next(), next());
        let (dx, dy, dz) = (next() % 64, next() % 64, next() % 64);
        all.push(tri((x, y, z), (x + dx, y, z + dz), (x, y + dy, z)));
    }
    let octree = Octree::new(mesh_of(&all));
    assert_eq!(octree.triangles, all);
    assert!(octree.octants.len() > 9);
    assert_eq!((octree.octants.len() - 1) % 8, 0);
    check_invariants(&octree);
}

#[test]
fn octant_tests() {
    let octant = Octant {
        children: None,
        triangle_ids: (0..50).collect(),
        center: Point::new(10, 10, 10),
        radius: Point::new(5, 6, 7),
        depth: 7,
    };
    assert!(octant.should_split());
    assert!(octant.contains_point(Point::new(5, 4, 3)));
    assert!(octant.contains_point(Point::new(15, 16, 17)));
    assert!(!octant.contains_point(Point::new(16, 16, 17)));
    assert!(!octant.contains_point(Point::new(5, 3, 3)));
    assert!(!octant.contains_triangle(tri((5, 4, 3), (15, 16, 17), (15, 16, 18))));
    assert!(octant.contains_triangle(tri((5, 4, 3), (15, 16, 17), (10, 10, 10))));

    let deep = Octant { depth: 8, ..octant.clone() };
    assert!(!deep.should_split());
    let light = Octant { triangle_ids: (0..49).collect(), ..octant.clone() };
    assert!(!light.should_split());
    let split = Octant { children: Some([1, 2, 3, 4, 5, 6, 7, 8]), ..octant.clone() };
    assert!(!split.should_split());
}

#[test]
fn octant_at_the_edge_of_the_range_does_not_overflow() {
    let octant = Octant {
        children: None,
        triangle_ids: Vec::new(),
        center: Point::new(i64::MAX, i64::MIN, 0),
        radius: Point::new(i64::MAX, i64::MAX, i64::MAX),
        depth: 0,
    };
    assert!(octant.contains_point(Point::new(i64::MAX, i64::MIN, 0)));
    assert!(octant.contains_point(Point::new(0, -1, i64::MAX)));
    assert!(!octant.contains_point(Point::new(-1, -1, 0)));
    assert!(!octant.contains_point(Point::new(0, 0, 0)));
    assert!(!octant.contains_point(Point::new(0, -1, i64::MIN)));
}

#[test]
fn intersection_keeps_a_triangle_across_the_raw_border() {
    // the first mesh spans [0, 10], the second [8, 101]: they meet in [8, 10]
    let wide = tri((0, 0, 0), (10, 10, 10), (0, 10, 0));
    let across = tri((7, 9, 9), (9, 9, 9), (9, 8, 9));
    let one = mesh_of(&[wide, across]);
    let near = tri((8, 8, 8), (9, 9, 9), (8, 9, 8));
    let away = tri((100, 100, 100), (101, 101, 101), (100, 101, 100));
    let two = mesh_of(&[near, away]);

    assert_eq!(one.longest_edge(), 18);
    assert_eq!(two.longest_edge(), 2);
    let raw = one.bounding_box().intersection(&two.bounding_box());
    assert!(!raw.contains_triangle(across));

    let octree = Octree::new_intersection(one, two);
    // the box is [8 - 18, 10 + 18] along each axis
    assert_eq!(octree.octants[0].center, Point::new(9, 9, 9));
    assert_eq!(octree.octants[0].radius, Point::new(38, 38, 38));
    assert!(octree.triangles.contains(&across));
    assert_eq!(octree.triangles, vec![wide, across, near]);
    assert_eq!(octree.octants.len(), 1);
    assert_eq!(octree.octants[0].triangle_ids, vec![0, 1, 2]);
    check_invariants(&octree);
}

#[test]
fn intersection_leaves_out_what_is_partly_outside() {
    let a = tri((0, 0, 0), (4, 0, 0), (0, 4, 0));
    let b = tri((0, 0, 0), (1, 1, 1), (200, 0, 0));
    let one = mesh_of(&[a]);
    let c = tri((2, 2, 0), (3, 3, 0), (2, 3, 0));
    let two = mesh_of(&[c, b]);
    // boxes: [0,4]x[0,4]x[0,0] and [0,200]x[0,3]x[0,1]; longest side 200
    let octree = Octree::new_intersection(one, two);
    assert_eq!(octree.octants[0].center, Point::new(2, 1, 0));
    assert_eq!(octree.octants[0].radius, Point::new(404, 403, 400));
    assert_eq!(octree.triangles, vec![a, c, b]);

    // with a short longest side the far vertex is outside
    let d = tri((0, 0, 0), (1, 1, 1), (1, 0, 0));
    let e = tri((50, 0, 0), (51, 1, 1), (51, 0, 0));
    let octree = Octree::new_intersection(mesh_of(&[a]), mesh_of(&[d, e]));
    assert_eq!(octree.triangles, vec![a, d]);
}

#[test]
fn intersection_of_meshes_apart_can_be_empty() {
    let a = small_at(0, 0, 0);
    let b = small_at(1000, 1000, 1000);
    let octree = Octree::new_intersection(mesh_of(&[a]), mesh_of(&[b]));
    assert_eq!(octree.triangles.len(), 0);
    assert_eq!(octree.octants.len(), 1);
}
