use stl::quantize::quantize;
use stl::{Normal, Point, StlFile, Triangle, UnionFind};

fn point(x: f32, y: f32, z: f32) -> Point {
    Point::new(quantize(x.to_bits()), quantize(y.to_bits()), quantize(z.to_bits()))
}

fn tri(a: (f32, f32, f32), b: (f32, f32, f32), c: (f32, f32, f32)) -> Triangle {
    Triangle {
        normal: Normal::zero(),
        v0: point(a.0, a.1, a.2),
        v1: point(b.0, b.1, b.2),
        v2: point(c.0, c.1, c.2),
    }
}

fn mesh_of(triangles: &[Triangle]) -> StlFile {
    let mut mesh = StlFile::new();
    for t in triangles {
        mesh.add_triangle(*t);
    }
    mesh
}

#[test]
fn two_triangles_sharing_an_edge_are_one_island() {
    let a = tri((0.0, 0.0, 0.0), (1.0, 0.0, 0.0), (0.0, 1.0, 0.0));
    let b = tri((1.0, 0.0, 0.0), (1.0, 1.0, 0.0), (0.0, 1.0, 0.0));
    let islands = mesh_of(&[a, b]).split_islands();
    assert_eq!(islands.len(), 1);
    assert_eq!(islands[0].triangles(), vec![a, b]);
}

#[test]
fn two_triangles_apart_are_two_islands() {
    let a = tri((0.0, 0.0, 0.0), (1.0, 0.0, 0.0), (0.0, 1.0, 0.0));
    let b = tri((100.0, 100.0, 100.0), (101.0, 100.0, 100.0), (100.0, 101.0, 100.0));
    let islands = mesh_of(&[a, b]).split_islands();
    assert_eq!(islands.len(), 2);
    assert_eq!(islands[0].triangles(), vec![a]);
    assert_eq!(islands[1].triangles(), vec![b]);
}

#[test]
fn an_empty_mesh_has_no_islands() {
    assert_eq!(StlFile::new().split_islands().len(), 0);
}

#[test]
fn vertices_within_a_cell_of_the_lattice_are_one_point() {
    let step = 1.0f32 / 1_048_576.0;
    let a = tri((0.0, 0.0, 0.0), (1.0, 0.0, 0.0), (0.0, 1.0, 0.0));
    let b = tri((1.0 + 0.25 * step, 0.0, 0.0), (2.0, 0.0, 0.0), (2.0, 1.0, 0.0));
    let c = tri((1.0 + 2.0 * step, 5.0, 0.0), (2.0, 5.0, 0.0), (2.0, 6.0, 0.0));
    let islands = mesh_of(&[a, b, c]).split_islands();
    assert_eq!(islands.len(), 2);
    assert_eq!(islands[0].triangles(), vec![a, b]);
    assert_eq!(islands[1].triangles(), vec![c]);
}

#[test]
fn islands_come_in_the_order_of_their_first_triangle() {
    let p = |i: i64| Point::new(i, 0, 0);
    let t = |a: i64, b: i64, c: i64| Triangle { normal: Normal::zero(), v0: p(a), v1: p(b), v2: p(c) };
    // components: {0,1,2,3,4} by t0, t3; {10,11,12} by t1; {20..24} by t2, t4, joined late by t5
    let t0 = t(0, 1, 2);
    let t1 = t(10, 11, 12);
    let t2 = t(20, 21, 22);
    let t3 = t(4, 3, 2);
    let t4 = t(23, 24, 25);
    let t5 = t(25, 22, 26);
    let islands = mesh_of(&[t0, t1, t2, t3, t4, t5]).split_islands();
    assert_eq!(islands.len(), 3);
    assert_eq!(islands[0].triangles(), vec![t0, t3]);
    assert_eq!(islands[1].triangles(), vec![t1]);
    assert_eq!(islands[2].triangles(), vec![t2, t4, t5]);
}

#[test]
fn a_late_triangle_joins_two_islands() {
    let p = |i: i64| Point::new(i, i, i);
    let t = |a: i64, b: i64, c: i64| Triangle { normal: Normal::zero(), v0: p(a), v1: p(b), v2: p(c) };
    let t0 = t(0, 1, 2);
    let t1 = t(10, 11, 12);
    let t2 = t(2, 50, 12);
    let islands = mesh_of(&[t0, t1, t2]).split_islands();
    assert_eq!(islands.len(), 1);
    assert_eq!(islands[0].triangles(), vec![t0, t1, t2]);
}

#[test]
fn the_second_and_third_vertex_are_joined_through_the_first() {
    let p = |i: i64| Point::new(i, 0, 0);
    let t = |a: i64, b: i64, c: i64| Triangle { normal: Normal::zero(), v0: p(a), v1: p(b), v2: p(c) };
    let t0 = t(0, 1, 2);
    let t1 = t(1, 8, 9);
    let t2 = t(2, 6, 7);
    let t3 = t(30, 31, 32);
    let islands = mesh_of(&[t0, t3, t1, t2]).split_islands();
    assert_eq!(islands.len(), 2);
    assert_eq!(islands[0].triangles(), vec![t0, t1, t2]);
    assert_eq!(islands[1].triangles(), vec![t3]);
}

#[test]
fn every_triangle_is_in_exactly_one_island() {
    let mut all = Vec::new();
    let mut seed: i64 = 99;
    for _ in 0..300 {
        let mut next = || {
            seed = (seed * 1103515245 + 12345) % 2147483648;
            seed % 200
        };
        let (a, b, c) = (next(), next(), next());
        all.push(Triangle {
            normal: Normal { i: a, j: b, k: c },
            v0: Point::new(a, 0, 0),
            v1: Point::new(b, 0, 0),
            v2: Point::new(c, 0, 0),
        });
    }
    let islands = mesh_of(&all).split_islands();
    let mut found = 0;
    for island in &islands {
        let triangles = island.triangles();
        assert!(!triangles.is_empty());
        found += triangles.len();
        // in the old order
        let mut at = 0;
        for t in &triangles {
            while all[at] != *t {
                at += 1;
            }
            at += 1;
        }
    }
    assert_eq!(found, all.len());
    // no vertex is shared between two islands
    for (g, island) in islands.iter().enumerate() {
        for (h, other) in islands.iter().enumerate() {
            if g < h {
                for p in island.vertices() {
                    assert!(!other.vertices().contains(&p));
                }
            }
        }
    }
}

#[test]
fn union_find_hands_out_what_was_handed_in() {
    let p = |i: i64| Point::new(0, i, 0);
    let t = |a: i64, b: i64, c: i64| Triangle { normal: Normal::zero(), v0: p(a), v1: p(b), v2: p(c) };
    let mut uf = UnionFind::new(9);
    assert_eq!(uf.files().len(), 0);
    uf.add_triangle(t(0, 1, 2));
    uf.add_triangle(t(3, 4, 5));
    uf.add_triangle(t(2, 2, 2));
    let files = uf.files();
    assert_eq!(files.len(), 2);
    assert_eq!(files[0].triangles(), vec![t(0, 1, 2), t(2, 2, 2)]);
    assert_eq!(files[1].triangles(), vec![t(3, 4, 5)]);
    // asking again gives the same
    let again = uf.files();
    assert_eq!(again, files);
    uf.add_triangle(t(5, 0, 0));
    let joined = uf.files();
    assert_eq!(joined.len(), 1);
    assert_eq!(joined[0].triangles(), vec![t(0, 1, 2), t(3, 4, 5), t(2, 2, 2), t(5, 0, 0)]);
}

#[test]
fn union_find_needs_room_for_distinct_points_only() {
    let p = |i: i64| Point::new(0, 0, i);
    let t = |a: i64, b: i64, c: i64| Triangle { normal: Normal::zero(), v0: p(a), v1: p(b), v2: p(c) };
    let mut uf = UnionFind::new(4);
    uf.add_triangle(t(0, 1, 2));
    uf.add_triangle(t(2, 1, 0));
    uf.add_triangle(t(1, 2, 3));
    uf.add_triangle(t(3, 3, 3));
    assert_eq!(uf.files().len(), 1);
}
