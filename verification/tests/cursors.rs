use stl::point_index::PointIndex;
use stl::vertex::{TriangleIterator, VertexWithNormalIterator};
use stl::{Normal, Point, Triangle, VertexWithNormal};

fn points(n: i64) -> Vec<Point> {
    (0..n).map(|i| Point::new(i, 2 * i, -i)).collect()
}

fn normals(n: i64) -> Vec<Normal> {
    (0..n).map(|i| Normal { i: 100 + i, j: 0, k: 0 }).collect()
}

#[test]
fn triangles_are_made_of_three_vertices_and_one_normal() {
    let vertices = points(6);
    let normals = normals(2);
    let mut it = TriangleIterator::new(&vertices, &normals);
    assert_eq!(
        it.next(),
        Some(Triangle { normal: normals[0], v0: vertices[0], v1: vertices[1], v2: vertices[2] })
    );
    assert_eq!(
        it.next(),
        Some(Triangle { normal: normals[1], v0: vertices[3], v1: vertices[4], v2: vertices[5] })
    );
    assert_eq!(it.next(), None);
    assert_eq!(it.next(), None);
}

#[test]
fn vertices_left_over_make_no_triangle() {
    let vertices = points(5);
    let normals = normals(1);
    let mut it = TriangleIterator::new(&vertices, &normals);
    assert!(it.next().is_some());
    assert_eq!(it.next(), None);
    assert_eq!(it.next(), None);
    let mut none = TriangleIterator::new(&vertices[..2], &normals);
    assert_eq!(none.next(), None);
    let mut empty = TriangleIterator::new(&[], &[]);
    assert_eq!(empty.next(), None);
}

#[test]
fn each_vertex_comes_with_the_normal_of_its_facet() {
    let vertices = points(7);
    let normals = normals(3);
    let mut it = VertexWithNormalIterator::new(&vertices, &normals);
    for j in 0..7 {
        assert_eq!(
            it.next(),
            Some(VertexWithNormal { vertex: vertices[j], normal: normals[j / 3] })
        );
    }
    assert_eq!(it.next(), None);
    assert_eq!(it.next(), None);
}

#[test]
fn points_are_numbered_in_the_order_they_come() {
    let mut index = PointIndex::new();
    assert_eq!(index.len(), 0);
    assert_eq!(index.find(Point::new(1, 2, 3)), None);
    assert_eq!(index.intern(Point::new(1, 2, 3)), 0);
    assert_eq!(index.intern(Point::new(1, 2, 4)), 1);
    assert_eq!(index.intern(Point::new(1, 3, 3)), 2);
    assert_eq!(index.intern(Point::new(2, 2, 3)), 3);
    assert_eq!(index.intern(Point::new(1, 2, 3)), 0);
    assert_eq!(index.intern(Point::new(1, 3, 3)), 2);
    assert_eq!(index.len(), 4);
    assert_eq!(index.find(Point::new(2, 2, 3)), Some(3));
    assert_eq!(index.find(Point::new(2, 2, 4)), None);
    assert_eq!(index.find(Point::new(3, 2, 1)), None);
    assert_eq!(index.intern(Point::new(i64::MIN, i64::MAX, 0)), 4);
    assert_eq!(index.find(Point::new(i64::MIN, i64::MAX, 0)), Some(4));
    assert_eq!(index.len(), 5);
}
