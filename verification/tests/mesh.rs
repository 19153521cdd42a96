use stl::index_buffer::{push_vertex_and_normal, push_vertex_only};
use stl::{BoundingBox, IndexBuffer, Layout, Normal, Point, StlFile, Triangle, VertexWithNormal};

fn tri(n: i64, a: (i64, i64, i64), b: (i64, i64, i64), c: (i64, i64, i64)) -> Triangle {
    Triangle {
        normal: Normal { i: n, j: n + 1, k: n + 2 },
        v0: Point::new(a.0, a.1, a.2),
        v1: Point::new(b.0, b.1, b.2),
        v2: Point::new(c.0, c.1, c.2),
    }
}

fn sample() -> (StlFile, Triangle, Triangle) {
    let t0 = tri(100, (0, 0, 0), (3, 0, 0), (3, 4, 0));
    let t1 = tri(200, (3, 0, 0), (3, 4, 0), (9, 9, 9));
    let mut mesh = StlFile::new();
    mesh.add_triangle(t0);
    mesh.add_triangle(t1);
    (mesh, t0, t1)
}

#[test]
fn a_new_mesh_is_empty() {
    let mesh = StlFile::new();
    assert_eq!(mesh.triangles(), vec![]);
    assert_eq!(mesh.vertices(), vec![]);
    assert_eq!(mesh.vertex_count(), 0);
    assert_eq!(mesh.facet_count(), 0);
    assert_eq!(mesh.len(), 0);
    assert!(mesh.vertex_buffer().is_empty());
    assert!(mesh.normals().is_empty());
    assert_eq!(mesh.longest_edge(), 0);
    assert_eq!(mesh.bounding_box(), BoundingBox::init());
}

#[test]
fn a_mesh_gives_back_what_was_added() {
    let (mesh, t0, t1) = sample();
    assert_eq!(mesh.triangles(), vec![t0, t1]);
    assert_eq!(mesh.len(), 2);
    assert_eq!(mesh.facet_count(), 2);
    assert_eq!(mesh.vertex_count(), 6);
    assert_eq!(mesh.normals(), &[t0.normal, t1.normal]);
    assert_eq!(mesh.vertices(), vec![t0.v0, t0.v1, t0.v2, t1.v0, t1.v1, t1.v2]);
    assert_eq!(mesh.vertex_buffer(), &[0, 0, 0, 3, 0, 0, 3, 4, 0, 3, 0, 0, 3, 4, 0, 9, 9, 9]);
}

#[test]
fn corners_carry_the_normal_of_their_facet() {
    let (mesh, t0, t1) = sample();
    let corners = mesh.vertex_and_normal_iterator();
    assert_eq!(corners.len(), 6);
    assert_eq!(corners[0], VertexWithNormal { vertex: t0.v0, normal: t0.normal });
    assert_eq!(corners[2], VertexWithNormal { vertex: t0.v2, normal: t0.normal });
    assert_eq!(corners[3], VertexWithNormal { vertex: t1.v0, normal: t1.normal });
    assert_eq!(corners[5], VertexWithNormal { vertex: t1.v2, normal: t1.normal });
    assert_eq!(
        mesh.vertices_and_normals(),
        vec![
            0, 0, 0, 100, 101, 102, 3, 0, 0, 100, 101, 102, 3, 4, 0, 100, 101, 102, 3, 0, 0, 200,
            201, 202, 3, 4, 0, 200, 201, 202, 9, 9, 9, 200, 201, 202,
        ]
    );
}

#[test]
fn bounding_box_and_longest_edge() {
    let (mesh, _, _) = sample();
    assert_eq!(
        mesh.bounding_box(),
        BoundingBox { min: Point::new(0, 0, 0), max: Point::new(9, 9, 9) }
    );
    // the sides of the second triangle: 4, sqrt(36 + 25 + 81) -> 12, sqrt(36 + 81 + 81) -> 15
    assert_eq!(mesh.longest_edge(), 15);
}

#[test]
fn index_buffer_tells_corners_apart_by_vertex_and_normal() {
    let (mesh, _, _) = sample();
    // the two triangles share two vertices, but not their normal
    let ib = mesh.index_buffer_vertex_only();
    assert_eq!(ib.indices(), &[0, 1, 2, 3, 4, 5]);
    assert_eq!(ib.vertices(), &[0, 0, 0, 3, 0, 0, 3, 4, 0, 3, 0, 0, 3, 4, 0, 9, 9, 9]);
}

#[test]
fn index_buffer_names_equal_corners_once() {
    let n = 7;
    let t0 = tri(n, (0, 0, 0), (3, 0, 0), (3, 4, 0));
    let t1 = tri(n, (3, 0, 0), (9, 9, 9), (3, 4, 0));
    let t2 = tri(n, (0, 0, 0), (0, 0, 0), (9, 9, 9));
    let mut mesh = StlFile::new();
    mesh.add_triangle(t0);
    mesh.add_triangle(t1);
    mesh.add_triangle(t2);

    let ib = mesh.index_buffer_vertex_only();
    assert_eq!(ib.indices(), &[0, 1, 2, 1, 3, 2, 0, 0, 3]);
    assert_eq!(ib.vertices(), &[0, 0, 0, 3, 0, 0, 3, 4, 0, 9, 9, 9]);

    let ib = mesh.index_buffer_vertex_and_normal();
    assert_eq!(ib.indices(), &[0, 1, 2, 1, 3, 2, 0, 0, 3]);
    assert_eq!(
        ib.vertices(),
        &[0, 0, 0, 7, 8, 9, 3, 0, 0, 7, 8, 9, 3, 4, 0, 7, 8, 9, 9, 9, 9, 7, 8, 9]
    );
}

#[test]
fn index_buffer_of_a_list_of_corners() {
    let c = |x: i64, n: i64| VertexWithNormal {
        vertex: Point::new(x, -x, 0),
        normal: Normal { i: n, j: 0, k: 0 },
    };
    let corners = vec![c(1, 1), c(1, 2), c(2, 1), c(1, 1), c(2, 2), c(2, 1), c(-1, 1), c(1, 2)];
    let ib = IndexBuffer::from_buffer(&corners, Layout::VertexAndNormal);
    assert_eq!(ib.indices(), &[0, 1, 2, 0, 3, 2, 4, 1]);
    assert_eq!(
        ib.vertices(),
        &[
            1, -1, 0, 1, 0, 0, 1, -1, 0, 2, 0, 0, 2, -2, 0, 1, 0, 0, 2, -2, 0, 2, 0, 0, -1, 1, 0,
            1, 0, 0,
        ]
    );
    let ib = IndexBuffer::from_buffer(&corners, Layout::VertexOnly);
    assert_eq!(ib.indices(), &[0, 1, 2, 0, 3, 2, 4, 1]);
    assert_eq!(ib.vertices(), &[1, -1, 0, 1, -1, 0, 2, -2, 0, 2, -2, 0, -1, 1, 0]);
    let ib = IndexBuffer::from_buffer(&Vec::new(), Layout::VertexOnly);
    assert!(ib.indices().is_empty());
    assert!(ib.vertices().is_empty());
}

#[test]
fn index_buffer_tells_large_coordinates_apart() {
    let c = |x: i64, n: i64| VertexWithNormal {
        vertex: Point::new(x, i64::MIN, i64::MAX),
        normal: Normal { i: n, j: i64::MAX, k: i64::MIN },
    };
    let corners = vec![c(i64::MAX, 0), c(i64::MIN, 0), c(i64::MAX, -1), c(i64::MAX, 0)];
    let ib = IndexBuffer::from_buffer(&corners, Layout::VertexOnly);
    assert_eq!(ib.indices(), &[0, 1, 2, 0]);
}

#[test]
fn corners_are_pushed_in_either_layout() {
    let c = VertexWithNormal { vertex: Point::new(1, 2, 3), normal: Normal { i: 4, j: 5, k: 6 } };
    let mut numbers = vec![0];
    push_vertex_only(c, &mut numbers);
    assert_eq!(numbers, vec![0, 1, 2, 3]);
    push_vertex_and_normal(c, &mut numbers);
    assert_eq!(numbers, vec![0, 1, 2, 3, 1, 2, 3, 4, 5, 6]);
}
