use stl::quantize::quantize;
use stl::{BoundingBox, Normal, Point, Triangle};

fn grid(x: f32) -> i64 {
    quantize(x.to_bits())
}

fn point(x: f32, y: f32, z: f32) -> Point {
    Point::new(grid(x), grid(y), grid(z))
}

fn boxed(min: (i64, i64, i64), max: (i64, i64, i64)) -> BoundingBox {
    BoundingBox { min: Point::new(min.0, min.1, min.2), max: Point::new(max.0, max.1, max.2) }
}

#[test]
fn bounding_box_contains_point() {
    let mut bbox = BoundingBox::init();

    bbox.add_point(point(0.0, 0.0, 0.0));
    bbox.add_point(point(1.0, 1.0, 1.0));

    assert!(bbox.contains_point(point(0.5, 0.5, 0.5)));
    assert!(bbox.contains_point(point(0.75, 0.75, 0.75)));
    assert!(bbox.contains_point(point(0.001, 0.001, 0.001)));

    assert!(!bbox.contains_point(point(1.5, 0.5, 0.5)));
    assert!(!bbox.contains_point(point(0.75, 1.75, 0.75)));
    assert!(!bbox.contains_point(point(0.001, 5.001, 0.001)));
}

#[test]
fn init_is_the_inverted_box() {
    let b = BoundingBox::init();
    assert_eq!(b.min, Point::new(i64::MAX, i64::MAX, i64::MAX));
    assert_eq!(b.max, Point::new(i64::MIN, i64::MIN, i64::MIN));
    assert!(!b.contains_point(Point::new(0, 0, 0)));
    assert!(!b.contains_point(Point::new(i64::MAX, i64::MAX, i64::MAX)));
}

#[test]
fn add_point_grows_to_the_smallest_box() {
    let mut b = BoundingBox::init();
    b.add_point(Point::new(3, -7, 10));
    assert_eq!(b, boxed((3, -7, 10), (3, -7, 10)));
    b.add_point(Point::new(-1, 4, 10));
    assert_eq!(b, boxed((-1, -7, 10), (3, 4, 10)));
    b.add_point(Point::new(0, 0, 0));
    assert_eq!(b, boxed((-1, -7, 0), (3, 4, 10)));
}

#[test]
fn contains_point_is_closed_on_both_bounds() {
    let b = boxed((0, 0, 0), (10, 20, 30));
    assert!(b.contains_point(Point::new(0, 0, 0)));
    assert!(b.contains_point(Point::new(10, 20, 30)));
    assert!(b.contains_point(Point::new(10, 0, 30)));
    assert!(!b.contains_point(Point::new(11, 20, 30)));
    assert!(!b.contains_point(Point::new(10, 21, 30)));
    assert!(!b.contains_point(Point::new(10, 20, 31)));
    assert!(!b.contains_point(Point::new(-1, 0, 0)));
    assert!(!b.contains_point(Point::new(0, -1, 0)));
    assert!(!b.contains_point(Point::new(0, 0, -1)));
}

#[test]
fn contains_triangle_needs_all_three_vertices() {
    let b = boxed((0, 0, 0), (10, 10, 10));
    let inside = Point::new(5, 5, 5);
    let outside = Point::new(11, 5, 5);
    let n = Normal::zero();
    assert!(b.contains_triangle(Triangle { normal: n, v0: inside, v1: inside, v2: inside }));
    assert!(!b.contains_triangle(Triangle { normal: n, v0: outside, v1: inside, v2: inside }));
    assert!(!b.contains_triangle(Triangle { normal: n, v0: inside, v1: outside, v2: inside }));
    assert!(!b.contains_triangle(Triangle { normal: n, v0: inside, v1: inside, v2: outside }));
}

#[test]
fn center_delta_radius_have_exact_values() {
    let b = boxed((0, -10, 3), (10, 10, 8));
    assert_eq!(b.center(), Point::new(5, 0, 5));
    assert_eq!(b.delta(), Point::new(10, 20, 5));
    assert_eq!(b.radius(), Point::new(10, 20, 5));
    // the midpoint is rounded down
    let c = boxed((-3, -3, 0), (0, 2, 1));
    assert_eq!(c.center(), Point::new(-2, -1, 0));
    // an inverted box has a negative extent, and its magnitude for a radius
    let d = boxed((5, 5, 5), (1, 2, 3));
    assert_eq!(d.delta(), Point::new(-4, -3, -2));
    assert_eq!(d.radius(), Point::new(4, 3, 2));
}

#[test]
fn delta_of_the_inverted_box_saturates() {
    let b = BoundingBox::init();
    assert_eq!(b.delta(), Point::new(i64::MIN, i64::MIN, i64::MIN));
    assert_eq!(b.radius(), Point::new(i64::MAX, i64::MAX, i64::MAX));
    assert_eq!(b.center(), Point::new(-1, -1, -1));
}

#[test]
fn union_takes_the_outer_bounds() {
    let a = boxed((0, 0, 0), (5, 5, 5));
    let b = boxed((3, -2, 4), (9, 1, 6));
    assert_eq!(a.union(&b), boxed((0, -2, 0), (9, 5, 6)));
    assert_eq!(b.union(&a), boxed((0, -2, 0), (9, 5, 6)));
}

#[test]
fn union_holds_what_either_box_holds() {
    let a = boxed((0, 0, 0), (5, 5, 5));
    let b = boxed((20, 20, 20), (30, 30, 30));
    let u = a.union(&b);
    let in_a = Point::new(1, 2, 3);
    let in_b = Point::new(25, 20, 30);
    assert!(a.contains_point(in_a) && !b.contains_point(in_a));
    assert!(b.contains_point(in_b) && !a.contains_point(in_b));
    assert!(u.contains_point(in_a));
    assert!(u.contains_point(in_b));
}

#[test]
fn intersection_takes_the_inner_bounds() {
    let a = boxed((0, 0, 0), (5, 5, 5));
    let b = boxed((3, -2, 4), (9, 1, 6));
    assert_eq!(a.intersection(&b), boxed((3, 0, 4), (5, 1, 5)));
    assert!(a.intersection(&b).contains_point(Point::new(4, 1, 5)));
    assert!(!a.intersection(&b).contains_point(Point::new(2, 1, 5)));
}

#[test]
fn intersection_of_boxes_apart_is_inverted() {
    let a = boxed((0, 0, 0), (1, 1, 1));
    let b = boxed((5, 5, 5), (6, 6, 6));
    let i = a.intersection(&b);
    assert_eq!(i, boxed((5, 5, 5), (1, 1, 1)));
    assert!(!i.contains_point(Point::new(1, 1, 1)));
    assert!(!i.contains_point(Point::new(5, 5, 5)));
    assert!(!i.contains_point(Point::new(3, 3, 3)));
}

#[test]
fn extend_moves_every_face_outward() {
    let mut b = boxed((0, 0, 0), (5, 6, 7));
    b.extend(3);
    assert_eq!(b, boxed((-3, -3, -3), (8, 9, 10)));
}

#[test]
fn extend_never_shrinks() {
    let a = boxed((-4, 0, 2), (5, 6, 7));
    let held = [Point::new(-4, 0, 2), Point::new(5, 6, 7), Point::new(0, 3, 5)];
    for len in [0i64, 1, 1000, i64::MAX] {
        let mut b = a;
        b.extend(len);
        for p in held {
            assert!(a.contains_point(p));
            assert!(b.contains_point(p));
        }
    }
}

#[test]
fn extend_saturates_at_the_bounds() {
    let mut b = boxed((i64::MIN + 1, 0, 0), (i64::MAX - 1, 0, 0));
    b.extend(5);
    assert_eq!(b, boxed((i64::MIN, -5, -5), (i64::MAX, 5, 5)));
}

#[test]
fn extend_by_a_negative_length_moves_faces_inward() {
    let mut b = boxed((0, 0, 0), (10, 10, 10));
    b.extend(-2);
    assert_eq!(b, boxed((2, 2, 2), (8, 8, 8)));
}
