use crate::scalar::{
    abs, ceil_sqrt, difference, greater, half_up, lemma_root_exists, lemma_square_grows,
    magnitude, maximum, negation, product, quotient, ratio, root_up, saturate, sum,
};
use core::cmp::Ordering;
use vstd::prelude::*;

verus! {

/// A position, or a displacement, on the integer lattice. Arithmetic on
/// points is componentwise and saturates at the bounds of `i64`, which stand
/// for the two infinities.
#[derive(Debug, Clone, Copy, PartialEq, Eq, Structural, Hash)]
pub struct Point {
    pub x: i64,
    pub y: i64,
    pub z: i64,
}

/// The direction a facet faces, on the same lattice as its vertices.
#[derive(Debug, Clone, Copy, PartialEq, Eq, Structural, Hash)]
pub struct Normal {
    pub i: i64,
    pub j: i64,
    pub k: i64,
}

/// One facet of a mesh.
#[derive(Debug, Clone, Copy, PartialEq, Eq, Structural, Hash)]
pub struct Triangle {
    pub normal: Normal,
    pub v0: Point,
    pub v1: Point,
    pub v2: Point,
}

/// Where two triangles meet.
pub struct Intersection {}

/// One side of a triangle.
#[derive(Debug, Clone, Copy, PartialEq, Eq, Structural, Hash)]
pub struct LineSegment {
    pub start: Point,
    pub end: Point,
}

/// A vertex together with the normal of the facet it belongs to.
#[derive(Debug, Clone, Copy, PartialEq, Eq, Structural, Hash)]
pub struct VertexWithNormal {
    pub vertex: Point,
    pub normal: Normal,
}

/// The sum of the squares of the three coordinate differences of two points.
pub open spec fn squared_distance(p: Point, q: Point) -> int {
    (p.x - q.x) * (p.x - q.x) + (p.y - q.y) * (p.y - q.y) + (p.z - q.z) * (p.z - q.z)
}

/// The sign of one coordinate: zero counts as positive.
pub open spec fn sign_of(a: int) -> int {
    if a >= 0 {
        1
    } else {
        -1
    }
}

impl Normal {
    pub fn zero() -> (n: Normal)
        ensures
            n == (Normal { i: 0, j: 0, k: 0 }),
    {
        Normal { i: 0, j: 0, k: 0 }
    }

    /// The three components, by which normals are told apart.
    pub fn normalize(&self) -> (key: (i64, i64, i64))
        ensures
            key == (self.i, self.j, self.k),
    {
        (self.i, self.j, self.k)
    }
}

impl Point {
    pub open spec fn plus(self, rhs: Point) -> Point {
        Point {
            x: saturate(self.x + rhs.x) as i64,
            y: saturate(self.y + rhs.y) as i64,
            z: saturate(self.z + rhs.z) as i64,
        }
    }

    pub open spec fn minus(self, rhs: Point) -> Point {
        Point {
            x: saturate(self.x - rhs.x) as i64,
            y: saturate(self.y - rhs.y) as i64,
            z: saturate(self.z - rhs.z) as i64,
        }
    }

    pub open spec fn times(self, rhs: Point) -> Point {
        Point {
            x: saturate(self.x * rhs.x) as i64,
            y: saturate(self.y * rhs.y) as i64,
            z: saturate(self.z * rhs.z) as i64,
        }
    }

    pub open spec fn negated(self) -> Point {
        Point {
            x: saturate(-self.x) as i64,
            y: saturate(-self.y) as i64,
            z: saturate(-self.z) as i64,
        }
    }

    pub open spec fn divided(self, rhs: i64) -> Point {
        Point {
            x: saturate(quotient(self.x as int, rhs as int)) as i64,
            y: saturate(quotient(self.y as int, rhs as int)) as i64,
            z: saturate(quotient(self.z as int, rhs as int)) as i64,
        }
    }

    /// Half of each coordinate, rounded up.
    pub open spec fn halved(self) -> Point {
        Point {
            x: ((self.x + 1) / 2) as i64,
            y: ((self.y + 1) / 2) as i64,
            z: ((self.z + 1) / 2) as i64,
        }
    }

    pub open spec fn magnitudes(self) -> Point {
        Point {
            x: saturate(abs(self.x as int)) as i64,
            y: saturate(abs(self.y as int)) as i64,
            z: saturate(abs(self.z as int)) as i64,
        }
    }

    pub fn new(x: i64, y: i64, z: i64) -> (p: Point)
        ensures
            p == (Point { x, y, z }),
    {
        Point { x, y, z }
    }

    /// The three coordinates, by which points are told apart.
    pub fn normalize(&self) -> (key: (i64, i64, i64))
        ensures
            key == (self.x, self.y, self.z),
    {
        (self.x, self.y, self.z)
    }

    /// The length of the straight line to `other`, rounded up to a whole
    /// number of lattice steps.
    pub fn distance(&self, other: &Point) -> (d: i64)
        ensures
            d == saturate(root_up(squared_distance(*self, *other))),
    {
        let dx: i128 = self.x as i128 - other.x as i128;
        let dy: i128 = self.y as i128 - other.y as i128;
        let dz: i128 = self.z as i128 - other.z as i128;
        let ax: u128 = if dx >= 0 { dx as u128 } else { (-dx) as u128 };
        let ay: u128 = if dy >= 0 { dy as u128 } else { (-dy) as u128 };
        let az: u128 = if dz >= 0 { dz as u128 } else { (-dz) as u128 };
        let limit: u128 = 0x8000_0000_0000_0000;
        let ghost total = squared_distance(*self, *other);
        proof {
            assert(ax * ax == (self.x - other.x) * (self.x - other.x)) by (nonlinear_arith)
                requires
                    ax == self.x - other.x || ax == -(self.x - other.x),
            ;
            assert(ay * ay == (self.y - other.y) * (self.y - other.y)) by (nonlinear_arith)
                requires
                    ay == self.y - other.y || ay == -(self.y - other.y),
            ;
            assert(az * az == (self.z - other.z) * (self.z - other.z)) by (nonlinear_arith)
                requires
                    az == self.z - other.z || az == -(self.z - other.z),
            ;
            assert(ax * ax >= 0 && ay * ay >= 0 && az * az >= 0) by (nonlinear_arith);
            assert(limit * limit == 0x4000_0000_0000_0000_0000_0000_0000_0000int)
                by (nonlinear_arith)
                requires
                    limit == 0x8000_0000_0000_0000,
            ;
        }
        if ax >= limit || ay >= limit || az >= limit {
            proof {
                let r = root_up(total);
                let m: int = if ax >= limit {
                    ax as int
                } else if ay >= limit {
                    ay as int
                } else {
                    az as int
                };
                assert(total >= m * m);
                lemma_square_grows(limit as int, m);
                // A root below the limit would have too small a square.
                lemma_root_exists(total);
                if r < limit {
                    lemma_square_grows(r, limit - 1);
                    assert((limit - 1) * (limit - 1) < limit * limit) by (nonlinear_arith)
                        requires
                            limit == 0x8000_0000_0000_0000,
                    ;
                }
            }
            i64::MAX
        } else {
            proof {
                lemma_square_grows(ax as int, limit - 1);
                lemma_square_grows(ay as int, limit - 1);
                lemma_square_grows(az as int, limit - 1);
                assert((limit - 1) * (limit - 1) < limit * limit) by (nonlinear_arith)
                    requires
                        limit == 0x8000_0000_0000_0000,
                ;
            }
            let r: u128 = ceil_sqrt(ax * ax + ay * ay + az * az);
            if r > i64::MAX as u128 {
                i64::MAX
            } else {
                r as i64
            }
        }
    }

    /// Half of each coordinate, rounded up.
    pub fn half(self) -> (p: Point)
        ensures
            p == self.halved(),
    {
        Point { x: half_up(self.x), y: half_up(self.y), z: half_up(self.z) }
    }

    /// The point with the magnitude of each coordinate.
    pub fn abs(self) -> (p: Point)
        ensures
            p == self.magnitudes(),
    {
        Point { x: magnitude(self.x), y: magnitude(self.y), z: magnitude(self.z) }
    }

    /// The sign of each coordinate, `1` or `-1`; zero counts as positive.
    pub fn sign(&self) -> (s: (i64, i64, i64))
        ensures
            s.0 == sign_of(self.x as int),
            s.1 == sign_of(self.y as int),
            s.2 == sign_of(self.z as int),
    {
        (
            if self.x >= 0 { 1i64 } else { -1i64 },
            if self.y >= 0 { 1i64 } else { -1i64 },
            if self.z >= 0 { 1i64 } else { -1i64 },
        )
    }
}

impl LineSegment {
    /// The length of the segment, rounded up to a whole number of lattice
    /// steps.
    pub open spec fn extent(self) -> int {
        saturate(root_up(squared_distance(self.start, self.end)))
    }

    pub fn length(&self) -> (d: i64)
        ensures
            d == self.extent(),
    {
        self.start.distance(&self.end)
    }
}

impl Triangle {
    /// The three sides, each from one vertex to the next.
    pub open spec fn sides(self) -> Seq<LineSegment> {
        seq![
            LineSegment { start: self.v0, end: self.v1 },
            LineSegment { start: self.v1, end: self.v2 },
            LineSegment { start: self.v2, end: self.v0 },
        ]
    }

    /// The length of the longest side.
    pub open spec fn reach(self) -> int {
        greater(
            greater(self.sides()[0].extent(), self.sides()[1].extent()),
            self.sides()[2].extent(),
        )
    }

    pub fn edges(&self) -> (e: [LineSegment; 3])
        ensures
            e@ == self.sides(),
    {
        let e = [
            LineSegment { start: self.v0, end: self.v1 },
            LineSegment { start: self.v1, end: self.v2 },
            LineSegment { start: self.v2, end: self.v0 },
        ];
        assert(e@ =~= self.sides());
        e
    }

    pub fn longest_edge(&self) -> (d: i64)
        ensures
            d == self.reach(),
    {
        let e = self.edges();
        maximum(maximum(e[0].length(), e[1].length()), e[2].length())
    }
}

impl core::ops::Add for Point {
    type Output = Point;

    fn add(self, rhs: Point) -> (p: Point) {
        Point { x: sum(self.x, rhs.x), y: sum(self.y, rhs.y), z: sum(self.z, rhs.z) }
    }
}

impl vstd::std_specs::ops::AddSpecImpl for Point {
    open spec fn obeys_add_spec() -> bool {
        true
    }

    open spec fn add_req(self, rhs: Point) -> bool {
        true
    }

    open spec fn add_spec(self, rhs: Point) -> Point {
        self.plus(rhs)
    }
}

impl core::ops::Sub for Point {
    type Output = Point;

    fn sub(self, rhs: Point) -> (p: Point) {
        Point {
            x: difference(self.x, rhs.x),
            y: difference(self.y, rhs.y),
            z: difference(self.z, rhs.z),
        }
    }
}

impl vstd::std_specs::ops::SubSpecImpl for Point {
    open spec fn obeys_sub_spec() -> bool {
        true
    }

    open spec fn sub_req(self, rhs: Point) -> bool {
        true
    }

    open spec fn sub_spec(self, rhs: Point) -> Point {
        self.minus(rhs)
    }
}

impl core::ops::Mul for Point {
    type Output = Point;

    fn mul(self, rhs: Point) -> (p: Point) {
        Point {
            x: product(self.x, rhs.x),
            y: product(self.y, rhs.y),
            z: product(self.z, rhs.z),
        }
    }
}

impl vstd::std_specs::ops::MulSpecImpl for Point {
    open spec fn obeys_mul_spec() -> bool {
        true
    }

    open spec fn mul_req(self, rhs: Point) -> bool {
        true
    }

    open spec fn mul_spec(self, rhs: Point) -> Point {
        self.times(rhs)
    }
}

impl core::ops::Neg for Point {
    type Output = Point;

    fn neg(self) -> (p: Point) {
        Point { x: negation(self.x), y: negation(self.y), z: negation(self.z) }
    }
}

impl vstd::std_specs::ops::NegSpecImpl for Point {
    open spec fn obeys_neg_spec() -> bool {
        true
    }

    open spec fn neg_req(self) -> bool {
        true
    }

    open spec fn neg_spec(self) -> Point {
        self.negated()
    }
}

impl core::ops::Div<i64> for Point {
    type Output = Point;

    fn div(self, rhs: i64) -> (p: Point) {
        Point { x: ratio(self.x, rhs), y: ratio(self.y, rhs), z: ratio(self.z, rhs) }
    }
}

impl vstd::std_specs::ops::DivSpecImpl<i64> for Point {
    open spec fn obeys_div_spec() -> bool {
        true
    }

    open spec fn div_req(self, rhs: i64) -> bool {
        true
    }

    open spec fn div_spec(self, rhs: i64) -> Point {
        self.divided(rhs)
    }
}

/// How two points compare: as their coordinates do where all three agree,
/// and not at all where they do not.
pub open spec fn point_order(p: Point, q: Point) -> Option<Ordering> {
    if p.x < q.x && p.y < q.y && p.z < q.z {
        Some(Ordering::Less)
    } else if p.x == q.x && p.y == q.y && p.z == q.z {
        Some(Ordering::Equal)
    } else if p.x > q.x && p.y > q.y && p.z > q.z {
        Some(Ordering::Greater)
    } else {
        None
    }
}

impl PartialOrd for Point {
    fn partial_cmp(&self, other: &Point) -> (r: Option<Ordering>) {
        if self.x < other.x && self.y < other.y && self.z < other.z {
            Some(Ordering::Less)
        } else if self.x == other.x && self.y == other.y && self.z == other.z {
            Some(Ordering::Equal)
        } else if self.x > other.x && self.y > other.y && self.z > other.z {
            Some(Ordering::Greater)
        } else {
            None
        }
    }
}

impl vstd::std_specs::cmp::PartialOrdSpecImpl for Point {
    open spec fn obeys_partial_cmp_spec() -> bool {
        true
    }

    open spec fn partial_cmp_spec(&self, other: &Point) -> Option<Ordering> {
        point_order(*self, *other)
    }
}

/// Goes through a list of vertices and hands out each with the normal of
/// its facet: one normal serves three vertices.
#[derive(Debug)]
pub struct VertexWithNormalIterator<'a> {
    vertices: &'a [Point],
    cursor: usize,
    normals: &'a [Normal],
    normal_count: usize,
}

impl<'a> VertexWithNormalIterator<'a> {
    /// The vertices that are gone through.
    pub closed spec fn vertices(&self) -> Seq<Point> {
        self.vertices@
    }

    /// The normals that go with them.
    pub closed spec fn normals(&self) -> Seq<Normal> {
        self.normals@
    }

    /// How many vertices have been handed out.
    pub closed spec fn taken(&self) -> nat {
        self.cursor as nat
    }

    /// Whether the counters fit the place in the list.
    pub closed spec fn wf(&self) -> bool {
        &&& self.cursor <= self.vertices@.len()
        &&& self.normal_count == self.cursor / 3
    }

    pub fn new(vertices: &'a [Point], normals: &'a [Normal]) -> (it: Self)
        ensures
            it.wf(),
            it.vertices() == vertices@,
            it.normals() == normals@,
            it.taken() == 0,
    {
        Self { vertices, cursor: 0, normals, normal_count: 0 }
    }

    /// The next vertex with its normal, and nothing when the vertices are
    /// through.
    pub fn next(&mut self) -> (item: Option<VertexWithNormal>)
        requires
            old(self).wf(),
            old(self).taken() < old(self).vertices().len() ==> old(self).taken() / 3 < old(
                self,
            ).normals().len(),
        ensures
            final(self).wf(),
            final(self).vertices() == old(self).vertices(),
            final(self).normals() == old(self).normals(),
            match item {
                Some(v) => {
                    &&& old(self).taken() < old(self).vertices().len()
                    &&& final(self).taken() == old(self).taken() + 1
                    &&& v.vertex == old(self).vertices()[old(self).taken() as int]
                    &&& v.normal == old(self).normals()[old(self).taken() as int / 3]
                },
                None => {
                    &&& old(self).taken() == old(self).vertices().len()
                    &&& final(self).taken() == old(self).taken()
                },
            },
    {
        let len = self.vertices.len();
        if self.cursor >= len {
            return None;
        }
        let v = VertexWithNormal {
            vertex: self.vertices[self.cursor],
            normal: self.normals[self.normal_count],
        };
        self.cursor += 1;

        if self.cursor % 3 == 0 {
            self.normal_count += 1;
        }

        Some(v)
    }
}

/// Goes through a list of vertices and hands out the facets they make,
/// three vertices and one normal to a facet.
#[derive(Debug)]
pub struct TriangleIterator<'a> {
    vertices: &'a [Point],
    cursor: usize,
    normals: &'a [Normal],
    normal_cursor: usize,
}

impl<'a> TriangleIterator<'a> {
    /// The vertices that are gone through.
    pub closed spec fn vertices(&self) -> Seq<Point> {
        self.vertices@
    }

    /// The normals that go with them.
    pub closed spec fn normals(&self) -> Seq<Normal> {
        self.normals@
    }

    /// How many vertices have been passed.
    pub closed spec fn position(&self) -> nat {
        self.cursor as nat
    }

    /// How many facets have been handed out.
    pub closed spec fn taken(&self) -> nat {
        self.normal_cursor as nat
    }

    /// Whether the place in the list is within it.
    pub closed spec fn wf(&self) -> bool {
        self.cursor <= self.vertices@.len()
    }

    pub fn new(vertices: &'a [Point], normals: &'a [Normal]) -> (it: Self)
        ensures
            it.wf(),
            it.vertices() == vertices@,
            it.normals() == normals@,
            it.position() == 0,
            it.taken() == 0,
    {
        Self { vertices, cursor: 0, normals, normal_cursor: 0 }
    }

    /// The next facet, made of the next three vertices and the next normal.
    /// Where fewer than three vertices are left, they are passed over and
    /// nothing is handed out.
    pub fn next(&mut self) -> (item: Option<Triangle>)
        requires
            old(self).wf(),
            old(self).position() + 3 <= old(self).vertices().len() ==> old(self).taken() < old(
                self,
            ).normals().len(),
        ensures
            final(self).wf(),
            final(self).vertices() == old(self).vertices(),
            final(self).normals() == old(self).normals(),
            match item {
                Some(t) => {
                    let at = old(self).position() as int;
                    &&& at + 3 <= old(self).vertices().len()
                    &&& final(self).position() == at + 3
                    &&& final(self).taken() == old(self).taken() + 1
                    &&& t.normal == old(self).normals()[old(self).taken() as int]
                    &&& t.v0 == old(self).vertices()[at]
                    &&& t.v1 == old(self).vertices()[at + 1]
                    &&& t.v2 == old(self).vertices()[at + 2]
                },
                None => {
                    &&& old(self).position() + 3 > old(self).vertices().len()
                    &&& final(self).position() == old(self).vertices().len()
                    &&& final(self).taken() == old(self).taken()
                },
            },
    {
        let len = self.vertices.len();
        if len - self.cursor < 3 {
            self.cursor = len;
            return None;
        }
        let v0 = self.vertices[self.cursor];
        let v1 = self.vertices[self.cursor + 1];
        let v2 = self.vertices[self.cursor + 2];
        self.cursor += 3;

        let normal = self.normals[self.normal_cursor];

        self.normal_cursor += 1;

        Some(Triangle { normal, v0, v1, v2 })
    }
}

} // verus!
