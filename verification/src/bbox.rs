use crate::scalar::{abs, difference, greater, lesser, maximum, midpoint, minimum, saturate, sum};
use crate::vertex::{Point, Triangle};
use vstd::prelude::*;

verus! {

/// An axis-aligned box, closed on every face. A box whose `min` lies above
/// its `max` on some axis holds no point.
#[derive(Debug, Clone, Copy, PartialEq, Eq, Structural)]
pub struct BoundingBox {
    pub min: Point,
    pub max: Point,
}

impl BoundingBox {
    /// The box that holds no point, from which `add_point` grows a box.
    pub open spec fn empty() -> BoundingBox {
        BoundingBox {
            min: Point { x: i64::MAX, y: i64::MAX, z: i64::MAX },
            max: Point { x: i64::MIN, y: i64::MIN, z: i64::MIN },
        }
    }

    /// Whether `p` lies in the box, its faces included.
    pub open spec fn encloses(self, p: Point) -> bool {
        &&& self.min.x <= p.x <= self.max.x
        &&& self.min.y <= p.y <= self.max.y
        &&& self.min.z <= p.z <= self.max.z
    }

    /// Whether all three vertices of `t` lie in the box.
    pub open spec fn encloses_triangle(self, t: Triangle) -> bool {
        self.encloses(t.v0) && self.encloses(t.v1) && self.encloses(t.v2)
    }

    /// The smallest box that holds this box and `p`.
    pub open spec fn with_point(self, p: Point) -> BoundingBox {
        BoundingBox {
            min: Point {
                x: lesser(self.min.x as int, p.x as int) as i64,
                y: lesser(self.min.y as int, p.y as int) as i64,
                z: lesser(self.min.z as int, p.z as int) as i64,
            },
            max: Point {
                x: greater(self.max.x as int, p.x as int) as i64,
                y: greater(self.max.y as int, p.y as int) as i64,
                z: greater(self.max.z as int, p.z as int) as i64,
            },
        }
    }

    /// The smallest box that holds both boxes.
    pub open spec fn joined(self, other: BoundingBox) -> BoundingBox {
        BoundingBox {
            min: Point {
                x: lesser(self.min.x as int, other.min.x as int) as i64,
                y: lesser(self.min.y as int, other.min.y as int) as i64,
                z: lesser(self.min.z as int, other.min.z as int) as i64,
            },
            max: Point {
                x: greater(self.max.x as int, other.max.x as int) as i64,
                y: greater(self.max.y as int, other.max.y as int) as i64,
                z: greater(self.max.z as int, other.max.z as int) as i64,
            },
        }
    }

    /// The box of the points that lie in both boxes.
    pub open spec fn overlap(self, other: BoundingBox) -> BoundingBox {
        BoundingBox {
            min: Point {
                x: greater(self.min.x as int, other.min.x as int) as i64,
                y: greater(self.min.y as int, other.min.y as int) as i64,
                z: greater(self.min.z as int, other.min.z as int) as i64,
            },
            max: Point {
                x: lesser(self.max.x as int, other.max.x as int) as i64,
                y: lesser(self.max.y as int, other.max.y as int) as i64,
                z: lesser(self.max.z as int, other.max.z as int) as i64,
            },
        }
    }

    /// The box with every face moved outward by `len`.
    pub open spec fn padded(self, len: i64) -> BoundingBox {
        BoundingBox {
            min: Point {
                x: saturate(self.min.x - len) as i64,
                y: saturate(self.min.y - len) as i64,
                z: saturate(self.min.z - len) as i64,
            },
            max: Point {
                x: saturate(self.max.x + len) as i64,
                y: saturate(self.max.y + len) as i64,
                z: saturate(self.max.z + len) as i64,
            },
        }
    }

    /// The point halfway between `min` and `max`, each coordinate rounded
    /// down.
    pub open spec fn middle(self) -> Point {
        Point {
            x: ((self.min.x + self.max.x) / 2) as i64,
            y: ((self.min.y + self.max.y) / 2) as i64,
            z: ((self.min.z + self.max.z) / 2) as i64,
        }
    }

    /// The extent along each axis, `max - min`.
    pub open spec fn span(self) -> Point {
        self.max.minus(self.min)
    }

    pub fn init() -> (b: BoundingBox)
        ensures
            b == BoundingBox::empty(),
    {
        BoundingBox {
            min: Point { x: i64::MAX, y: i64::MAX, z: i64::MAX },
            max: Point { x: i64::MIN, y: i64::MIN, z: i64::MIN },
        }
    }

    pub fn add_point(&mut self, vertex: Point)
        ensures
            *final(self) == old(self).with_point(vertex),
    {
        self.min.x = minimum(self.min.x, vertex.x);
        self.min.y = minimum(self.min.y, vertex.y);
        self.min.z = minimum(self.min.z, vertex.z);

        self.max.x = maximum(self.max.x, vertex.x);
        self.max.y = maximum(self.max.y, vertex.y);
        self.max.z = maximum(self.max.z, vertex.z);
    }

    pub fn center(&self) -> (c: Point)
        ensures
            c == self.middle(),
    {
        Point {
            x: midpoint(self.min.x, self.max.x),
            y: midpoint(self.min.y, self.max.y),
            z: midpoint(self.min.z, self.max.z),
        }
    }

    pub fn delta(&self) -> (d: Point)
        ensures
            d == self.span(),
    {
        Point {
            x: difference(self.max.x, self.min.x),
            y: difference(self.max.y, self.min.y),
            z: difference(self.max.z, self.min.z),
        }
    }

    /// The magnitude of the whole extent along each axis.
    pub fn radius(&self) -> (r: Point)
        ensures
            r == self.span().magnitudes(),
    {
        self.delta().abs()
    }

    pub fn contains_point(&self, p: Point) -> (inside: bool)
        ensures
            inside == self.encloses(p),
    {
        self.max.x >= p.x && p.x >= self.min.x && self.max.y >= p.y && p.y >= self.min.y
            && self.max.z >= p.z && p.z >= self.min.z
    }

    /// Whether the box contains the whole triangle.
    pub fn contains_triangle(&self, triangle: Triangle) -> (inside: bool)
        ensures
            inside == self.encloses_triangle(triangle),
    {
        self.contains_point(triangle.v0) && self.contains_point(triangle.v1)
            && self.contains_point(triangle.v2)
    }

    /// The volume that either box takes up.
    pub fn union(&self, other: &BoundingBox) -> (b: BoundingBox)
        ensures
            b == self.joined(*other),
    {
        BoundingBox {
            max: Point {
                x: maximum(self.max.x, other.max.x),
                y: maximum(self.max.y, other.max.y),
                z: maximum(self.max.z, other.max.z),
            },
            min: Point {
                x: minimum(self.min.x, other.min.x),
                y: minimum(self.min.y, other.min.y),
                z: minimum(self.min.z, other.min.z),
            },
        }
    }

    /// The volume that both boxes take up.
    pub fn intersection(&self, other: &BoundingBox) -> (b: BoundingBox)
        ensures
            b == self.overlap(*other),
    {
        BoundingBox {
            max: Point {
                x: minimum(self.max.x, other.max.x),
                y: minimum(self.max.y, other.max.y),
                z: minimum(self.max.z, other.max.z),
            },
            min: Point {
                x: maximum(self.min.x, other.min.x),
                y: maximum(self.min.y, other.min.y),
                z: maximum(self.min.z, other.min.z),
            },
        }
    }

    /// Moves every face of the box outward by `len`.
    pub fn extend(&mut self, len: i64)
        ensures
            *final(self) == old(self).padded(len),
    {
        self.max.x = sum(self.max.x, len);
        self.max.y = sum(self.max.y, len);
        self.max.z = sum(self.max.z, len);

        self.min.x = difference(self.min.x, len);
        self.min.y = difference(self.min.y, len);
        self.min.z = difference(self.min.z, len);
    }
}

/// The box that holds no point holds no point.
pub proof fn lemma_empty_box_holds_nothing(p: Point)
    ensures
        !BoundingBox::empty().encloses(p),
{
}

/// A box grown by a point holds that point, and every point it held before.
pub proof fn lemma_added_point_is_inside(b: BoundingBox, added: Point, p: Point)
    ensures
        b.with_point(added).encloses(added),
        b.encloses(p) ==> b.with_point(added).encloses(p),
{
}

/// A point that lies in either of two boxes lies in their union.
pub proof fn lemma_union_holds_both(a: BoundingBox, b: BoundingBox, p: Point)
    requires
        a.encloses(p) || b.encloses(p),
    ensures
        a.joined(b).encloses(p),
{
}

/// A point lies in the intersection of two boxes exactly when it lies in
/// both.
pub proof fn lemma_overlap_is_both(a: BoundingBox, b: BoundingBox, p: Point)
    ensures
        a.overlap(b).encloses(p) <==> a.encloses(p) && b.encloses(p),
{
}

/// A box extended by a length that is not negative holds every point it
/// held before.
pub proof fn lemma_extend_never_shrinks(a: BoundingBox, len: i64, p: Point)
    requires
        len >= 0,
        a.encloses(p),
    ensures
        a.padded(len).encloses(p),
{
}

} // verus!
