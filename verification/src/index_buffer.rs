use crate::point_index::{lemma_index_of, lemma_with_point_keeps, with_point, PointIndex};
use crate::vertex::{Normal, Point, VertexWithNormal};
use vstd::prelude::*;

verus! {

/// What an index buffer holds of each distinct corner.
#[derive(Debug, Clone, Copy, PartialEq, Eq, Structural)]
pub enum Layout {
    /// The three coordinates of the vertex.
    VertexOnly,
    /// The three coordinates of the vertex, then the three components of
    /// the normal.
    VertexAndNormal,
}

/// The distinct corners of a mesh, and for each corner of each facet the
/// position of its like among them.
#[derive(Debug, Clone)]
pub struct IndexBuffer {
    vertices: Vec<i64>,
    indices: Vec<u32>,
}

/// The corners with `c` among them: unchanged where `c` occurs already,
/// else with `c` at the end.
pub open spec fn with_corner(seen: Seq<VertexWithNormal>, c: VertexWithNormal) -> Seq<
    VertexWithNormal,
> {
    if seen.contains(c) {
        seen
    } else {
        seen.push(c)
    }
}

/// The distinct corners among the first `n`, in the order in which they
/// first occur.
pub open spec fn distinct_corners(corners: Seq<VertexWithNormal>, n: nat) -> Seq<VertexWithNormal>
    decreases n,
{
    if n == 0 {
        Seq::empty()
    } else {
        with_corner(distinct_corners(corners, (n - 1) as nat), corners[n - 1])
    }
}

/// The numbers of one corner in a layout.
pub open spec fn corner_numbers(c: VertexWithNormal, layout: Layout) -> Seq<i64> {
    match layout {
        Layout::VertexOnly => seq![c.vertex.x, c.vertex.y, c.vertex.z],
        Layout::VertexAndNormal => seq![
            c.vertex.x,
            c.vertex.y,
            c.vertex.z,
            c.normal.i,
            c.normal.j,
            c.normal.k,
        ],
    }
}

/// The numbers of the first `n` of some corners in a layout, one corner
/// after the other.
pub open spec fn laid_out(corners: Seq<VertexWithNormal>, n: nat, layout: Layout) -> Seq<i64>
    decreases n,
{
    if n == 0 {
        Seq::empty()
    } else {
        laid_out(corners, (n - 1) as nat, layout) + corner_numbers(corners[n - 1], layout)
    }
}

/// The distinct corners have no repetition, hold each of the corners they
/// were drawn from, and only grow.
pub proof fn lemma_distinct_corners(corners: Seq<VertexWithNormal>, n: nat, i: int)
    requires
        0 <= i < n <= corners.len(),
    ensures
        distinct_corners(corners, n).no_duplicates(),
        distinct_corners(corners, n).contains(corners[i]),
        distinct_corners(corners, n).index_of(corners[i]) == distinct_corners(
            corners,
            (i + 1) as nat,
        ).index_of(corners[i]),
    decreases n,
{
    let before = distinct_corners(corners, (n - 1) as nat);
    let after = distinct_corners(corners, n);
    if n > 1 {
        lemma_distinct_corners(corners, (n - 1) as nat, if i < n - 1 {
            i
        } else {
            0
        });
    }
    assert(after.no_duplicates());
    if i < n - 1 {
        let at = before.index_of(corners[i]);
        assert(after[at] == corners[i]);
        lemma_index_of(after, at);
    } else if before.contains(corners[i]) {
    } else {
        assert(after[before.len() as int] == corners[i]);
    }
}

/// Laying out one more corner appends its numbers.
pub proof fn lemma_laid_out_push(seen: Seq<VertexWithNormal>, c: VertexWithNormal, layout: Layout)
    ensures
        laid_out(seen.push(c), seen.len() + 1, layout) == laid_out(seen, seen.len(), layout)
            + corner_numbers(c, layout),
{
    lemma_laid_out_prefix(seen, seen.push(c), seen.len(), layout);
}

/// The layout of the first corners does not depend on those that follow.
pub proof fn lemma_laid_out_prefix(
    seen: Seq<VertexWithNormal>,
    more: Seq<VertexWithNormal>,
    n: nat,
    layout: Layout,
)
    requires
        n <= seen.len() <= more.len(),
        forall|i: int| 0 <= i < seen.len() ==> seen[i] == more[i],
    ensures
        laid_out(more, n, layout) == laid_out(seen, n, layout),
    decreases n,
{
    if n > 0 {
        lemma_laid_out_prefix(seen, more, (n - 1) as nat, layout);
    }
}

/// A normal as a point, to be registered like one.
pub open spec fn as_point(n: Normal) -> Point {
    Point { x: n.i, y: n.j, z: n.k }
}

/// The two numbers of a corner, that of its vertex and that of its normal,
/// as one point: no two pairs give the same.
pub open spec fn paired(vertex_id: usize, normal_id: usize) -> Point {
    Point {
        x: (vertex_id as u64 % 0x8000_0000_0000_0000) as i64,
        y: (normal_id as u64 % 0x8000_0000_0000_0000) as i64,
        z: ((vertex_id as u64 / 0x8000_0000_0000_0000) * 2 + normal_id as u64
            / 0x8000_0000_0000_0000) as i64,
    }
}

fn pair(vertex_id: usize, normal_id: usize) -> (p: Point)
    ensures
        p == paired(vertex_id, normal_id),
{
    let v = vertex_id as u64;
    let n = normal_id as u64;
    Point {
        x: (v % 0x8000_0000_0000_0000) as i64,
        y: (n % 0x8000_0000_0000_0000) as i64,
        z: ((v / 0x8000_0000_0000_0000) * 2 + n / 0x8000_0000_0000_0000) as i64,
    }
}

/// A register of distinct corners: of vertices, of normals, and of the
/// pairs of their numbers.
struct CornerIndex {
    points: PointIndex,
    normals: PointIndex,
    pairs: PointIndex,
    order: Ghost<Seq<VertexWithNormal>>,
}

impl CornerIndex {
    spec fn wf(&self) -> bool {
        &&& self.points.wf()
        &&& self.normals.wf()
        &&& self.pairs.wf()
        &&& self.order@.len() == self.pairs@.len()
        &&& self.points@.len() <= self.order@.len()
        &&& self.normals@.len() <= self.order@.len()
        &&& self.order@.no_duplicates()
        &&& forall|g: int|
            0 <= g < self.order@.len() ==> {
                let c = #[trigger] self.order@[g];
                &&& self.points@.contains(c.vertex)
                &&& self.normals@.contains(as_point(c.normal))
                &&& self.pairs@[g] == paired(
                    self.points@.index_of(c.vertex) as usize,
                    self.normals@.index_of(as_point(c.normal)) as usize,
                )
            }
    }

    fn new() -> (index: CornerIndex)
        ensures
            index.wf(),
            index.order@ == Seq::<VertexWithNormal>::empty(),
    {
        CornerIndex {
            points: PointIndex::new(),
            normals: PointIndex::new(),
            pairs: PointIndex::new(),
            order: Ghost(Seq::empty()),
        }
    }

    /// The number of `c`, and whether it is new.
    fn intern(&mut self, c: VertexWithNormal) -> (r: (usize, bool))
        requires
            old(self).wf(),
            old(self).order@.len() < usize::MAX,
        ensures
            final(self).wf(),
            final(self).order@ == with_corner(old(self).order@, c),
            r.0 < final(self).order@.len(),
            final(self).order@[r.0 as int] == c,
            r.1 == !old(self).order@.contains(c),
    {
        let ghost order = self.order@;
        let ghost points0 = self.points@;
        let ghost normals0 = self.normals@;
        proof {
            self.points.lemma_distinct();
            self.normals.lemma_distinct();
            self.pairs.lemma_distinct();
        }
        let known = self.pairs.len();
        let vertex_id = self.points.intern(c.vertex);
        let normal_id = self.normals.intern(Point { x: c.normal.i, y: c.normal.j, z: c.normal.k });
        let key = pair(vertex_id, normal_id);
        let id = self.pairs.intern(key);
        let fresh = self.pairs.len() > known;
        proof {
            self.points.lemma_distinct();
            self.normals.lemma_distinct();
            lemma_index_of(self.points@, vertex_id as int);
            lemma_index_of(self.normals@, normal_id as int);
            assert forall|g: int| 0 <= g < order.len() implies {
                let d = #[trigger] order[g];
                &&& self.points@.contains(d.vertex)
                &&& self.normals@.contains(as_point(d.normal))
                &&& self.points@.index_of(d.vertex) == points0.index_of(d.vertex)
                &&& self.normals@.index_of(as_point(d.normal)) == normals0.index_of(
                    as_point(d.normal),
                )
            } by {
                let d = order[g];
                lemma_with_point_keeps(points0, c.vertex, d.vertex);
                lemma_with_point_keeps(normals0, as_point(c.normal), as_point(d.normal));
            }
            if fresh {
                assert(!order.contains(c)) by {
                    if order.contains(c) {
                        let g = choose|g: int| 0 <= g < order.len() && order[g] == c;
                        assert(order[g].vertex == c.vertex);
                        assert(old(self).pairs@[g] == key);
                        assert(old(self).pairs@.contains(key));
                    }
                }
            } else {
                let d = order[id as int];
                let dv = points0.index_of(d.vertex);
                let dn = normals0.index_of(as_point(d.normal));
                assert(paired(dv as usize, dn as usize) == key);
                assert(dv == vertex_id && dn == normal_id);
                assert(d == c);
            }
        }
        if fresh {
            self.order = Ghost(order.push(c));
        }
        (id, fresh)
    }
}

/// The numbers of the vertex of a corner, at the end of `vertices`.
pub fn push_vertex_only(v: VertexWithNormal, vertices: &mut Vec<i64>)
    ensures
        final(vertices)@ == old(vertices)@ + corner_numbers(v, Layout::VertexOnly),
{
    vertices.push(v.vertex.x);
    vertices.push(v.vertex.y);
    vertices.push(v.vertex.z);
    assert(vertices@ =~= old(vertices)@ + corner_numbers(v, Layout::VertexOnly));
}

/// The numbers of the vertex and of the normal of a corner, at the end of
/// `vertices`.
pub fn push_vertex_and_normal(v: VertexWithNormal, vertices: &mut Vec<i64>)
    ensures
        final(vertices)@ == old(vertices)@ + corner_numbers(v, Layout::VertexAndNormal),
{
    vertices.push(v.vertex.x);
    vertices.push(v.vertex.y);
    vertices.push(v.vertex.z);

    vertices.push(v.normal.i);
    vertices.push(v.normal.j);
    vertices.push(v.normal.k);
    assert(vertices@ =~= old(vertices)@ + corner_numbers(v, Layout::VertexAndNormal));
}

impl IndexBuffer {
    /// The numbers of the distinct corners, one corner after the other.
    pub closed spec fn numbers(&self) -> Seq<i64> {
        self.vertices@
    }

    /// For each corner the position of its like among the distinct
    /// corners, as far as it fits: the low 32 bits.
    pub closed spec fn positions(&self) -> Seq<u32> {
        self.indices@
    }

    /// The index buffer of a list of corners: the distinct corners in the
    /// order in which they first occur, laid out as `layout` says, and for
    /// each corner the position of its like among them.
    pub fn from_buffer(buffer: &Vec<VertexWithNormal>, layout: Layout) -> (ib: IndexBuffer)
        ensures
            ib.numbers() == laid_out(
                distinct_corners(buffer@, buffer@.len()),
                distinct_corners(buffer@, buffer@.len()).len(),
                layout,
            ),
            ib.positions().len() == buffer@.len(),
            forall|i: int|
                0 <= i < buffer@.len() ==> #[trigger] ib.positions()[i] == distinct_corners(
                    buffer@,
                    buffer@.len(),
                ).index_of(buffer@[i]) as u32,
    {
        let mut distinct_vertices = CornerIndex::new();
        let mut vertices: Vec<i64> = Vec::new();

        let mut indices: Vec<u32> = Vec::new();

        let n = buffer.len();
        let mut i: usize = 0;
        while i < n
            invariant
                i <= n,
                n == buffer@.len(),
                distinct_vertices.wf(),
                distinct_vertices.order@ == distinct_corners(buffer@, i as nat),
                distinct_vertices.order@.len() <= i,
                vertices@ == laid_out(
                    distinct_vertices.order@,
                    distinct_vertices.order@.len(),
                    layout,
                ),
                indices@.len() == i,
                forall|j: int|
                    0 <= j < i ==> #[trigger] indices@[j] == distinct_corners(
                        buffer@,
                        (j + 1) as nat,
                    ).index_of(buffer@[j]) as u32,
            decreases n - i,
        {
            let vertex_with_normal = buffer[i];
            let ghost seen = distinct_vertices.order@;
            let (id, fresh) = distinct_vertices.intern(vertex_with_normal);
            proof {
                lemma_distinct_corners(buffer@, (i + 1) as nat, i as int);
                lemma_index_of(distinct_vertices.order@, id as int);
            }
            let position: u32 = #[verifier::truncate]
            (id as u32);
            indices.push(position);
            if fresh {
                proof {
                    lemma_laid_out_push(seen, vertex_with_normal, layout);
                }
                match layout {
                    Layout::VertexOnly => push_vertex_only(vertex_with_normal, &mut vertices),
                    Layout::VertexAndNormal => push_vertex_and_normal(
                        vertex_with_normal,
                        &mut vertices,
                    ),
                }
            }
            i += 1;
        }
        proof {
            assert forall|j: int| 0 <= j < buffer@.len() implies #[trigger] indices@[j]
                == distinct_corners(buffer@, buffer@.len()).index_of(buffer@[j]) as u32 by {
                lemma_distinct_corners(buffer@, buffer@.len(), j);
            }
        }

        IndexBuffer { vertices, indices }
    }

    pub fn vertices(&self) -> (v: &[i64])
        ensures
            v@ == self.numbers(),
    {
        self.vertices.as_slice()
    }

    pub fn indices(&self) -> (v: &[u32])
        ensures
            v@ == self.positions(),
    {
        self.indices.as_slice()
    }
}

} // verus!
