use crate::ascii::{after_spaces, has_word, is_space, layout_of, AsciiLayout, AsciiParser};
use crate::bbox::BoundingBox;
use crate::binary::{
    binary_facets, encode, facet_from_words, facet_of, facet_to_words, well_framed, word_lists,
    words_of, written, BinaryParser,
};
use crate::error::{StlError, StlResult};
use crate::index_buffer::{distinct_corners, laid_out, IndexBuffer, Layout};
use crate::scalar::{greater, maximum};
use crate::union_find::{islands, UnionFind};
use crate::vertex::{
    Normal, Point, Triangle, TriangleIterator, VertexWithNormal, VertexWithNormalIterator,
};
use vstd::prelude::*;
use vstd::slice::slice_subrange;

verus! {

/// A mesh: a list of facets, kept as one list of normals and one flat list
/// of coordinates, nine to a facet.
#[derive(Debug, Clone, PartialEq)]
pub struct StlFile {
    normals: Vec<Normal>,
    vertices: Vec<i64>,
}

/// The facet that starts at position `9 * i` of a flat list of coordinates.
pub open spec fn facet_at(normals: Seq<Normal>, vertices: Seq<i64>, i: int) -> Triangle {
    Triangle {
        normal: normals[i],
        v0: Point { x: vertices[9 * i], y: vertices[9 * i + 1], z: vertices[9 * i + 2] },
        v1: Point { x: vertices[9 * i + 3], y: vertices[9 * i + 4], z: vertices[9 * i + 5] },
        v2: Point { x: vertices[9 * i + 6], y: vertices[9 * i + 7], z: vertices[9 * i + 8] },
    }
}

/// The `j`-th vertex of a list of facets, three to a facet.
pub open spec fn vertex_of(facets: Seq<Triangle>, j: int) -> Point {
    let t = facets[j / 3];
    if j % 3 == 0 {
        t.v0
    } else if j % 3 == 1 {
        t.v1
    } else {
        t.v2
    }
}

/// The vertices of a list of facets, in order.
pub open spec fn points_of(facets: Seq<Triangle>) -> Seq<Point> {
    Seq::new(3 * facets.len(), |j: int| vertex_of(facets, j))
}

/// The normals of a list of facets, in order.
pub open spec fn normals_of(facets: Seq<Triangle>) -> Seq<Normal> {
    Seq::new(facets.len(), |i: int| facets[i].normal)
}

/// The coordinates of a list of facets, in order: `x`, `y`, `z` of each
/// vertex.
pub open spec fn coordinates_of(facets: Seq<Triangle>) -> Seq<i64> {
    Seq::new(
        9 * facets.len(),
        |j: int|
            {
                let p = vertex_of(facets, j / 3);
                if j % 3 == 0 {
                    p.x
                } else if j % 3 == 1 {
                    p.y
                } else {
                    p.z
                }
            },
    )
}

/// Each vertex of a list of facets with the normal of its facet.
pub open spec fn corners_of(facets: Seq<Triangle>) -> Seq<VertexWithNormal> {
    Seq::new(
        3 * facets.len(),
        |j: int| VertexWithNormal { vertex: vertex_of(facets, j), normal: facets[j / 3].normal },
    )
}

/// The smallest box that holds the first `n` of the given points.
pub open spec fn hull(points: Seq<Point>, n: nat) -> BoundingBox
    decreases n,
{
    if n == 0 {
        BoundingBox::empty()
    } else {
        hull(points, (n - 1) as nat).with_point(points[n - 1])
    }
}

/// The smallest box that holds some points holds each of them.
pub proof fn lemma_hull_encloses(points: Seq<Point>, n: nat, j: int)
    requires
        0 <= j < n <= points.len(),
    ensures
        hull(points, n).encloses(points[j]),
    decreases n,
{
    if j < n - 1 {
        lemma_hull_encloses(points, (n - 1) as nat, j);
    }
}

/// The smallest box that holds some points lies within every box that
/// holds them all.
pub proof fn lemma_hull_is_least(points: Seq<Point>, n: nat, b: BoundingBox)
    requires
        0 < n <= points.len(),
        forall|j: int| 0 <= j < n ==> b.encloses(#[trigger] points[j]),
    ensures
        b.encloses(hull(points, n).min),
        b.encloses(hull(points, n).max),
    decreases n,
{
    reveal_with_fuel(hull, 2);
    assert(b.encloses(points[n - 1]));
    if n > 1 {
        lemma_hull_is_least(points, (n - 1) as nat, b);
    }
}

/// The length of the longest side among the first `n` facets, and zero
/// where there is none.
pub open spec fn longest_side(facets: Seq<Triangle>, n: nat) -> int
    decreases n,
{
    if n == 0 {
        0
    } else {
        greater(longest_side(facets, (n - 1) as nat), facets[n - 1].reach())
    }
}

/// The coordinates and normals of a list of facets, in order: of each
/// vertex `x`, `y`, `z` and then the three components of the normal of its
/// facet.
pub open spec fn interleaved_of(facets: Seq<Triangle>) -> Seq<i64> {
    Seq::new(
        18 * facets.len(),
        |j: int|
            {
                let c = corners_of(facets)[j / 6];
                if j % 6 == 0 {
                    c.vertex.x
                } else if j % 6 == 1 {
                    c.vertex.y
                } else if j % 6 == 2 {
                    c.vertex.z
                } else if j % 6 == 3 {
                    c.normal.i
                } else if j % 6 == 4 {
                    c.normal.j
                } else {
                    c.normal.k
                }
            },
    )
}

/// The facets that a list of binary32 bit patterns stands for, twelve to a
/// facet.
pub open spec fn facets_of_words(words: Seq<u32>) -> Seq<Triangle> {
    Seq::new(words.len() / 12, |i: int| facet_of(words.subrange(12 * i, 12 * i + 12)))
}

/// The five letters `solid`.
pub open spec fn word_solid_bare() -> Seq<u8> {
    seq![0x73u8, 0x6f, 0x6c, 0x69, 0x64]
}

/// Whether bytes are taken for text: whether, after white space, they start
/// with `solid`.
pub open spec fn looks_like_text(bytes: Seq<u8>) -> bool {
    has_word(bytes, after_spaces(bytes, 0), word_solid_bare())
}

/// What was found in the bytes of a mesh.
#[derive(Debug)]
pub enum Parsed {
    /// A mesh in binary form.
    Binary(StlFile),
    /// A mesh in text form: the text starts at `start`, and its numbers
    /// stand where `layout` says, counted from there.
    Ascii { start: usize, layout: AsciiLayout },
}

impl View for StlFile {
    type V = Seq<Triangle>;

    closed spec fn view(&self) -> Seq<Triangle> {
        Seq::new(self.normals@.len(), |i: int| facet_at(self.normals@, self.vertices@, i))
    }
}

impl StlFile {
    /// Whether the two lists fit: nine coordinates to each normal.
    pub closed spec fn wf(&self) -> bool {
        self.vertices@.len() == 9 * self.normals@.len()
    }

    pub fn new() -> (mesh: StlFile)
        ensures
            mesh.wf(),
            mesh@ == Seq::<Triangle>::empty(),
    {
        let mesh = StlFile { normals: Vec::new(), vertices: Vec::new() };
        assert(mesh@ =~= Seq::<Triangle>::empty());
        mesh
    }

    pub fn add_triangle(&mut self, v: Triangle)
        requires
            old(self).wf(),
        ensures
            final(self).wf(),
            final(self)@ == old(self)@.push(v),
    {
        self.normals.push(v.normal);

        self.vertices.push(v.v0.x);
        self.vertices.push(v.v0.y);
        self.vertices.push(v.v0.z);

        self.vertices.push(v.v1.x);
        self.vertices.push(v.v1.y);
        self.vertices.push(v.v1.z);

        self.vertices.push(v.v2.x);
        self.vertices.push(v.v2.y);
        self.vertices.push(v.v2.z);
        assert(self@ =~= old(self)@.push(v));
    }

    /// The coordinates of all vertices, three to a vertex.
    pub fn vertex_buffer(&self) -> (buffer: &[i64])
        requires
            self.wf(),
        ensures
            buffer@ == coordinates_of(self@),
    {
        assert(self.vertices@ =~= coordinates_of(self@));
        self.vertices.as_slice()
    }

    /// The number of vertices, as far as it fits: the low 32 bits.
    pub fn vertex_count(&self) -> (count: u32)
        requires
            self.wf(),
        ensures
            count == (3 * self@.len()) as u32,
    {
        let n: usize = self.vertices.len() / 3;
        assert(n == 3 * self@.len());
        #[verifier::truncate]
        (n as u32)
    }

    /// The number of facets, as far as it fits: the low 32 bits.
    pub fn facet_count(&self) -> (count: u32)
        requires
            self.wf(),
        ensures
            count == self@.len() as u32,
    {
        let n: usize = self.normals.len();
        #[verifier::truncate]
        (n as u32)
    }

    pub fn normals(&self) -> (normals: &[Normal])
        requires
            self.wf(),
        ensures
            normals@ == normals_of(self@),
    {
        assert(self.normals@ =~= normals_of(self@));
        self.normals.as_slice()
    }

    /// The number of facets.
    pub fn len(&self) -> (n: usize)
        requires
            self.wf(),
        ensures
            n == self@.len(),
    {
        self.normals.len()
    }

    /// The vertices, three to a facet, in order.
    pub fn vertices(&self) -> (points: Vec<Point>)
        requires
            self.wf(),
        ensures
            points@ == points_of(self@),
    {
        let mut points: Vec<Point> = Vec::new();
        let total: usize = self.vertices.len();
        let n = total / 3;
        let mut j: usize = 0;
        while j < n
            invariant
                self.wf(),
                total == self.vertices@.len(),
                n == 3 * self@.len(),
                j <= n,
                points@ == points_of(self@).take(j as int),
            decreases n - j,
        {
            let chunk: usize = 3 * j;
            let p = Point {
                x: self.vertices[chunk],
                y: self.vertices[chunk + 1],
                z: self.vertices[chunk + 2],
            };
            proof {
                let i = j as int / 3;
                assert(self@[i] == facet_at(self.normals@, self.vertices@, i));
                assert(p == vertex_of(self@, j as int));
                assert(points_of(self@).take(j + 1) =~= points_of(self@).take(j as int).push(p));
            }
            points.push(p);
            j += 1;
        }
        assert(points_of(self@).take(n as int) =~= points_of(self@));
        points
    }

    /// The facets, in order.
    pub fn triangles(&self) -> (facets: Vec<Triangle>)
        requires
            self.wf(),
        ensures
            facets@ == self@,
    {
        let points = self.vertices();
        let mut it = TriangleIterator::new(points.as_slice(), self.normals());
        let mut facets: Vec<Triangle> = Vec::new();
        let n = self.normals.len();
        let mut i: usize = 0;
        while i < n
            invariant
                self.wf(),
                n == self@.len(),
                i <= n,
                it.wf(),
                it.taken() == i,
                it.position() == 3 * i,
                it.vertices() == points_of(self@),
                it.normals() == normals_of(self@),
                facets@ == self@.take(i as int),
            decreases n - i,
        {
            match it.next() {
                Some(t) => {
                    assert(t == self@[i as int]);
                    assert(self@.take(i + 1) =~= self@.take(i as int).push(t));
                    facets.push(t);
                },
                None => {},
            }
            i += 1;
        }
        assert(self@.take(n as int) =~= self@);
        facets
    }

    /// Each vertex with the normal of its facet, in order.
    pub fn vertex_and_normal_iterator(&self) -> (corners: Vec<VertexWithNormal>)
        requires
            self.wf(),
        ensures
            corners@ == corners_of(self@),
    {
        let points = self.vertices();
        let mut it = VertexWithNormalIterator::new(points.as_slice(), self.normals());
        let mut corners: Vec<VertexWithNormal> = Vec::new();
        let n = points.len();
        let mut j: usize = 0;
        while j < n
            invariant
                self.wf(),
                n == 3 * self@.len(),
                j <= n,
                it.wf(),
                it.taken() == j,
                it.vertices() == points_of(self@),
                it.normals() == normals_of(self@),
                corners@ == corners_of(self@).take(j as int),
            decreases n - j,
        {
            match it.next() {
                Some(c) => {
                    assert(c == corners_of(self@)[j as int]);
                    assert(corners_of(self@).take(j + 1) =~= corners_of(self@).take(
                        j as int,
                    ).push(c));
                    corners.push(c);
                },
                None => {},
            }
            j += 1;
        }
        assert(corners_of(self@).take(n as int) =~= corners_of(self@));
        corners
    }

    /// The smallest box that holds every vertex.
    pub fn bounding_box(&self) -> (bb: BoundingBox)
        requires
            self.wf(),
        ensures
            bb == hull(points_of(self@), points_of(self@).len()),
    {
        let mut bb = BoundingBox::init();
        let points = self.vertices();
        let n = points.len();
        let mut j: usize = 0;
        while j < n
            invariant
                j <= n,
                n == points@.len(),
                points@ == points_of(self@),
                bb == hull(points@, j as nat),
            decreases n - j,
        {
            bb.add_point(points[j]);
            j += 1;
        }
        bb
    }

    /// The length of the longest side of any facet, and zero for a mesh
    /// without facets.
    pub fn longest_edge(&self) -> (d: i64)
        requires
            self.wf(),
        ensures
            d == longest_side(self@, self@.len()),
    {
        let mut d: i64 = 0;
        let triangles = self.triangles();
        let n = triangles.len();
        let mut i: usize = 0;
        while i < n
            invariant
                n == self@.len(),
                triangles@ == self@,
                i <= n,
                d == longest_side(self@, i as nat),
            decreases n - i,
        {
            d = maximum(d, triangles[i].longest_edge());
            i += 1;
        }
        d
    }

    /// The connected components of the mesh, each as a mesh of its own: in
    /// the order in which they first occur, each with its facets in their
    /// old order.
    pub fn split_islands(self) -> (meshes: Vec<StlFile>)
        requires
            self.wf(),
        ensures
            meshes@.len() == islands(self@).len(),
            forall|k: int|
                0 <= k < meshes@.len() ==> (#[trigger] meshes@[k]).wf() && meshes@[k]@ == islands(
                    self@,
                )[k],
    {
        let mut union_find = UnionFind::new(self.vertices.len() / 3);

        let triangles = self.triangles();
        let n = triangles.len();
        let mut i: usize = 0;
        while i < n
            invariant
                i <= n,
                n == self@.len(),
                n == self.normals@.len(),
                self.wf(),
                triangles@ == self@,
                union_find.wf(),
                union_find@ == self@.take(i as int),
                union_find.capacity() == 3 * n,
                union_find.points().len() <= 3 * i,
            decreases n - i,
        {
            union_find.add_triangle(triangles[i]);
            assert(self@.take(i + 1) =~= self@.take(i as int).push(triangles[i as int]));
            i += 1;
        }
        assert(self@.take(n as int) =~= self@);

        union_find.files()
    }

    /// The distinct corners of the mesh, of each the vertex alone, and the
    /// position of each corner among them.
    pub fn index_buffer_vertex_only(&self) -> (ib: IndexBuffer)
        requires
            self.wf(),
        ensures
            ib.numbers() == laid_out(
                distinct_corners(corners_of(self@), corners_of(self@).len()),
                distinct_corners(corners_of(self@), corners_of(self@).len()).len(),
                Layout::VertexOnly,
            ),
            ib.positions().len() == corners_of(self@).len(),
            forall|i: int|
                0 <= i < corners_of(self@).len() ==> #[trigger] ib.positions()[i]
                    == distinct_corners(corners_of(self@), corners_of(self@).len()).index_of(
                    corners_of(self@)[i],
                ) as u32,
    {
        IndexBuffer::from_buffer(&self.vertex_and_normal_iterator(), Layout::VertexOnly)
    }

    /// The distinct corners of the mesh, of each the vertex and the normal,
    /// and the position of each corner among them.
    pub fn index_buffer_vertex_and_normal(&self) -> (ib: IndexBuffer)
        requires
            self.wf(),
        ensures
            ib.numbers() == laid_out(
                distinct_corners(corners_of(self@), corners_of(self@).len()),
                distinct_corners(corners_of(self@), corners_of(self@).len()).len(),
                Layout::VertexAndNormal,
            ),
            ib.positions().len() == corners_of(self@).len(),
            forall|i: int|
                0 <= i < corners_of(self@).len() ==> #[trigger] ib.positions()[i]
                    == distinct_corners(corners_of(self@), corners_of(self@).len()).index_of(
                    corners_of(self@)[i],
                ) as u32,
    {
        IndexBuffer::from_buffer(&self.vertex_and_normal_iterator(), Layout::VertexAndNormal)
    }

    /// The coordinates and normals of all vertices, six numbers to a
    /// vertex.
    pub fn vertices_and_normals(&self) -> (buffer: Vec<i64>)
        requires
            self.wf(),
        ensures
            buffer@ == interleaved_of(self@),
    {
        let corners = self.vertex_and_normal_iterator();
        let mut buffer: Vec<i64> = Vec::new();
        let n = corners.len();
        let mut j: usize = 0;
        while j < n
            invariant
                j <= n,
                n == corners@.len(),
                n == 3 * self@.len(),
                corners@ == corners_of(self@),
                buffer@ == interleaved_of(self@).take(6 * j),
            decreases n - j,
        {
            let c = corners[j];
            buffer.push(c.vertex.x);
            buffer.push(c.vertex.y);
            buffer.push(c.vertex.z);
            buffer.push(c.normal.i);
            buffer.push(c.normal.j);
            buffer.push(c.normal.k);
            assert(interleaved_of(self@).take(6 * (j + 1)) =~= interleaved_of(self@).take(
                6 * j,
            ).push(c.vertex.x).push(c.vertex.y).push(c.vertex.z).push(c.normal.i).push(
                c.normal.j,
            ).push(c.normal.k));
            j += 1;
        }
        assert(interleaved_of(self@).take(6 * n) =~= interleaved_of(self@));
        buffer
    }

    /// The mesh that a list of binary32 bit patterns stands for, twelve to
    /// a facet: the normal, then the three vertices.
    pub fn from_words(words: &[u32]) -> (r: StlResult<StlFile>)
        ensures
            match r {
                Ok(mesh) => words@.len() % 12 == 0 && mesh.wf() && mesh@ == facets_of_words(
                    words@,
                ),
                Err(e) => words@.len() % 12 != 0 && e == StlError::ParseError(()),
            },
    {
        if words.len() % 12 != 0 {
            return Err(StlError::ParseError(()));
        }
        let mut mesh = StlFile::new();
        let total = words.len();
        let n = total / 12;
        let mut i: usize = 0;
        while i < n
            invariant
                i <= n,
                total == words@.len(),
                n == words@.len() / 12,
                words@.len() % 12 == 0,
                mesh.wf(),
                mesh@ == facets_of_words(words@).take(i as int),
            decreases n - i,
        {
            let b: usize = 12 * i;
            let facet_words: [u32; 12] = [
                words[b],
                words[b + 1],
                words[b + 2],
                words[b + 3],
                words[b + 4],
                words[b + 5],
                words[b + 6],
                words[b + 7],
                words[b + 8],
                words[b + 9],
                words[b + 10],
                words[b + 11],
            ];
            let facet = facet_from_words(&facet_words);
            proof {
                assert(facet_words@ =~= words@.subrange(12 * i, 12 * i + 12));
                assert(facets_of_words(words@).take(i + 1) =~= facets_of_words(words@).take(
                    i as int,
                ).push(facet));
            }
            mesh.add_triangle(facet);
            i += 1;
        }
        assert(facets_of_words(words@).take(n as int) =~= facets_of_words(words@));
        Ok(mesh)
    }

    /// Writes the mesh in binary form to the end of `buffer`.
    pub fn write_binary(&self, buffer: &mut Vec<u8>) -> (r: StlResult<()>)
        requires
            self.wf(),
        ensures
            r is Ok,
            final(buffer)@ == old(buffer)@ + written(self@),
    {
        let triangles = self.triangles();
        let mut facets: Vec<[u32; 12]> = Vec::new();
        let n = triangles.len();
        let mut i: usize = 0;
        while i < n
            invariant
                i <= n,
                n == self@.len(),
                triangles@ == self@,
                facets@.len() == i,
                forall|j: int| 0 <= j < i ==> (#[trigger] facets@[j])@ == words_of(self@[j]),
            decreases n - i,
        {
            let words = facet_to_words(&triangles[i]);
            facets.push(words);
            i += 1;
        }
        assert(word_lists(facets@) =~= Seq::new(self@.len(), |i: int| words_of(self@[i])));
        let mut bytes = encode(&facets);
        buffer.append(&mut bytes);

        Ok(())
    }

    /// The mesh that bytes in binary form hold.
    pub fn parse_binary(buffer: &[u8]) -> (r: StlResult<StlFile>)
        ensures
            match r {
                Ok(mesh) => well_framed(buffer@) && mesh.wf() && mesh@ == binary_facets(buffer@),
                Err(e) => !well_framed(buffer@) && e == StlError::ParseError(()),
            },
    {
        match BinaryParser::new(buffer) {
            Ok(parser) => Ok(parser.parse()),
            Err(unit) => Err(StlError::from(unit)),
        }
    }

    /// Where the name and the numbers of a mesh in text form stand.
    pub fn parse_ascii(buffer: &[u8]) -> (r: StlResult<AsciiLayout>)
        ensures
            match r {
                Ok(layout) => layout_of(buffer@) == Some((layout.name, layout.numbers@)),
                Err(e) => layout_of(buffer@) is None && e == StlError::ParseError(()),
            },
    {
        match AsciiParser::new(buffer) {
            Ok(parser) => match parser.parse() {
                Ok(layout) => Ok(layout),
                Err(unit) => Err(StlError::from(unit)),
            },
            Err(unit) => Err(StlError::from(unit)),
        }
    }

    /// Reads bytes as a mesh in either form. White space at the start is
    /// passed over; what follows is text if it starts with `solid`, and
    /// else binary.
    pub fn parse(buffer: &[u8]) -> (r: StlResult<Parsed>)
        ensures
            match r {
                Ok(Parsed::Binary(mesh)) => {
                    let rest = buffer@.subrange(after_spaces(buffer@, 0), buffer@.len() as int);
                    &&& !looks_like_text(buffer@)
                    &&& well_framed(rest)
                    &&& mesh.wf()
                    &&& mesh@ == binary_facets(rest)
                },
                Ok(Parsed::Ascii { start, layout }) => {
                    let rest = buffer@.subrange(after_spaces(buffer@, 0), buffer@.len() as int);
                    &&& looks_like_text(buffer@)
                    &&& start == after_spaces(buffer@, 0)
                    &&& layout_of(rest) == Some((layout.name, layout.numbers@))
                },
                Err(e) => {
                    let rest = buffer@.subrange(after_spaces(buffer@, 0), buffer@.len() as int);
                    &&& e == StlError::ParseError(())
                    &&& if looks_like_text(buffer@) {
                        layout_of(rest) is None
                    } else {
                        !well_framed(rest)
                    }
                },
            },
    {
        let len = buffer.len();
        let mut start: usize = 0;
        while start < len && is_ascii_whitespace(buffer[start])
            invariant
                start <= len,
                len == buffer@.len(),
                after_spaces(buffer@, start as int) == after_spaces(buffer@, 0),
            decreases len - start,
        {
            start += 1;
        }

        let rest = slice_subrange(buffer, start, len);
        let solid: [u8; 5] = [0x73, 0x6f, 0x6c, 0x69, 0x64];
        assert(solid@ =~= word_solid_bare());
        if starts_with(rest, solid.as_slice()) {
            assert(looks_like_text(buffer@)) by {
                assert(buffer@.subrange(start as int, start + 5) =~= rest@.subrange(0, 5));
            }
            match Self::parse_ascii(rest) {
                Ok(layout) => Ok(Parsed::Ascii { start, layout }),
                Err(e) => Err(e),
            }
        } else {
            assert(!looks_like_text(buffer@)) by {
                if start + 5 <= len {
                    assert(buffer@.subrange(start as int, start + 5) =~= rest@.subrange(0, 5));
                }
            }
            match Self::parse_binary(rest) {
                Ok(mesh) => Ok(Parsed::Binary(mesh)),
                Err(e) => Err(e),
            }
        }
    }
}

/// Whether a byte is a space, a tab, a line feed, a form feed or a carriage
/// return.
pub fn is_ascii_whitespace(b: u8) -> (r: bool)
    ensures
        r == is_space(b),
{
    b == 0x20 || b == 0x09 || b == 0x0a || b == 0x0c || b == 0x0d
}

/// Whether `bytes` starts with `word`.
pub fn starts_with(bytes: &[u8], word: &[u8]) -> (r: bool)
    ensures
        r == has_word(bytes@, 0, word@),
{
    let n = word.len();
    if bytes.len() < n {
        return false;
    }
    let mut i: usize = 0;
    while i < n
        invariant
            i <= n,
            n == word@.len(),
            n <= bytes@.len(),
            forall|k: int| 0 <= k < i ==> bytes@[k] == word@[k],
        decreases n - i,
    {
        if bytes[i] != word[i] {
            assert(bytes@.subrange(0, n as int)[i as int] != word@[i as int]);
            return false;
        }
        i += 1;
    }
    assert(bytes@.subrange(0, n as int) =~= word@);
    true
}

} // verus!
