use crate::scalar::{difference, greater, maximum, saturate, sum};
use crate::vertex::{Point, Triangle};
use crate::bbox::BoundingBox;
use crate::mesh::{hull, longest_side, points_of, StlFile};
use crate::octree_lemmas::{lemma_arena_grows, lemma_keep_wf, lemma_split_wf};
use crate::tally::{lemma_total_of_empty_lists, total};
use vstd::multiset::Multiset;
use vstd::prelude::*;

verus! {

/// An octant that holds this many triangles is split into eight before it
/// takes another.
pub const TRIANGLE_LIMIT: usize = 50;

/// An octant this deep is not split.
pub const DEPTH_LIMIT: u8 = 8;

/// One node of the tree: the region `center ± radius` on each axis, the
/// triangles kept at this node, and the eight octants below it, if any.
#[derive(Debug, Clone)]
pub struct Octant {
    pub children: Option<[usize; 8]>,
    pub triangle_ids: Vec<usize>,
    pub center: Point,
    pub radius: Point,
    pub depth: u8,
}

/// A tree of octants over an arena of triangles. Octants and triangles are
/// named by their index; the root is octant `0`.
#[derive(Debug, Clone)]
pub struct Octree {
    pub octants: Vec<Octant>,
    pub triangles: Vec<Triangle>,
}

/// An octant as a mathematical value.
pub struct OctantView {
    pub children: Option<Seq<usize>>,
    pub triangle_ids: Seq<usize>,
    pub center: Point,
    pub radius: Point,
    pub depth: u8,
}

impl View for Octant {
    type V = OctantView;

    open spec fn view(&self) -> OctantView {
        OctantView {
            children: match self.children {
                Some(c) => Some(c@),
                None => None,
            },
            triangle_ids: self.triangle_ids@,
            center: self.center,
            radius: self.radius,
            depth: self.depth,
        }
    }
}

/// The center of the `k`-th of the eight octants below one with the given
/// center, `half` being the radius of the new octants.
pub open spec fn child_center(center: Point, half: Point, k: int) -> Point {
    Point {
        x: if k < 4 {
            saturate(center.x + half.x) as i64
        } else {
            saturate(center.x - half.x) as i64
        },
        y: if k == 1 || k == 2 || k == 6 || k == 7 {
            saturate(center.y + half.y) as i64
        } else {
            saturate(center.y - half.y) as i64
        },
        z: if k == 0 || k == 1 || k == 5 || k == 6 {
            saturate(center.z + half.z) as i64
        } else {
            saturate(center.z - half.z) as i64
        },
    }
}

/// The part of space that an octant covers: `center ± radius` on each axis.
pub struct Region {
    pub center: Point,
    pub radius: Point,
}

impl Region {
    /// Whether `p` lies in the region, its faces included.
    pub open spec fn holds_point(self, p: Point) -> bool {
        &&& self.center.x - self.radius.x <= p.x <= self.center.x + self.radius.x
        &&& self.center.y - self.radius.y <= p.y <= self.center.y + self.radius.y
        &&& self.center.z - self.radius.z <= p.z <= self.center.z + self.radius.z
    }

    /// Whether all three vertices of `t` lie in the region.
    pub open spec fn holds_triangle(self, t: Triangle) -> bool {
        self.holds_point(t.v0) && self.holds_point(t.v1) && self.holds_point(t.v2)
    }

    /// The `k`-th of the eight regions into which this one is split: half
    /// the radius, rounded up, and the center moved by the new radius along
    /// each axis.
    pub open spec fn below(self, k: int) -> Region {
        Region {
            center: child_center(self.center, self.radius.halved(), k),
            radius: self.radius.halved(),
        }
    }

    /// Whether the `k`-th region below this one is the first of the eight
    /// that holds `t`.
    pub open spec fn sends_to(self, t: Triangle, k: int) -> bool {
        &&& 0 <= k < 8
        &&& self.below(k).holds_triangle(t)
        &&& forall|j: int| 0 <= j < k ==> !(#[trigger] self.below(j)).holds_triangle(t)
    }

    /// Whether none of the eight regions below this one holds `t`.
    pub open spec fn keeps(self, t: Triangle) -> bool {
        forall|j: int| 0 <= j < 8 ==> !(#[trigger] self.below(j)).holds_triangle(t)
    }
}

impl OctantView {
    /// The part of space that the octant covers.
    pub open spec fn region(self) -> Region {
        Region { center: self.center, radius: self.radius }
    }

    /// Whether `p` lies in the octant's region, its faces included.
    pub open spec fn holds_point(self, p: Point) -> bool {
        self.region().holds_point(p)
    }

    /// Whether all three vertices of `t` lie in the octant's region.
    pub open spec fn holds_triangle(self, t: Triangle) -> bool {
        self.region().holds_triangle(t)
    }

    /// Whether the octant is split before it takes another triangle.
    pub open spec fn splits(self) -> bool {
        self.triangle_ids.len() >= TRIANGLE_LIMIT && self.children is None && self.depth
            < DEPTH_LIMIT
    }

    /// The `k`-th octant below this one, as it is made: without triangles.
    pub open spec fn child(self, k: int) -> OctantView {
        OctantView {
            children: None,
            triangle_ids: Seq::empty(),
            center: self.region().below(k).center,
            radius: self.region().below(k).radius,
            depth: (self.depth + 1) as u8,
        }
    }
}

impl Octant {
    pub fn should_split(&self) -> (r: bool)
        ensures
            r == self@.splits(),
    {
        self.triangle_ids.len() >= TRIANGLE_LIMIT && self.children.is_none() && self.depth
            < DEPTH_LIMIT
    }

    pub fn contains_triangle(&self, triangle: Triangle) -> (r: bool)
        ensures
            r == self@.holds_triangle(triangle),
    {
        self.contains_point(triangle.v0) && self.contains_point(triangle.v1)
            && self.contains_point(triangle.v2)
    }

    pub fn contains_point(&self, point: Point) -> (r: bool)
        ensures
            r == self@.holds_point(point),
    {
        self.center.x as i128 + self.radius.x as i128 >= point.x as i128 && self.center.x as i128
            - self.radius.x as i128 <= point.x as i128 && self.center.y as i128
            + self.radius.y as i128 >= point.y as i128 && self.center.y as i128
            - self.radius.y as i128 <= point.y as i128 && self.center.z as i128
            + self.radius.z as i128 >= point.z as i128 && self.center.z as i128
            - self.radius.z as i128 <= point.z as i128
    }
}

/// The octants after octant `o` has been split: eight new octants stand at
/// the end of the arena, each with the triangles of `o` that it is the first
/// to hold, in their old order; `o` keeps the triangles that none of them
/// holds.
pub open spec fn split_model(nodes: Seq<OctantView>, tris: Seq<Triangle>, o: int) -> Seq<
    OctantView,
> {
    let parent = nodes[o];
    let base = nodes.len();
    nodes.update(
        o,
        OctantView {
            children: Some(Seq::new(8, |k: int| (base + k) as usize)),
            triangle_ids: parent.triangle_ids.filter(kept_by(parent.region(), tris)),
            ..parent
        },
    ) + Seq::new(
        8,
        |k: int|
            OctantView {
                triangle_ids: parent.triangle_ids.filter(sent_by(parent.region(), tris, k)),
                ..parent.child(k)
            },
    )
}

/// The position in `c`, at or after `from`, of the first octant that holds
/// `t`.
pub open spec fn first_holder(nodes: Seq<OctantView>, c: Seq<usize>, t: Triangle, from: int)
    -> Option<int>
    decreases c.len() - from,
{
    if from < 0 || from >= c.len() {
        None
    } else if nodes[c[from] as int].holds_triangle(t) {
        Some(from)
    } else {
        first_holder(nodes, c, t, from + 1)
    }
}

/// The octants after triangle `t` has been handed to octant `o`: `o` is
/// split first if it is full; then the triangle goes down to the first octant
/// below `o` that holds it, and stays at `o` if there is none. (The descent
/// only ever goes to a deeper octant.)
pub open spec fn insert_model(nodes: Seq<OctantView>, tris: Seq<Triangle>, o: int, t: usize)
    -> Seq<OctantView>
    decreases 255 - nodes[o].depth,
{
    let split = if nodes[o].splits() {
        split_model(nodes, tris, o)
    } else {
        nodes
    };
    let kept = split.update(
        o,
        OctantView { triangle_ids: split[o].triangle_ids.push(t), ..split[o] },
    );
    match split[o].children {
        Some(c) => match first_holder(split, c, tris[t as int], 0) {
            Some(k) => if split[c[k] as int].depth > nodes[o].depth {
                insert_model(split, tris, c[k] as int, t)
            } else {
                kept
            },
            None => kept,
        },
        None => kept,
    }
}

/// The ids `0, .., n - 1`, each once.
pub open spec fn all_ids(n: nat) -> Multiset<usize>
    decreases n,
{
    if n == 0 {
        Multiset::empty()
    } else {
        all_ids((n - 1) as nat).insert((n - 1) as usize)
    }
}

/// The triangle lists of a sequence of octants.
pub open spec fn lists(nodes: Seq<OctantView>) -> Seq<Seq<usize>> {
    Seq::new(nodes.len(), |o: int| nodes[o].triangle_ids)
}

/// The triangles of the arena that lie within an octant's region.
pub open spec fn within(node: Region, tris: Seq<Triangle>) -> Set<usize> {
    Set::new(|t: usize| t < tris.len() && node.holds_triangle(tris[t as int]))
}

/// What holds of octant `o` in a well-formed tree of which the first
/// `assigned` triangles of the arena have been placed.
pub open spec fn node_wf(nodes: Seq<OctantView>, tris: Seq<Triangle>, assigned: nat, o: int)
    -> bool {
    let n = nodes[o];
    &&& n.depth <= DEPTH_LIMIT
    &&& forall|j: int|
        0 <= j < n.triangle_ids.len() ==> (#[trigger] n.triangle_ids[j]) < assigned
            && n.holds_triangle(tris[n.triangle_ids[j] as int])
    &&& match n.children {
        None => n.depth < DEPTH_LIMIT ==> n.triangle_ids.len() <= TRIANGLE_LIMIT,
        Some(c) => {
            &&& c.len() == 8
            &&& forall|k: int|
                0 <= k < 8 ==> o < (#[trigger] c[k]) < nodes.len() && nodes[c[k] as int].region()
                    == n.region().below(k) && nodes[c[k] as int].depth == n.depth + 1
            &&& forall|j: int|
                0 <= j < n.triangle_ids.len() ==> n.region().keeps(
                    tris[(#[trigger] n.triangle_ids[j]) as int],
                )
            &&& within(n.region(), tris).len() >= TRIANGLE_LIMIT
        },
    }
}

/// Whether the octants form a well-formed tree over the arena, of which the
/// first `assigned` triangles have been placed.
pub open spec fn nodes_wf(nodes: Seq<OctantView>, tris: Seq<Triangle>, assigned: nat) -> bool {
    &&& nodes.len() > 0
    &&& assigned <= tris.len()
    &&& forall|o: int| 0 <= o < nodes.len() ==> node_wf(nodes, tris, assigned, o)
    &&& total(lists(nodes)) == all_ids(assigned)
}

/// The test for triangles that lie wholly in `b`.
pub open spec fn inside(b: BoundingBox) -> spec_fn(Triangle) -> bool {
    |t: Triangle| b.encloses_triangle(t)
}

/// The test by which a split octant keeps a triangle.
pub open spec fn kept_by(parent: Region, tris: Seq<Triangle>) -> spec_fn(usize) -> bool {
    |t: usize| parent.keeps(tris[t as int])
}

/// The test by which a split octant sends a triangle to the `k`-th octant
/// below it.
pub open spec fn sent_by(parent: Region, tris: Seq<Triangle>, k: int) -> spec_fn(usize) -> bool {
    |t: usize| parent.sends_to(tris[t as int], k)
}

/// The center of the `k`-th of the eight octants below one with the given
/// center, `half` being the radius of the new octants.
pub fn center_below(center: Point, half: Point, k: usize) -> (c: Point)
    requires
        k < 8,
    ensures
        c == child_center(center, half, k as int),
{
    Point {
        x: if k < 4 {
            sum(center.x, half.x)
        } else {
            difference(center.x, half.x)
        },
        y: if k == 1 || k == 2 || k == 6 || k == 7 {
            sum(center.y, half.y)
        } else {
            difference(center.y, half.y)
        },
        z: if k == 0 || k == 1 || k == 5 || k == 6 {
            sum(center.z, half.z)
        } else {
            difference(center.z, half.z)
        },
    }
}

impl Octree {
    /// The octants as mathematical values.
    pub open spec fn nodes(&self) -> Seq<OctantView> {
        self.octants@.map_values(|o: Octant| o@)
    }

    fn insert_octant(&mut self, octant: Octant) -> (id: usize)
        ensures
            id == old(self).octants.len(),
            final(self).octants@ == old(self).octants@.push(octant),
            final(self).triangles == old(self).triangles,
    {
        let id = self.octants.len();

        self.octants.push(octant);

        id
    }

    fn split_octant(&mut self, octant_id: usize)
        requires
            octant_id < old(self).octants.len(),
            old(self).nodes()[octant_id as int].splits(),
            forall|j: int|
                0 <= j < old(self).octants[octant_id as int].triangle_ids.len() ==> old(
                    self,
                ).octants[octant_id as int].triangle_ids[j] < old(self).triangles.len(),
        ensures
            final(self).triangles == old(self).triangles,
            final(self).octants.len() == old(self).octants.len() + 8,
            final(self).nodes() == split_model(
                old(self).nodes(),
                old(self).triangles@,
                octant_id as int,
            ),
    {
        let ghost parent = self.octants[octant_id as int]@;
        let ghost whole = parent.region();
        let ghost tris = self.triangles@;
        let ghost before = self.nodes();
        let radius = self.octants[octant_id].radius.half();
        let center = self.octants[octant_id].center;
        let depth = self.octants[octant_id].depth + 1;
        let base = self.octants.len();

        let mut children: [usize; 8] = [0; 8];
        let mut k: usize = 0;
        while k < 8
            invariant
                k <= 8,
                octant_id < base,
                base == old(self).octants.len(),
                self.triangles == old(self).triangles,
                self.octants.len() == base + k,
                forall|j: int| 0 <= j < base ==> self.octants[j] == old(self).octants[j],
                forall|j: int| 0 <= j < k ==> self.octants[base + j]@ == parent.child(j),
                forall|j: int| 0 <= j < k ==> children[j] == base + j,
                radius == parent.radius.halved(),
                center == parent.center,
                depth == parent.depth + 1,
            decreases 8 - k,
        {
            let id = self.insert_octant(
                Octant {
                    children: None,
                    radius,
                    center: center_below(center, radius, k),
                    depth,
                    triangle_ids: Vec::new(),
                },
            );
            children[k] = id;
            k += 1;
        }

        let count = self.octants[octant_id].triangle_ids.len();
        let ghost list = self.octants[octant_id as int].triangle_ids@;
        let mut outer: Vec<usize> = Vec::new();
        let mut i: usize = 0;
        proof {
            reveal(Seq::filter);
            assert(list.take(0) =~= Seq::empty());
            assert(list.take(0).filter(kept_by(whole, tris)) =~= Seq::empty());
            assert forall|j: int| 0 <= j < 8 implies list.take(0).filter(
                sent_by(whole, tris, j),
            ) == Seq::<usize>::empty() by {}
        }
        while i < count
            invariant
                i <= count,
                count == list.len(),
                octant_id < base,
                base == old(self).octants.len(),
                list == parent.triangle_ids,
                whole == parent.region(),
                tris == self.triangles@,
                self.triangles == old(self).triangles,
                self.octants.len() == base + 8,
                forall|j: int| 0 <= j < list.len() ==> list[j] < tris.len(),
                forall|j: int| 0 <= j < base ==> self.octants[j] == old(self).octants[j],
                self.octants[octant_id as int]@ == parent,
                forall|j: int| 0 <= j < 8 ==> children[j] == base + j,
                forall|j: int|
                    0 <= j < 8 ==> (#[trigger] self.octants[base + j])@ == (OctantView {
                        triangle_ids: list.take(i as int).filter(sent_by(whole, tris, j)),
                        ..parent.child(j)
                    }),
                outer@ == list.take(i as int).filter(kept_by(whole, tris)),
            decreases count - i,
        {
            let triangle_id = self.get_octant(octant_id).triangle_ids[i];
            let triangle = self.get_triangle(triangle_id);
            let ghost done = list.take(i as int);
            let ghost lists_before = Seq::new(8, |j: int| self.octants[base + j]@.triangle_ids);
            assert(list.take(i + 1) =~= done.push(triangle_id));

            let mut k: usize = 0;
            let mut placed = false;
            while k < 8 && !placed
                invariant
                    k <= 8,
                    octant_id < base,
                    base == old(self).octants.len(),
                    triangle_id < tris.len(),
                    lists_before.len() == 8,
                    placed ==> k < 8,
                    tris == self.triangles@,
                    self.triangles == old(self).triangles,
                    self.octants.len() == base + 8,
                    triangle == tris[triangle_id as int],
                    whole == parent.region(),
                    forall|j: int| 0 <= j < base ==> self.octants[j] == old(self).octants[j],
                    forall|j: int| 0 <= j < 8 ==> children[j] == base + j,
                    forall|j: int| 0 <= j < k ==> !whole.below(j).holds_triangle(triangle),
                    placed ==> whole.below(k as int).holds_triangle(triangle),
                    forall|j: int|
                        0 <= j < 8 ==> (#[trigger] self.octants[base + j])@ == (OctantView {
                            triangle_ids: if placed && j == k {
                                lists_before[j].push(triangle_id)
                            } else {
                                lists_before[j]
                            },
                            ..parent.child(j)
                        }),
                decreases 8 - k + (if placed { 0int } else { 1int }),
            {
                let child = children[k];
                if self.get_octant(child).contains_triangle(triangle) {
                    self.octants[child].triangle_ids.push(triangle_id);
                    placed = true;
                } else {
                    k += 1;
                }
            }
            if !placed {
                outer.push(triangle_id);
            }
            proof {
                done.lemma_filter_push(triangle_id, kept_by(whole, tris));
                assert forall|j: int| 0 <= j < 8 implies (#[trigger] self.octants[base + j])@ == (
                OctantView {
                    triangle_ids: list.take(i + 1).filter(sent_by(whole, tris, j)),
                    ..parent.child(j)
                }) by {
                    done.lemma_filter_push(triangle_id, sent_by(whole, tris, j));
                    assert(lists_before[j] == done.filter(sent_by(whole, tris, j)));
                }
            }
            i += 1;
        }

        self.octants[octant_id].children = Some(children);
        self.octants[octant_id].triangle_ids = outer;
        proof {
            assert(list.take(count as int) =~= list);
            assert(children@ =~= Seq::new(8, |k: int| (base + k) as usize));
            let after = split_model(before, tris, octant_id as int);
            assert(self.nodes().len() == after.len());
            assert forall|j: int| 0 <= j < after.len() implies self.nodes()[j] == after[j] by {
                if j < base {
                    if j != octant_id {
                        assert(self.octants[j] == old(self).octants[j]);
                    }
                } else {
                    assert(self.octants[base + (j - base)]@ == after[j]);
                }
            }
            assert(self.nodes() =~= after);
        }
    }

    /// Hands the newest triangle of the arena to an octant that holds it.
    fn insert_triangle_into_octant(&mut self, octant_id: usize, triangle_id: usize)
        requires
            nodes_wf(old(self).nodes(), old(self).triangles@, triangle_id as nat),
            old(self).triangles.len() == triangle_id + 1,
            octant_id < old(self).octants.len(),
            old(self).nodes()[octant_id as int].holds_triangle(
                old(self).triangles[triangle_id as int],
            ),
        ensures
            final(self).triangles == old(self).triangles,
            final(self).nodes() == insert_model(
                old(self).nodes(),
                old(self).triangles@,
                octant_id as int,
                triangle_id,
            ),
            nodes_wf(final(self).nodes(), final(self).triangles@, (triangle_id + 1) as nat),
            final(self).nodes()[0].region() == old(self).nodes()[0].region(),
        decreases DEPTH_LIMIT - old(self).octants[octant_id as int].depth,
    {
        let ghost before = self.nodes();
        let ghost tris = self.triangles@;
        let ghost placed = triangle_id as nat;
        let triangle = self.get_triangle(triangle_id);
        assert(node_wf(before, tris, placed, octant_id as int));

        if self.get_octant(octant_id).should_split() {
            self.split_octant(octant_id);
            proof {
                assert(self.octants@.len() == before.len() + 8);
                lemma_split_wf(before, tris, placed, octant_id as int);
            }
        }
        let ghost split = self.nodes();
        assert(split[0].region() == before[0].region());
        assert(node_wf(split, tris, placed, octant_id as int));
        assert(split[octant_id as int].region() == before[octant_id as int].region());

        if let Some(children) = self.get_octant(octant_id).children {
            let mut k: usize = 0;
            while k < 8
                invariant
                    k <= 8,
                    self.nodes() == split,
                    self.triangles@ == tris,
                    self.triangles == old(self).triangles,
                    octant_id < self.octants.len(),
                    octant_id < before.len(),
                    self.octants[octant_id as int].children == Some(children),
                    nodes_wf(split, tris, placed),
                    tris.len() == triangle_id + 1,
                    triangle == tris[triangle_id as int],
                    placed == triangle_id,
                    split[octant_id as int].depth == before[octant_id as int].depth,
                    before == old(self).nodes(),
                    split[0].region() == before[0].region(),
                    split == (if before[octant_id as int].splits() {
                        split_model(before, tris, octant_id as int)
                    } else {
                        before
                    }),
                    first_holder(split, children@, triangle, 0) == first_holder(
                        split,
                        children@,
                        triangle,
                        k as int,
                    ),
                    forall|j: int|
                        0 <= j < k ==> !split[octant_id as int].region().below(j).holds_triangle(
                            triangle,
                        ),
                decreases 8 - k,
            {
                assert(node_wf(split, tris, placed, octant_id as int));
                let child = children[k];
                assert(split[child as int].region() == split[octant_id as int].region().below(
                    k as int,
                ));
                if self.get_octant(child).contains_triangle(triangle) {
                    assert(node_wf(split, tris, placed, child as int));
                    assert(self.octants[child as int]@ == split[child as int]);
                    assert(self.octants[octant_id as int]@ == split[octant_id as int]);
                    assert(old(self).octants[octant_id as int]@ == before[octant_id as int]);
                    self.insert_triangle_into_octant(child, triangle_id);
                    return ;
                }
                k += 1;
            }
        }
        self.octants[octant_id].triangle_ids.push(triangle_id);
        proof {
            lemma_keep_wf(split, tris, placed, octant_id as int);
            assert(self.nodes() =~= split.update(
                octant_id as int,
                OctantView {
                    triangle_ids: split[octant_id as int].triangle_ids.push(triangle_id),
                    ..split[octant_id as int]
                },
            ));
        }
    }

    /// Whether the tree is well-formed with every triangle of the arena
    /// placed.
    pub open spec fn wf(&self) -> bool {
        nodes_wf(self.nodes(), self.triangles@, self.triangles@.len())
    }

    /// The root octant of a tree over the box `b`, before any triangle is
    /// placed: its center is the middle of the box, and its radius the whole
    /// extent of the box along each axis.
    pub open spec fn root_of(b: BoundingBox) -> OctantView {
        OctantView {
            children: None,
            triangle_ids: Seq::empty(),
            center: b.middle(),
            radius: b.span().magnitudes(),
            depth: 0,
        }
    }

    /// The octants of the tree that starts as `root` alone, after the first
    /// `n` triangles of `tris` have been inserted in order.
    pub open spec fn grown(root: OctantView, tris: Seq<Triangle>, n: nat) -> Seq<OctantView>
        decreases n,
    {
        if n == 0 {
            seq![root]
        } else {
            insert_model(
                Self::grown(root, tris, (n - 1) as nat),
                tris.take(n as int),
                0,
                (n - 1) as usize,
            )
        }
    }

    /// The tree over the box `b`, without triangles.
    fn rooted(b: &BoundingBox) -> (tree: Octree)
        ensures
            tree.wf(),
            tree.triangles@ == Seq::<Triangle>::empty(),
            tree.nodes() == seq![Self::root_of(*b)],
    {
        let root_octant = Octant {
            children: None,
            triangle_ids: Vec::new(),
            center: b.center(),
            radius: b.radius(),
            depth: 0,
        };

        let mut octants: Vec<Octant> = Vec::new();
        octants.push(root_octant);
        let tree = Octree { octants, triangles: Vec::new() };
        proof {
            assert(tree.nodes() =~= seq![Self::root_of(*b)]);
            assert(lists(tree.nodes()).drop_last() =~= Seq::<Seq<usize>>::empty());
            assert(lists(tree.nodes()).last() =~= Seq::<usize>::empty());
            lemma_total_of_empty_lists(lists(tree.nodes()));
        }
        tree
    }

    /// The tree over the mesh's bounding box that holds every triangle of
    /// the mesh, inserted in the mesh's order.
    pub fn new(mesh: StlFile) -> (tree: Octree)
        requires
            mesh.wf(),
            forall|i: int|
                0 <= i < mesh@.len() ==> Self::root_of(
                    hull(points_of(mesh@), points_of(mesh@).len()),
                ).holds_triangle(#[trigger] mesh@[i]),
        ensures
            tree.wf(),
            tree.triangles@ == mesh@,
            tree.nodes() == Self::grown(
                Self::root_of(hull(points_of(mesh@), points_of(mesh@).len())),
                mesh@,
                mesh@.len(),
            ),
    {
        let bbox = mesh.bounding_box();
        let ghost root = Self::root_of(bbox);

        let mut octree = Self::rooted(&bbox);

        let triangles = mesh.triangles();
        let n = triangles.len();
        let mut i: usize = 0;
        while i < n
            invariant
                i <= n,
                n == mesh@.len(),
                triangles@ == mesh@,
                octree.wf(),
                octree.triangles@ == mesh@.take(i as int),
                octree.nodes() == Self::grown(root, mesh@, i as nat),
                octree.nodes()[0].region() == root.region(),
                forall|i: int| 0 <= i < mesh@.len() ==> root.holds_triangle(#[trigger] mesh@[i]),
            decreases n - i,
        {
            octree.insert_triangle(triangles[i]);
            assert(mesh@.take(i + 1) =~= mesh@.take(i as int).push(triangles[i as int]));
            i += 1;
        }
        assert(mesh@.take(n as int) =~= mesh@);

        octree
    }

    /// The box in which two meshes may meet: the intersection of their
    /// bounding boxes, extended by the longest side of any facet of either.
    pub open spec fn meeting_box(one: Seq<Triangle>, two: Seq<Triangle>) -> BoundingBox {
        hull(points_of(one), points_of(one).len()).overlap(
            hull(points_of(two), points_of(two).len()),
        ).padded(
            greater(longest_side(one, one.len()), longest_side(two, two.len())) as i64,
        )
    }

    /// The tree over the box in which the two meshes may meet, with the
    /// triangles of the first mesh and then of the second that lie wholly in
    /// that box, each in its mesh's order.
    pub fn new_intersection(mesh_one: StlFile, mesh_two: StlFile) -> (tree: Octree)
        requires
            mesh_one.wf(),
            mesh_two.wf(),
            forall|i: int|
                0 <= i < mesh_one@.len() && Self::meeting_box(
                    mesh_one@,
                    mesh_two@,
                ).encloses_triangle(#[trigger] mesh_one@[i]) ==> Self::root_of(
                    Self::meeting_box(mesh_one@, mesh_two@),
                ).holds_triangle(mesh_one@[i]),
            forall|i: int|
                0 <= i < mesh_two@.len() && Self::meeting_box(
                    mesh_one@,
                    mesh_two@,
                ).encloses_triangle(#[trigger] mesh_two@[i]) ==> Self::root_of(
                    Self::meeting_box(mesh_one@, mesh_two@),
                ).holds_triangle(mesh_two@[i]),
        ensures
            tree.wf(),
            tree.triangles@ == mesh_one@.filter(inside(Self::meeting_box(mesh_one@, mesh_two@)))
                + mesh_two@.filter(inside(Self::meeting_box(mesh_one@, mesh_two@))),
            tree.nodes() == Self::grown(
                Self::root_of(Self::meeting_box(mesh_one@, mesh_two@)),
                tree.triangles@,
                tree.triangles@.len(),
            ),
    {
        let bounding_box_one = mesh_one.bounding_box();
        let bounding_box_two = mesh_two.bounding_box();

        let longest_edge = maximum(mesh_one.longest_edge(), mesh_two.longest_edge());

        let mut intersection_bounding_box = bounding_box_one.intersection(&bounding_box_two);

        intersection_bounding_box.extend(longest_edge);

        let ghost root = Self::root_of(intersection_bounding_box);
        let mut octree = Self::rooted(&intersection_bounding_box);

        let triangles_one = mesh_one.triangles();
        octree.insert_contained(&triangles_one, &intersection_bounding_box, Ghost(root));
        assert(octree.triangles@ =~= mesh_one@.filter(inside(intersection_bounding_box)));

        let triangles_two = mesh_two.triangles();
        octree.insert_contained(&triangles_two, &intersection_bounding_box, Ghost(root));

        octree
    }

    /// Inserts, in order, the triangles of `facets` that lie wholly in
    /// `bounds`.
    fn insert_contained(
        &mut self,
        facets: &Vec<Triangle>,
        bounds: &BoundingBox,
        Ghost(root): Ghost<OctantView>,
    )
        requires
            old(self).wf(),
            old(self).nodes() == Self::grown(
                root,
                old(self).triangles@,
                old(self).triangles@.len(),
            ),
            old(self).nodes()[0].region() == root.region(),
            forall|i: int|
                0 <= i < facets@.len() && bounds.encloses_triangle(#[trigger] facets@[i])
                    ==> root.holds_triangle(facets@[i]),
        ensures
            final(self).wf(),
            final(self).triangles@ == old(self).triangles@ + facets@.filter(inside(*bounds)),
            final(self).nodes() == Self::grown(
                root,
                final(self).triangles@,
                final(self).triangles@.len(),
            ),
            final(self).nodes()[0].region() == root.region(),
    {
        let n = facets.len();
        let mut i: usize = 0;
        proof {
            reveal(Seq::filter);
            assert(facets@.take(0).filter(inside(*bounds)) =~= Seq::<Triangle>::empty());
            assert(self.triangles@ =~= old(self).triangles@ + Seq::<Triangle>::empty());
        }
        while i < n
            invariant
                i <= n,
                n == facets@.len(),
                self.wf(),
                self.triangles@ == old(self).triangles@ + facets@.take(i as int).filter(
                    inside(*bounds),
                ),
                self.nodes() == Self::grown(root, self.triangles@, self.triangles@.len()),
                self.nodes()[0].region() == root.region(),
                forall|i: int|
                    0 <= i < facets@.len() && bounds.encloses_triangle(#[trigger] facets@[i])
                        ==> root.holds_triangle(facets@[i]),
            decreases n - i,
        {
            let triangle = facets[i];
            proof {
                assert(facets@.take(i + 1) =~= facets@.take(i as int).push(triangle));
                facets@.take(i as int).lemma_filter_push(triangle, inside(*bounds));
            }
            if bounds.contains_triangle(triangle) {
                let ghost arena = self.triangles@;
                let count = self.triangles.len();
                proof {
                    lemma_grown_push(root, arena, triangle);
                }
                self.insert_triangle(triangle);
                assert(self.triangles@ =~= old(self).triangles@ + facets@.take(i + 1).filter(
                    inside(*bounds),
                ));
            }
            i += 1;
        }
        assert(facets@.take(n as int) =~= facets@);
    }

    /// Puts a triangle that the root octant holds into the arena and into
    /// the tree.
    fn insert_triangle(&mut self, triangle: Triangle)
        requires
            old(self).wf(),
            old(self).nodes()[0].holds_triangle(triangle),
        ensures
            final(self).wf(),
            final(self).triangles@ == old(self).triangles@.push(triangle),
            final(self).nodes() == insert_model(
                old(self).nodes(),
                final(self).triangles@,
                0,
                old(self).triangles.len(),
            ),
            final(self).nodes()[0].region() == old(self).nodes()[0].region(),
    {
        let triangle_id = self.triangles.len();

        proof {
            lemma_arena_grows(self.nodes(), self.triangles@, triangle);
        }
        self.triangles.push(triangle);

        self.insert_triangle_into_octant(0, triangle_id)
    }

    fn get_octant(&self, octant_id: usize) -> (octant: &Octant)
        requires
            octant_id < self.octants.len(),
        ensures
            *octant == self.octants[octant_id as int],
    {
        &self.octants[octant_id]
    }

    fn get_triangle(&self, triangle_id: usize) -> (triangle: Triangle)
        requires
            triangle_id < self.triangles.len(),
        ensures
            triangle == self.triangles[triangle_id as int],
    {
        self.triangles[triangle_id]
    }
}

/// What the tree holds does not depend on the triangles that follow in the
/// arena.
pub proof fn lemma_grown_prefix(root: OctantView, tris: Seq<Triangle>, more: Seq<Triangle>, n: nat)
    requires
        n <= tris.len() <= more.len(),
        more.take(tris.len() as int) == tris,
    ensures
        Octree::grown(root, more, n) == Octree::grown(root, tris, n),
    decreases n,
{
    if n > 0 {
        lemma_grown_prefix(root, tris, more, (n - 1) as nat);
        assert(more.take(n as int) =~= more.take(tris.len() as int).take(n as int));
    }
}

/// The tree over an arena with one more triangle is the tree over the arena
/// with that triangle inserted.
pub proof fn lemma_grown_push(root: OctantView, tris: Seq<Triangle>, t: Triangle)
    requires
        tris.len() <= usize::MAX,
    ensures
        Octree::grown(root, tris.push(t), tris.len() + 1) == insert_model(
            Octree::grown(root, tris, tris.len()),
            tris.push(t),
            0,
            tris.len() as usize,
        ),
{
    let more = tris.push(t);
    assert(more.take(tris.len() as int) =~= tris);
    lemma_grown_prefix(root, tris, more, tris.len());
    assert(more.take(tris.len() as int + 1) =~= more);
}

} // verus!
