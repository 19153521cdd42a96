use crate::mesh::StlFile;
use crate::point_index::{with_point, PointIndex};
use crate::vertex::{Point, Triangle};
use std::collections::HashMap;
use vstd::prelude::*;

verus! {

/// Whether `p` and `q` are joined by a chain of the given edges. An edge
/// joins every point that was joined to one of its ends with every point
/// that was joined to the other.
pub open spec fn joined(edges: Seq<(Point, Point)>, p: Point, q: Point) -> bool
    decreases edges.len(),
{
    if edges.len() == 0 {
        p == q
    } else {
        let before = edges.drop_last();
        let (a, b) = edges.last();
        ||| joined(before, p, q)
        ||| ((joined(before, p, a) || joined(before, p, b)) && (joined(before, q, a) || joined(
            before,
            q,
            b,
        )))
    }
}

/// The edges that a list of triangles records: of each triangle the edge
/// from its first vertex to its second, then the one from its first to its
/// third.
pub open spec fn edges_of(tris: Seq<Triangle>) -> Seq<(Point, Point)> {
    Seq::new(
        2 * tris.len(),
        |i: int|
            if i % 2 == 0 {
                (tris[i / 2].v0, tris[i / 2].v1)
            } else {
                (tris[i / 2].v0, tris[i / 2].v2)
            },
    )
}

/// Whether `p` and `q` are joined by a chain of edges of the given
/// triangles.
pub open spec fn linked(tris: Seq<Triangle>, p: Point, q: Point) -> bool {
    joined(edges_of(tris), p, q)
}

/// Whether the parent pointers form a forest: every pointer stays within
/// the slots, and every slot that is not its own parent lies farther from
/// its root than its parent does.
pub open spec fn forest(ids: Seq<usize>, dist: Seq<nat>) -> bool {
    &&& dist.len() == ids.len()
    &&& forall|i: int|
        0 <= i < ids.len() ==> (#[trigger] ids[i]) < ids.len() && (ids[i] != i
            ==> dist[ids[i] as int] < dist[i])
}

/// The root of slot `i`: the slot reached by following parent pointers
/// until one points at itself.
pub open spec fn find(ids: Seq<usize>, dist: Seq<nat>, i: int) -> int
    decreases dist[i],
{
    if 0 <= i < ids.len() && ids[i] != i && ids[i] < ids.len() && dist[ids[i] as int] < dist[i] {
        find(ids, dist, ids[i] as int)
    } else {
        i
    }
}

/// The root of a slot is a slot that is its own parent, and lies no farther
/// from itself than the slot does.
pub proof fn lemma_find_is_root(ids: Seq<usize>, dist: Seq<nat>, i: int)
    requires
        forest(ids, dist),
        0 <= i < ids.len(),
    ensures
        0 <= find(ids, dist, i) < ids.len(),
        ids[find(ids, dist, i)] == find(ids, dist, i),
        dist[find(ids, dist, i)] <= dist[i],
        find(ids, dist, i) != i ==> dist[find(ids, dist, i)] < dist[i],
        find(ids, dist, i) == find(ids, dist, ids[i] as int),
    decreases dist[i],
{
    if ids[i] != i {
        lemma_find_is_root(ids, dist, ids[i] as int);
    }
}

/// Pointing a slot straight at its root changes the root of no slot.
pub proof fn lemma_compress(ids: Seq<usize>, dist: Seq<nat>, x: int, j: int)
    requires
        forest(ids, dist),
        0 <= x < ids.len(),
        0 <= j < ids.len(),
    ensures
        forest(ids.update(x, find(ids, dist, x) as usize), dist),
        find(ids.update(x, find(ids, dist, x) as usize), dist, j) == find(ids, dist, j),
    decreases dist[j],
{
    let r = find(ids, dist, x);
    let after = ids.update(x, r as usize);
    lemma_find_is_root(ids, dist, x);
    assert(forest(after, dist)) by {
        assert forall|i: int| 0 <= i < after.len() implies (#[trigger] after[i]) < after.len() && (
        after[i] != i ==> dist[after[i] as int] < dist[i]) by {
            if i != x {
                assert(after[i] == ids[i]);
            }
        }
    }
    lemma_find_is_root(ids, dist, j);
    if j == x {
        if r != x {
            assert(after[r] == ids[r]);
            assert(find(after, dist, r) == r);
        }
    } else if ids[j] != j {
        lemma_compress(ids, dist, x, ids[j] as int);
        assert(after[j] == ids[j]);
    }
}

/// The distances after the root `from` has been hung below the root `to`:
/// every slot of the first tree lies farther than all of the second.
pub open spec fn hung(ids: Seq<usize>, dist: Seq<nat>, from: int, to: int) -> Seq<nat> {
    Seq::new(
        dist.len(),
        |i: int|
            if find(ids, dist, i) == from {
                dist[i] + dist[to] + 1
            } else {
                dist[i]
            },
    )
}

/// Hanging one root below another gives the slots of the first tree the
/// root of the second, and leaves the root of every other slot.
pub proof fn lemma_unite(ids: Seq<usize>, dist: Seq<nat>, from: int, to: int, j: int)
    requires
        forest(ids, dist),
        0 <= from < ids.len(),
        0 <= to < ids.len(),
        ids[from] == from,
        ids[to] == to,
        from != to,
        0 <= j < ids.len(),
    ensures
        forest(ids.update(from, to as usize), hung(ids, dist, from, to)),
        find(ids.update(from, to as usize), hung(ids, dist, from, to), j) == (if find(
            ids,
            dist,
            j,
        ) == from {
            to
        } else {
            find(ids, dist, j)
        }),
    decreases dist[j],
{
    let after = ids.update(from, to as usize);
    let far = hung(ids, dist, from, to);
    assert(forest(after, far)) by {
        assert forall|i: int| 0 <= i < after.len() implies (#[trigger] after[i]) < after.len() && (
        after[i] != i ==> far[after[i] as int] < far[i]) by {
            lemma_find_is_root(ids, dist, i);
            if i != from {
                assert(after[i] == ids[i]);
            } else {
                assert(find(ids, dist, to) == to);
                assert(find(ids, dist, from) == from);
            }
        }
    }
    lemma_find_is_root(ids, dist, j);
    if j == from {
        assert(find(ids, dist, to) == to);
        assert(after[to] == to as usize);
        assert(find(after, far, to) == to);
        assert(find(ids, dist, from) == from);
    } else if ids[j] != j {
        lemma_unite(ids, dist, from, to, ids[j] as int);
        assert(after[j] == ids[j]);
    } else {
        assert(after[j] == j);
    }
}

/// Every point is joined to itself.
pub proof fn lemma_joined_reflexive(edges: Seq<(Point, Point)>, p: Point)
    ensures
        joined(edges, p, p),
    decreases edges.len(),
{
    if edges.len() > 0 {
        lemma_joined_reflexive(edges.drop_last(), p);
    }
}

/// A point that is an end of no edge is joined to itself alone.
pub proof fn lemma_stranger(edges: Seq<(Point, Point)>, x: Point, p: Point)
    requires
        forall|k: int| 0 <= k < edges.len() ==> (#[trigger] edges[k]).0 != x && edges[k].1 != x,
    ensures
        joined(edges, p, x) <==> p == x,
        joined(edges, x, p) <==> p == x,
    decreases edges.len(),
{
    if edges.len() > 0 {
        let before = edges.drop_last();
        let (a, b) = edges.last();
        assert forall|k: int| 0 <= k < before.len() implies (#[trigger] before[k]).0 != x
            && before[k].1 != x by {
            assert(before[k] == edges[k]);
        }
        assert(edges[edges.len() - 1].0 != x);
        lemma_stranger(before, x, p);
        lemma_stranger(before, x, a);
        lemma_stranger(before, x, b);
    }
}

/// Whether triangle `i` is the first of its component: no triangle before it
/// has a first vertex that is linked to the first vertex of `i`.
pub open spec fn leads(tris: Seq<Triangle>, i: int) -> bool {
    forall|j: int| 0 <= j < i ==> !linked(tris, (#[trigger] tris[j]).v0, tris[i].v0)
}

/// The triangles among the first `n` that are the first of their component,
/// in order.
pub open spec fn leaders(tris: Seq<Triangle>, n: nat) -> Seq<int>
    decreases n,
{
    if n == 0 {
        Seq::empty()
    } else if leads(tris, n - 1) {
        leaders(tris, (n - 1) as nat).push(n - 1)
    } else {
        leaders(tris, (n - 1) as nat)
    }
}

/// The test for the triangles of the component of triangle `lead`.
pub open spec fn with_leader(tris: Seq<Triangle>, lead: int) -> spec_fn(Triangle) -> bool {
    |t: Triangle| linked(tris, t.v0, tris[lead].v0)
}

/// The connected components of a list of triangles: one list for each
/// component, in the order in which the components first occur, each with
/// the triangles of its component in their old order.
pub open spec fn islands(tris: Seq<Triangle>) -> Seq<Seq<Triangle>> {
    leaders(tris, tris.len()).map_values(|lead: int| tris.filter(with_leader(tris, lead)))
}

/// A filter that no item passes leaves nothing.
pub proof fn lemma_filter_none<T>(s: Seq<T>, pred: spec_fn(T) -> bool)
    requires
        forall|i: int| 0 <= i < s.len() ==> !pred(#[trigger] s[i]),
    ensures
        s.filter(pred) == Seq::<T>::empty(),
    decreases s.len(),
{
    reveal(Seq::filter);
    if s.len() > 0 {
        lemma_filter_none(s.drop_last(), pred);
    }
}

/// Whether a forest over the slots of the given points holds two points in
/// one tree exactly where the edges join them. The points take the first
/// slots; the slots after them are free, and each is a tree of its own.
pub open spec fn consistent(
    ids: Seq<usize>,
    dist: Seq<nat>,
    points: Seq<Point>,
    edges: Seq<(Point, Point)>,
) -> bool {
    let n = points.len();
    &&& n <= ids.len()
    &&& forest(ids, dist)
    &&& forall|i: int| 0 <= i < n ==> (#[trigger] ids[i]) < n
    &&& forall|i: int| n <= i < ids.len() ==> (#[trigger] ids[i]) == i
    &&& forall|k: int|
        0 <= k < edges.len() ==> points.contains((#[trigger] edges[k]).0) && points.contains(
            edges[k].1,
        )
    &&& forall|i: int, j: int|
        0 <= i < n && 0 <= j < n ==> (#[trigger] find(ids, dist, i) == #[trigger] find(
            ids,
            dist,
            j,
        ) <==> joined(edges, points[i], points[j]))
}

/// Connected components of a mesh: the triangles are handed in one by one,
/// and handed out again grouped by the vertices they share.
pub struct UnionFind {
    ids: Vec<usize>,
    elements: PointIndex,
    triangles: Vec<Triangle>,
    dist: Ghost<Seq<nat>>,
    edges: Ghost<Seq<(Point, Point)>>,
}

impl View for UnionFind {
    type V = Seq<Triangle>;

    /// The triangles handed in so far, in order.
    closed spec fn view(&self) -> Seq<Triangle> {
        self.triangles@
    }
}

impl UnionFind {
    /// The number of distinct points that the structure has room for.
    pub closed spec fn capacity(&self) -> nat {
        self.ids@.len()
    }

    /// The distinct points seen so far, in the order in which they came.
    pub closed spec fn points(&self) -> Seq<Point> {
        self.elements@
    }

    /// What holds between calls of the private methods.
    closed spec fn inv(&self) -> bool {
        &&& self.elements.wf()
        &&& consistent(self.ids@, self.dist@, self.elements@, self.edges@)
    }

    /// Whether the structure is consistent: it has room for the points it
    /// has seen, and it holds two of them in one component exactly where
    /// they are joined by a chain of edges of the triangles handed in.
    pub closed spec fn wf(&self) -> bool {
        &&& self.inv()
        &&& self.edges@ == edges_of(self.triangles@)
    }

    /// A structure with room for `size` distinct points.
    pub fn new(size: usize) -> (uf: UnionFind)
        ensures
            uf.wf(),
            uf@ == Seq::<Triangle>::empty(),
            uf.points() == Seq::<Point>::empty(),
            uf.capacity() == size,
    {
        let mut ids: Vec<usize> = Vec::new();
        let mut i: usize = 0;
        while i < size
            invariant
                i <= size,
                ids@.len() == i,
                forall|j: int| 0 <= j < i ==> (#[trigger] ids@[j]) == j,
            decreases size - i,
        {
            ids.push(i);
            i += 1;
        }
        let uf = UnionFind {
            ids,
            elements: PointIndex::new(),
            triangles: Vec::new(),
            dist: Ghost(Seq::new(size as nat, |j: int| 0nat)),
            edges: Ghost(Seq::empty()),
        };
        assert(uf.edges@ =~= edges_of(uf.triangles@));
        uf
    }

    /// In a consistent structure no point is counted twice, and the points
    /// fit.
    pub proof fn lemma_points_fit(&self)
        requires
            self.wf(),
        ensures
            self.points().no_duplicates(),
            self.points().len() <= self.capacity(),
    {
        self.elements.lemma_distinct();
    }

    fn get_id_for_point(&mut self, point: Point) -> (id: usize)
        requires
            old(self).inv(),
            with_point(old(self).elements@, point).len() <= old(self).ids@.len(),
        ensures
            final(self).inv(),
            final(self).elements@ == with_point(old(self).elements@, point),
            id < final(self).elements@.len(),
            final(self).elements@[id as int] == point,
            final(self).ids == old(self).ids,
            final(self).dist == old(self).dist,
            final(self).edges == old(self).edges,
            final(self).triangles == old(self).triangles,
    {
        let ghost before = old(self).elements@;
        let ghost known = before.contains(point);
        assert(self.ids.len() == self.ids@.len());
        let id = self.elements.intern(point);
        proof {
            let n = self.elements@.len() as int;
            assert(self.edges@ == old(self).edges@);
            if !known {
                assert forall|k: int| 0 <= k < self.edges@.len() implies self.elements@.contains(
                    (#[trigger] self.edges@[k]).0,
                ) && self.elements@.contains(self.edges@[k].1) by {
                    let a = self.edges@[k].0;
                    let b = self.edges@[k].1;
                    assert(before.contains(a) && before.contains(b));
                    let ia = choose|i: int| 0 <= i < before.len() && before[i] == a;
                    let ib = choose|i: int| 0 <= i < before.len() && before[i] == b;
                    assert(self.elements@[ia] == a);
                    assert(self.elements@[ib] == b);
                }
                assert forall|k: int| 0 <= k < self.edges@.len() implies (
                #[trigger] self.edges@[k]).0 != point && self.edges@[k].1 != point by {
                    assert(before.contains(self.edges@[k].0));
                    assert(before.contains(self.edges@[k].1));
                }
                assert forall|i: int| 0 <= i < n - 1 implies find(self.ids@, self.dist@, i) < n
                    - 1 by {
                    Self::lemma_root_is_registered(self.ids@, self.dist@, n - 1, i);
                }
                assert(find(self.ids@, self.dist@, n - 1) == n - 1);
                assert forall|i: int, j: int| 0 <= i < n && 0 <= j < n implies (
                #[trigger] find(self.ids@, self.dist@, i) == #[trigger] find(
                    self.ids@,
                    self.dist@,
                    j,
                ) <==> joined(
                    self.edges@,
                    self.elements@[i],
                    self.elements@[j],
                )) by {
                    lemma_stranger(self.edges@, point, self.elements@[i]);
                    lemma_stranger(self.edges@, point, self.elements@[j]);
                    if i < n - 1 && j < n - 1 {
                        assert(before[i] == self.elements@[i]);
                        assert(before[j] == self.elements@[j]);
                    } else if i < n - 1 {
                        assert(before[i] == self.elements@[i]);
                        assert(before.contains(before[i]));
                    } else if j < n - 1 {
                        assert(before[j] == self.elements@[j]);
                        assert(before.contains(before[j]));
                    }
                }
            } else {
                assert forall|i: int, j: int| 0 <= i < n && 0 <= j < n implies (
                #[trigger] find(self.ids@, self.dist@, i) == #[trigger] find(
                    self.ids@,
                    self.dist@,
                    j,
                ) <==> joined(
                    self.edges@,
                    self.elements@[i],
                    self.elements@[j],
                )) by {
                    assert(before[i] == self.elements@[i]);
                    assert(before[j] == self.elements@[j]);
                }
            }
        }
        id
    }

    /// The root of a slot among the first `n`, none of which points beyond
    /// them, is among them.
    proof fn lemma_root_is_registered(ids: Seq<usize>, dist: Seq<nat>, n: int, i: int)
        requires
            forest(ids, dist),
            0 <= i < n <= ids.len(),
            forall|k: int| 0 <= k < n ==> (#[trigger] ids[k]) < n,
        ensures
            0 <= find(ids, dist, i) < n,
        decreases dist[i],
    {
        if ids[i] != i {
            Self::lemma_root_is_registered(ids, dist, n, ids[i] as int);
        }
    }

    /// The root of the component of `point`. Every slot passed on the way
    /// is pointed straight at the root.
    fn root(&mut self, point: Point) -> (r: usize)
        requires
            old(self).inv(),
            with_point(old(self).elements@, point).len() <= old(self).ids@.len(),
        ensures
            final(self).inv(),
            final(self).elements@ == with_point(old(self).elements@, point),
            final(self).elements@.contains(point),
            r == find(
                final(self).ids@,
                final(self).dist@,
                final(self).elements@.index_of(point),
            ),
            r < final(self).elements@.len(),
            forall|j: int|
                0 <= j < final(self).ids@.len() ==> #[trigger] find(
                    final(self).ids@,
                    final(self).dist@,
                    j,
                ) == find(old(self).ids@, old(self).dist@, j),
            final(self).ids@.len() == old(self).ids@.len(),
            final(self).edges == old(self).edges,
            final(self).triangles == old(self).triangles,
    {
        let start = self.get_id_for_point(point);
        let ghost n = self.elements@.len() as int;
        let ghost ids0 = self.ids@;
        let ghost dist = self.dist@;
        proof {
            self.elements.lemma_distinct();
            assert(self.elements@.contains(point));
            assert(self.elements@.index_of(point) == start);
        }

        let mut root = start;
        while root != self.ids[root]
            invariant
                self.inv(),
                self.ids@ == ids0,
                self.dist@ == dist,
                root < n,
                n == self.elements@.len(),
                find(ids0, dist, root as int) == find(ids0, dist, start as int),
            decreases dist[root as int],
        {
            proof {
                lemma_find_is_root(ids0, dist, root as int);
            }
            root = self.ids[root];
        }
        assert(find(ids0, dist, start as int) == root);

        let mut id = start;
        while root != id
            invariant
                self.elements@ == with_point(old(self).elements@, point),
                self.elements.wf(),
                self.edges == old(self).edges,
                self.triangles == old(self).triangles,
                self.dist@ == dist,
                n == self.elements@.len(),
                n <= self.ids@.len(),
                self.ids@.len() == ids0.len(),
                forest(self.ids@, dist),
                forall|i: int| 0 <= i < n ==> (#[trigger] self.ids@[i]) < n,
                forall|i: int| n <= i < self.ids@.len() ==> (#[trigger] self.ids@[i]) == i,
                forall|j: int|
                    0 <= j < ids0.len() ==> find(self.ids@, dist, j) == find(ids0, dist, j),
                forall|k: int|
                    0 <= k < self.edges@.len() ==> self.elements@.contains(
                        (#[trigger] self.edges@[k]).0,
                    ) && self.elements@.contains(self.edges@[k].1),
                forall|i: int, j: int|
                    0 <= i < n && 0 <= j < n ==> (#[trigger] find(ids0, dist, i) == #[trigger] find(
                        ids0,
                        dist,
                        j,
                    ) <==> joined(self.edges@, self.elements@[i], self.elements@[j])),
                id < n,
                root < n,
                find(self.ids@, dist, id as int) == root,
            decreases dist[id as int],
        {
            let next = self.ids[id];
            proof {
                let now = self.ids@;
                lemma_find_is_root(now, dist, id as int);
                assert forall|j: int| 0 <= j < now.len() implies find(
                    now.update(id as int, root),
                    dist,
                    j,
                ) == find(now, dist, j) by {
                    lemma_compress(now, dist, id as int, j);
                }
                lemma_compress(now, dist, id as int, 0);
            }
            self.ids[id] = root;
            id = next;
        }
        proof {
            assert forall|i: int, j: int| 0 <= i < n && 0 <= j < n implies (
            #[trigger] find(self.ids@, self.dist@, i) == #[trigger] find(
                    self.ids@,
                    self.dist@,
                    j,
                ) <==> joined(
                self.edges@,
                self.elements@[i],
                self.elements@[j],
            )) by {
                assert(find(self.ids@, dist, i) == find(ids0, dist, i));
                assert(find(self.ids@, dist, j) == find(ids0, dist, j));
            }
        }

        root
    }

    /// Joins the components of two points.
    fn connect_points(&mut self, one: Point, two: Point)
        requires
            old(self).inv(),
            with_point(with_point(old(self).elements@, one), two).len() <= old(self).ids@.len(),
        ensures
            final(self).inv(),
            final(self).elements@ == with_point(with_point(old(self).elements@, one), two),
            final(self).ids@.len() == old(self).ids@.len(),
            final(self).edges@ == old(self).edges@.push((one, two)),
            final(self).triangles == old(self).triangles,
    {
        let root_one = self.root(one);
        let ghost mid = *self;
        let root_two = self.root(two);
        let ghost met = *self;
        let ghost n = self.elements@.len() as int;
        let ghost a = self.elements@.index_of(one);
        let ghost b = self.elements@.index_of(two);
        let ghost edges = self.edges@;
        proof {
            self.elements.lemma_distinct();
            mid.elements.lemma_distinct();
            assert(mid.elements@.contains(one));
            let a0 = mid.elements@.index_of(one);
            assert(self.elements@[a0] == one);
            assert(self.elements@.contains(one));
            assert(a == a0);
            assert(root_one == find(self.ids@, self.dist@, a));
            assert(root_two == find(self.ids@, self.dist@, b));
            lemma_find_is_root(self.ids@, self.dist@, a);
            lemma_find_is_root(self.ids@, self.dist@, b);
            assert(edges.push((one, two)).drop_last() =~= edges);
        }

        if root_one != root_two {
            proof {
                assert forall|j: int| 0 <= j < self.ids@.len() implies find(
                    self.ids@.update(root_one as int, root_two),
                    hung(self.ids@, self.dist@, root_one as int, root_two as int),
                    j,
                ) == (if find(self.ids@, self.dist@, j) == root_one {
                    root_two as int
                } else {
                    find(self.ids@, self.dist@, j)
                }) by {
                    lemma_unite(self.ids@, self.dist@, root_one as int, root_two as int, j);
                }
                lemma_unite(self.ids@, self.dist@, root_one as int, root_two as int, 0);
            }
            self.dist = Ghost(hung(self.ids@, self.dist@, root_one as int, root_two as int));
            self.ids[root_one] = root_two;
        }
        self.edges = Ghost(edges.push((one, two)));
        proof {
            assert forall|k: int| 0 <= k < self.edges@.len() implies self.elements@.contains(
                (#[trigger] self.edges@[k]).0,
            ) && self.elements@.contains(self.edges@[k].1) by {
                if k < edges.len() {
                    assert(self.edges@[k] == edges[k]);
                }
            }
            assert forall|i: int, j: int| 0 <= i < n && 0 <= j < n implies (
            #[trigger] find(self.ids@, self.dist@, i) == #[trigger] find(
                    self.ids@,
                    self.dist@,
                    j,
                ) <==> joined(
                self.edges@,
                self.elements@[i],
                self.elements@[j],
            )) by {
                assert(find(met.ids@, met.dist@, i) == find(met.ids@, met.dist@, a) <==> joined(
                    edges,
                    self.elements@[i],
                    one,
                ));
                assert(find(met.ids@, met.dist@, i) == find(met.ids@, met.dist@, b) <==> joined(
                    edges,
                    self.elements@[i],
                    two,
                ));
                assert(find(met.ids@, met.dist@, j) == find(met.ids@, met.dist@, a) <==> joined(
                    edges,
                    self.elements@[j],
                    one,
                ));
                assert(find(met.ids@, met.dist@, j) == find(met.ids@, met.dist@, b) <==> joined(
                    edges,
                    self.elements@[j],
                    two,
                ));
                assert(find(met.ids@, met.dist@, i) == find(met.ids@, met.dist@, j) <==> joined(
                    edges,
                    self.elements@[i],
                    self.elements@[j],
                ));
            }
        }
    }

    /// Takes a triangle in: its three vertices are from now on in one
    /// component.
    pub fn add_triangle(&mut self, triangle: Triangle)
        requires
            old(self).wf(),
            with_point(
                with_point(with_point(old(self).points(), triangle.v0), triangle.v1),
                triangle.v2,
            ).len() <= old(self).capacity(),
        ensures
            final(self).wf(),
            final(self)@ == old(self)@.push(triangle),
            final(self).points() == with_point(
                with_point(with_point(old(self).points(), triangle.v0), triangle.v1),
                triangle.v2,
            ),
            final(self).capacity() == old(self).capacity(),
    {
        proof {
            let seen = old(self).elements@;
            let with_first = with_point(seen, triangle.v0);
            let with_both = with_point(with_first, triangle.v1);
            assert(with_point(with_both, triangle.v0) == with_both) by {
                assert(with_first.contains(triangle.v0)) by {
                    if seen.contains(triangle.v0) {
                    } else {
                        assert(with_first[seen.len() as int] == triangle.v0);
                    }
                }
                let i = choose|i: int| 0 <= i < with_first.len() && with_first[i] == triangle.v0;
                assert(with_both[i] == triangle.v0);
            }
        }
        self.connect_points(triangle.v0, triangle.v1);
        self.connect_points(triangle.v0, triangle.v2);

        self.triangles.push(triangle);
        assert(self.edges@ =~= edges_of(self.triangles@));
    }

    /// The connected components of the triangles handed in, each as a mesh
    /// of its own.
    pub fn files(&mut self) -> (meshes: Vec<StlFile>)
        requires
            old(self).wf(),
        ensures
            final(self).wf(),
            final(self)@ == old(self)@,
            final(self).points() == old(self).points(),
            final(self).capacity() == old(self).capacity(),
            meshes@.len() == islands(old(self)@).len(),
            forall|k: int|
                0 <= k < meshes@.len() ==> (#[trigger] meshes@[k]).wf() && meshes@[k]@ == islands(
                    old(self)@,
                )[k],
    {
        let mut map: HashMap<usize, usize> = HashMap::new();
        let mut groups: Vec<StlFile> = Vec::new();
        let ghost tris = self.triangles@;
        let ghost points = self.elements@;
        let ghost edges = self.edges@;
        let ghost roots = Seq::new(points.len(), |j: int| find(self.ids@, self.dist@, j));
        let ghost mut lead: Seq<int> = Seq::empty();
        let n = self.triangles.len();
        let mut i: usize = 0;
        proof {
            self.elements.lemma_distinct();
        }
        while i < n
            invariant
                i <= n,
                n == tris.len(),
                self.inv(),
                self.triangles@ == tris,
                self.elements@ == points,
                self.edges@ == edges,
                edges == edges_of(tris),
                self.ids@.len() == old(self).ids@.len(),
                points.no_duplicates(),
                roots.len() == points.len(),
                forall|j: int|
                    0 <= j < points.len() ==> find(self.ids@, self.dist@, j) == #[trigger] roots[j],
                forall|a: int, b: int|
                    0 <= a < points.len() && 0 <= b < points.len() ==> (#[trigger] roots[a]
                        == #[trigger] roots[b] <==> joined(edges, points[a], points[b])),
                lead == leaders(tris, i as nat),
                groups@.len() == lead.len(),
                forall|g: int| 0 <= g < lead.len() ==> 0 <= #[trigger] lead[g] < i,
                forall|g: int|
                    0 <= g < groups@.len() ==> (#[trigger] groups@[g]).wf() && groups@[g]@
                        == tris.take(i as int).filter(with_leader(tris, lead[g])),
                forall|r: usize| #[trigger]
                    map@.contains_key(r) ==> map@[r] < lead.len() && roots[points.index_of(
                        tris[lead[map@[r] as int]].v0,
                    )] == r,
                forall|g: int|
                    0 <= g < lead.len() ==> map@.contains_key(
                        roots[points.index_of(tris[#[trigger] lead[g]].v0)] as usize,
                    ) && map@[roots[points.index_of(tris[lead[g]].v0)] as usize] == g,
                forall|j: int|
                    0 <= j < i ==> map@.contains_key(
                        roots[points.index_of((#[trigger] tris[j]).v0)] as usize,
                    ),
            decreases n - i,
        {
            broadcast use vstd::std_specs::hash::group_hash_axioms;

            let triangle = self.triangles[i];
            let ghost slot = points.index_of(triangle.v0);
            proof {
                assert(edges[2 * i] == (triangle.v0, triangle.v1));
                assert(points.contains(edges[2 * i].0));
                assert forall|j: int| 0 <= j <= i implies points.contains(
                    (#[trigger] tris[j]).v0,
                ) by {
                    assert(edges[2 * j] == (tris[j].v0, tris[j].v1));
                    assert(points.contains(edges[2 * j].0));
                }
                assert forall|g: int| 0 <= g < lead.len() implies points.contains(
                    tris[#[trigger] lead[g]].v0,
                ) by {
                    assert(points.contains(tris[lead[g]].v0));
                }
            }
            let root = self.root(triangle.v0);
            assert(root == roots[slot]);
            let ghost done = tris.take(i as int);
            assert(tris.take(i + 1) =~= done.push(triangle));

            match map.get(&root) {
                Some(found) => {
                    let g = *found;
                    groups[g].add_triangle(triangle);
                    proof {
                        let l = lead[g as int];
                        assert(roots[points.index_of(tris[l].v0)] == roots[slot]);
                        assert(linked(tris, tris[l].v0, triangle.v0));
                        assert(!leads(tris, i as int));
                        assert forall|h: int| 0 <= h < groups@.len() implies (
                        #[trigger] groups@[h]).wf() && groups@[h]@ == tris.take(i + 1).filter(
                            with_leader(tris, lead[h]),
                        ) by {
                            done.lemma_filter_push(triangle, with_leader(tris, lead[h]));
                            let lh = lead[h];
                            assert(points.contains(tris[lh].v0));
                            if h != g {
                                assert(roots[points.index_of(tris[lh].v0)] != roots[slot]);
                            }
                        }
                    }
                },
                None => {
                    let mut file = StlFile::new();
                    file.add_triangle(triangle);
                    map.insert(root, groups.len());
                    groups.push(file);
                    proof {
                        assert forall|j: int| 0 <= j < i implies !linked(
                            tris,
                            (#[trigger] tris[j]).v0,
                            tris[i as int].v0,
                        ) by {
                            assert(points.contains(tris[j].v0));
                            assert(roots[points.index_of(tris[j].v0)] != roots[slot]);
                        }
                        assert(leads(tris, i as int));
                        let old_lead = lead;
                        lead = lead.push(i as int);
                        lemma_joined_reflexive(edges, triangle.v0);
                        assert forall|h: int| 0 <= h < groups@.len() implies (
                        #[trigger] groups@[h]).wf() && groups@[h]@ == tris.take(i + 1).filter(
                            with_leader(tris, lead[h]),
                        ) by {
                            done.lemma_filter_push(triangle, with_leader(tris, lead[h]));
                            if h < old_lead.len() {
                                let lh = lead[h];
                                assert(lh == old_lead[h]);
                                assert(points.contains(tris[lh].v0));
                                assert(roots[points.index_of(tris[lh].v0)] != roots[slot]);
                            } else {
                                assert forall|j: int| 0 <= j < done.len() implies !with_leader(
                                    tris,
                                    i as int,
                                )(#[trigger] done[j]) by {
                                    assert(done[j] == tris[j]);
                                    assert(points.contains(tris[j].v0));
                                    assert(roots[points.index_of(tris[j].v0)] != roots[slot]);
                                }
                                lemma_filter_none(done, with_leader(tris, i as int));
                                assert(groups@[h]@ =~= Seq::<Triangle>::empty().push(triangle));
                            }
                        }
                        assert forall|g: int| 0 <= g < lead.len() implies map@.contains_key(
                            roots[points.index_of(tris[#[trigger] lead[g]].v0)] as usize,
                        ) && map@[roots[points.index_of(tris[lead[g]].v0)] as usize] == g by {
                            if g < old_lead.len() {
                                assert(lead[g] == old_lead[g]);
                            }
                        }
                    }
                },
            }
            i += 1;
        }
        proof {
            assert(tris.take(n as int) =~= tris);
        }
        groups
    }
}

} // verus!
