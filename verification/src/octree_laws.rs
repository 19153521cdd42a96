use crate::bbox::BoundingBox;
use crate::mesh::{hull, lemma_hull_encloses, points_of, vertex_of};
use crate::octree::{
    insert_model, lists, node_wf, within, OctantView, Octree, Region, DEPTH_LIMIT, TRIANGLE_LIMIT,
};
use crate::octree_lemmas::{lemma_all_ids_count, lemma_list_is_unique};
use crate::tally::{lemma_total_covers, total};
use crate::vertex::{Point, Triangle};
use vstd::prelude::*;

verus! {

/// Partition: in a well-formed tree the triangle lists of all octants
/// together name each triangle of the arena exactly once, and name nothing
/// else.
pub proof fn lemma_partition_complete(tree: Octree, t: usize)
    requires
        tree.wf(),
    ensures
        total(lists(tree.nodes())).count(t) == (if t < tree.triangles@.len() {
            1nat
        } else {
            0nat
        }),
{
    assert(tree.triangles.len() == tree.triangles@.len());
    lemma_all_ids_count(tree.triangles@.len(), t);
}

/// An id that occurs among the ids of all lists occurs in one of the lists.
proof fn lemma_total_finds(ls: Seq<Seq<usize>>, t: usize) -> (at: (int, int))
    requires
        total(ls).count(t) > 0,
    ensures
        0 <= at.0 < ls.len(),
        0 <= at.1 < ls[at.0].len(),
        ls[at.0][at.1] == t,
    decreases ls.len(),
{
    broadcast use vstd::multiset::group_multiset_axioms;

    if ls.len() == 0 {
        (0, 0)
    } else if ls.last().to_multiset().count(t) > 0 {
        ls.last().to_multiset_ensures();
        assert(ls.last().contains(t));
        let j = choose|j: int| 0 <= j < ls.last().len() && ls.last()[j] == t;
        (ls.len() - 1, j)
    } else {
        lemma_total_finds(ls.drop_last(), t)
    }
}

/// An id counts among the ids of all lists at least as often as in two of
/// the lists together.
proof fn lemma_total_covers_two(ls: Seq<Seq<usize>>, a: int, b: int, t: usize)
    requires
        0 <= a < b < ls.len(),
    ensures
        ls[a].to_multiset().count(t) + ls[b].to_multiset().count(t) <= total(ls).count(t),
    decreases ls.len(),
{
    broadcast use vstd::multiset::group_multiset_axioms;

    if b < ls.len() - 1 {
        lemma_total_covers_two(ls.drop_last(), a, b, t);
    } else {
        lemma_total_covers(ls.drop_last(), a, t);
    }
}

/// No omission: every triangle of the arena stands in the list of some
/// octant.
pub proof fn lemma_no_omission(tree: Octree, t: usize) -> (at: (int, int))
    requires
        tree.wf(),
        t < tree.triangles@.len(),
    ensures
        0 <= at.0 < tree.nodes().len(),
        0 <= at.1 < tree.nodes()[at.0].triangle_ids.len(),
        tree.nodes()[at.0].triangle_ids[at.1] == t,
{
    lemma_partition_complete(tree, t);
    lemma_total_finds(lists(tree.nodes()), t)
}

/// No duplicate: a triangle stands at one place only, and every name in a
/// list is that of a triangle of the arena.
pub proof fn lemma_no_duplicate(tree: Octree, o1: int, j1: int, o2: int, j2: int)
    requires
        tree.wf(),
        0 <= o1 < tree.nodes().len(),
        0 <= j1 < tree.nodes()[o1].triangle_ids.len(),
        0 <= o2 < tree.nodes().len(),
        0 <= j2 < tree.nodes()[o2].triangle_ids.len(),
        tree.nodes()[o1].triangle_ids[j1] == tree.nodes()[o2].triangle_ids[j2],
    ensures
        o1 == o2 && j1 == j2,
        tree.nodes()[o1].triangle_ids[j1] < tree.triangles@.len(),
{
    broadcast use vstd::multiset::group_multiset_axioms;

    let nodes = tree.nodes();
    let t = nodes[o1].triangle_ids[j1];
    assert(node_wf(nodes, tree.triangles@, tree.triangles@.len(), o1));
    lemma_partition_complete(tree, t);
    assert(tree.triangles.len() == tree.triangles@.len());
    if o1 == o2 {
        lemma_list_is_unique(nodes, tree.triangles@, tree.triangles@.len(), o1);
    } else {
        let a = if o1 < o2 {
            o1
        } else {
            o2
        };
        let b = if o1 < o2 {
            o2
        } else {
            o1
        };
        lemma_total_covers_two(lists(nodes), a, b, t);
        nodes[o1].triangle_ids.to_multiset_ensures();
        nodes[o2].triangle_ids.to_multiset_ensures();
        assert(nodes[o1].triangle_ids.contains(t));
        assert(nodes[o2].triangle_ids.contains(t));
        assert(lists(nodes)[o1] == nodes[o1].triangle_ids);
        assert(lists(nodes)[o2] == nodes[o2].triangle_ids);
    }
}

/// Depth: no octant of a well-formed tree lies deeper than the limit.
pub proof fn lemma_depth_bound(tree: Octree, o: int)
    requires
        tree.wf(),
        0 <= o < tree.nodes().len(),
    ensures
        tree.nodes()[o].depth <= DEPTH_LIMIT,
{
    assert(node_wf(tree.nodes(), tree.triangles@, tree.triangles@.len(), o));
}

/// Threshold: an octant within whose region fewer triangles of the arena lie
/// than the limit has not been split.
pub proof fn lemma_split_threshold(tree: Octree, o: int)
    requires
        tree.wf(),
        0 <= o < tree.nodes().len(),
        within(tree.nodes()[o].region(), tree.triangles@).len() < TRIANGLE_LIMIT,
    ensures
        tree.nodes()[o].children is None,
{
    assert(node_wf(tree.nodes(), tree.triangles@, tree.triangles@.len(), o));
}

/// Each triangle stands at an octant whose region holds it; where that
/// octant has been split, none of the eight regions below holds the
/// triangle; where it has not and may still be, it names no more triangles
/// than the limit.
pub proof fn lemma_triangle_placement(tree: Octree, o: int, j: int)
    requires
        tree.wf(),
        0 <= o < tree.nodes().len(),
        0 <= j < tree.nodes()[o].triangle_ids.len(),
    ensures
        tree.nodes()[o].triangle_ids[j] < tree.triangles@.len(),
        tree.nodes()[o].holds_triangle(tree.triangles@[tree.nodes()[o].triangle_ids[j] as int]),
        tree.nodes()[o].children is Some ==> tree.nodes()[o].region().keeps(
            tree.triangles@[tree.nodes()[o].triangle_ids[j] as int],
        ),
        tree.nodes()[o].children is None && tree.nodes()[o].depth < DEPTH_LIMIT
            ==> tree.nodes()[o].triangle_ids.len() <= TRIANGLE_LIMIT,
{
    assert(node_wf(tree.nodes(), tree.triangles@, tree.triangles@.len(), o));
}

/// A tree over fewer triangles than the limit is its root alone, which
/// names them all in order.
pub proof fn lemma_few_triangles_one_octant(root: OctantView, tris: Seq<Triangle>, n: nat)
    requires
        n <= tris.len(),
        n <= TRIANGLE_LIMIT,
        root.children is None,
        root.triangle_ids.len() == 0,
    ensures
        Octree::grown(root, tris, n) == seq![
            OctantView { triangle_ids: Seq::new(n, |i: int| i as usize), ..root },
        ],
    decreases n,
{
    if n == 0 {
        assert(root.triangle_ids =~= Seq::new(0, |i: int| i as usize));
    } else {
        lemma_few_triangles_one_octant(root, tris, (n - 1) as nat);
        let before = Octree::grown(root, tris, (n - 1) as nat);
        let after = insert_model(before, tris.take(n as int), 0, (n - 1) as usize);
        assert(!before[0].splits());
        assert(before[0].triangle_ids.push((n - 1) as usize) =~= Seq::new(n, |i: int| i as usize));
        assert(after =~= seq![
            OctantView { triangle_ids: Seq::new(n, |i: int| i as usize), ..root },
        ]);
    }
}

/// Whether a box falls short of the whole range of coordinates along every
/// axis.
pub open spec fn leaves_room(b: BoundingBox) -> bool {
    &&& b.max.x - b.min.x < u64::MAX
    &&& b.max.y - b.min.y < u64::MAX
    &&& b.max.z - b.min.z < u64::MAX
}

/// The root octant over a box that leaves room holds every point of the
/// box.
pub proof fn lemma_root_holds_box(b: BoundingBox, p: Point)
    requires
        leaves_room(b),
        b.encloses(p),
    ensures
        Octree::root_of(b).holds_point(p),
{
}

/// The root octant over the bounding box of a mesh holds every triangle of
/// the mesh, if the box leaves room.
pub proof fn lemma_root_holds_mesh(facets: Seq<Triangle>, i: int)
    requires
        0 <= i < facets.len(),
        leaves_room(hull(points_of(facets), points_of(facets).len())),
    ensures
        Octree::root_of(hull(points_of(facets), points_of(facets).len())).holds_triangle(
            facets[i],
        ),
{
    let points = points_of(facets);
    let b = hull(points, points.len());
    lemma_hull_encloses(points, points.len(), 3 * i);
    lemma_hull_encloses(points, points.len(), 3 * i + 1);
    lemma_hull_encloses(points, points.len(), 3 * i + 2);
    assert(points[3 * i] == vertex_of(facets, 3 * i));
    assert(points[3 * i + 1] == vertex_of(facets, 3 * i + 1));
    assert(points[3 * i + 2] == vertex_of(facets, 3 * i + 2));
    lemma_root_holds_box(b, facets[i].v0);
    lemma_root_holds_box(b, facets[i].v1);
    lemma_root_holds_box(b, facets[i].v2);
}

/// Whether the region lies within the range of coordinates, and its
/// radius is not negative.
pub open spec fn in_range(region: Region) -> bool {
    &&& 0 <= region.radius.x && 0 <= region.radius.y && 0 <= region.radius.z
    &&& i64::MIN <= region.center.x - region.radius.x && region.center.x + region.radius.x
        <= i64::MAX
    &&& i64::MIN <= region.center.y - region.radius.y && region.center.y + region.radius.y
        <= i64::MAX
    &&& i64::MIN <= region.center.z - region.radius.z && region.center.z + region.radius.z
        <= i64::MAX
}

/// The number of the region below a center on the given sides of it.
pub open spec fn octant_toward(right: bool, up: bool, front: bool) -> int {
    if right {
        if up {
            if front {
                1
            } else {
                2
            }
        } else {
            if front {
                0
            } else {
                3
            }
        }
    } else {
        if up {
            if front {
                6
            } else {
                7
            }
        } else {
            if front {
                5
            } else {
                4
            }
        }
    }
}

/// Cover: the eight regions below a region leave no point of it out. A
/// point lies in the one on its side of the center along each axis.
pub proof fn lemma_children_cover(region: Region, p: Point)
    requires
        in_range(region),
        region.holds_point(p),
    ensures
        region.below(
            octant_toward(p.x >= region.center.x, p.y >= region.center.y, p.z >= region.center.z),
        ).holds_point(p),
{
}

} // verus!
