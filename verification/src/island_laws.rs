use crate::tally::{lemma_total_push, lemma_total_update, total};
use crate::union_find::{
    edges_of, islands, joined, leaders, leads, lemma_filter_none, lemma_joined_reflexive, linked,
    with_leader,
};
use crate::vertex::{Point, Triangle};
use vstd::prelude::*;

verus! {

/// Being joined goes both ways.
pub proof fn lemma_joined_symmetric(edges: Seq<(Point, Point)>, p: Point, q: Point)
    requires
        joined(edges, p, q),
    ensures
        joined(edges, q, p),
    decreases edges.len(),
{
    if edges.len() > 0 {
        let before = edges.drop_last();
        if joined(before, p, q) {
            lemma_joined_symmetric(before, p, q);
        }
    }
}

/// What is joined to the same point is joined.
pub proof fn lemma_joined_transitive(edges: Seq<(Point, Point)>, p: Point, q: Point, r: Point)
    requires
        joined(edges, p, q),
        joined(edges, q, r),
    ensures
        joined(edges, p, r),
    decreases edges.len(),
{
    if edges.len() > 0 {
        let before = edges.drop_last();
        let (a, b) = edges.last();
        if joined(before, p, q) {
            if joined(before, q, r) {
                lemma_joined_transitive(before, p, q, r);
            } else {
                if joined(before, q, a) {
                    lemma_joined_transitive(before, p, q, a);
                }
                if joined(before, q, b) {
                    lemma_joined_transitive(before, p, q, b);
                }
            }
        } else if joined(before, q, r) {
            lemma_joined_symmetric(before, q, r);
            if joined(before, q, a) {
                lemma_joined_transitive(before, r, q, a);
            }
            if joined(before, q, b) {
                lemma_joined_transitive(before, r, q, b);
            }
        }
    }
}

/// The two ends of an edge are joined.
pub proof fn lemma_edge_joins(edges: Seq<(Point, Point)>, k: int)
    requires
        0 <= k < edges.len(),
    ensures
        joined(edges, edges[k].0, edges[k].1),
    decreases edges.len(),
{
    let before = edges.drop_last();
    if k == edges.len() - 1 {
        lemma_joined_reflexive(before, edges[k].0);
        lemma_joined_reflexive(before, edges[k].1);
    } else {
        assert(before[k] == edges[k]);
        lemma_edge_joins(before, k);
    }
}

/// The three vertices of a triangle of the list are linked.
pub proof fn lemma_triangle_is_linked(tris: Seq<Triangle>, i: int)
    requires
        0 <= i < tris.len(),
    ensures
        linked(tris, tris[i].v0, tris[i].v1),
        linked(tris, tris[i].v0, tris[i].v2),
        linked(tris, tris[i].v1, tris[i].v2),
{
    let edges = edges_of(tris);
    lemma_edge_joins(edges, 2 * i);
    lemma_edge_joins(edges, 2 * i + 1);
    assert(edges[2 * i] == (tris[i].v0, tris[i].v1));
    assert(edges[2 * i + 1] == (tris[i].v0, tris[i].v2));
    lemma_joined_symmetric(edges, tris[i].v0, tris[i].v1);
    lemma_joined_transitive(edges, tris[i].v1, tris[i].v0, tris[i].v2);
}

/// The leaders among the first `n` triangles are among them, each is the
/// first of its component, and they stand in rising order.
pub proof fn lemma_leaders(tris: Seq<Triangle>, n: nat, g: int)
    requires
        0 <= g < leaders(tris, n).len(),
    ensures
        0 <= leaders(tris, n)[g] < n,
        leads(tris, leaders(tris, n)[g]),
        forall|h: int| 0 <= h < g ==> leaders(tris, n)[h] < leaders(tris, n)[g],
    decreases n,
{
    if n > 0 {
        let before = leaders(tris, (n - 1) as nat);
        if g < before.len() {
            lemma_leaders(tris, (n - 1) as nat, g);
        } else {
            assert forall|h: int| 0 <= h < g implies leaders(tris, n)[h] < leaders(tris, n)[g] by {
                lemma_leaders(tris, (n - 1) as nat, h);
            }
        }
    }
}

/// Each of the first `n` triangles is linked to one of the leaders among
/// them.
pub proof fn lemma_has_leader(tris: Seq<Triangle>, n: nat, j: int) -> (g: int)
    requires
        0 <= j < n <= tris.len(),
    ensures
        0 <= g < leaders(tris, n).len(),
        linked(tris, tris[j].v0, tris[leaders(tris, n)[g]].v0),
    decreases n,
{
    let before = leaders(tris, (n - 1) as nat);
    if j < n - 1 {
        lemma_has_leader(tris, (n - 1) as nat, j)
    } else if leads(tris, n - 1) {
        lemma_joined_reflexive(edges_of(tris), tris[j].v0);
        before.len() as int
    } else {
        let k = choose|k: int| 0 <= k < n - 1 && linked(tris, (#[trigger] tris[k]).v0, tris[j].v0);
        let g = lemma_has_leader(tris, (n - 1) as nat, k);
        lemma_joined_symmetric(edges_of(tris), tris[k].v0, tris[j].v0);
        lemma_joined_transitive(edges_of(tris), tris[j].v0, tris[k].v0, tris[before[g]].v0);
        g
    }
}

/// No point is linked to the first vertices of two leaders.
pub proof fn lemma_one_leader(tris: Seq<Triangle>, n: nat, g: int, h: int, p: Point)
    requires
        n <= tris.len(),
        0 <= g < leaders(tris, n).len(),
        0 <= h < leaders(tris, n).len(),
        linked(tris, p, tris[leaders(tris, n)[g]].v0),
        linked(tris, p, tris[leaders(tris, n)[h]].v0),
    ensures
        g == h,
{
    let lead = leaders(tris, n);
    let edges = edges_of(tris);
    if g != h {
        let (a, b) = if g < h {
            (g, h)
        } else {
            (h, g)
        };
        lemma_leaders(tris, n, a);
        lemma_leaders(tris, n, b);
        lemma_joined_symmetric(edges, p, tris[lead[a]].v0);
        lemma_joined_transitive(edges, tris[lead[a]].v0, p, tris[lead[b]].v0);
        assert(linked(tris, tris[lead[a]].v0, tris[lead[b]].v0));
        assert(leads(tris, lead[b]));
    }
}

/// The components of the first `n` triangles, as far as these go.
pub open spec fn staged(tris: Seq<Triangle>, n: nat) -> Seq<Seq<Triangle>> {
    leaders(tris, n).map_values(|lead: int| tris.take(n as int).filter(with_leader(tris, lead)))
}

/// The components of the first `n` triangles hold each of them once.
pub proof fn lemma_staged(tris: Seq<Triangle>, n: nat)
    requires
        n <= tris.len(),
    ensures
        total(staged(tris, n)) == tris.take(n as int).to_multiset(),
    decreases n,
{
    broadcast use vstd::multiset::group_multiset_axioms;
    broadcast use vstd::seq_lib::to_multiset_len;

    let nothing = Seq::<Triangle>::empty();
    assert(nothing.to_multiset().len() == 0);
    assert(nothing.to_multiset() =~= vstd::multiset::Multiset::<Triangle>::empty());
    if n == 0 {
        assert(tris.take(0) =~= nothing);
    } else {
        let m = (n - 1) as nat;
        lemma_staged(tris, m);
        let t = tris[n - 1];
        let done = tris.take(m as int);
        let lead = leaders(tris, m);
        let edges = edges_of(tris);
        assert(tris.take(n as int) =~= done.push(t));
        vstd::seq_lib::to_multiset_build(done, t);
        if leads(tris, n - 1) {
            assert forall|j: int| 0 <= j < done.len() implies !with_leader(tris, n - 1)(
                #[trigger] done[j],
            ) by {
                assert(done[j] == tris[j]);
            }
            lemma_filter_none(done, with_leader(tris, n - 1));
            done.lemma_filter_push(t, with_leader(tris, n - 1));
            lemma_joined_reflexive(edges, t.v0);
            let fresh = Seq::<Triangle>::empty().push(t);
            assert forall|g: int| 0 <= g < lead.len() implies tris.take(n as int).filter(
                with_leader(tris, lead[g]),
            ) == done.filter(with_leader(tris, lead[g])) by {
                done.lemma_filter_push(t, with_leader(tris, lead[g]));
                lemma_leaders(tris, m, g);
                if linked(tris, t.v0, tris[lead[g]].v0) {
                    lemma_joined_symmetric(edges, t.v0, tris[lead[g]].v0);
                    assert(linked(tris, tris[lead[g]].v0, tris[n - 1].v0));
                    assert(false);
                }
            }
            assert(staged(tris, n) =~= staged(tris, m).push(fresh));
            lemma_total_push(staged(tris, m), fresh);
            vstd::seq_lib::to_multiset_build(nothing, t);
            assert(fresh.to_multiset() =~= vstd::multiset::Multiset::<Triangle>::empty().insert(
                t,
            ));
            assert(total(staged(tris, n)) =~= tris.take(n as int).to_multiset());
        } else {
            let g = lemma_has_leader(tris, n, n - 1);
            let old_list = staged(tris, m)[g];
            assert forall|h: int| 0 <= h < lead.len() implies tris.take(n as int).filter(
                with_leader(tris, lead[h]),
            ) == (if h == g {
                done.filter(with_leader(tris, lead[h])).push(t)
            } else {
                done.filter(with_leader(tris, lead[h]))
            }) by {
                done.lemma_filter_push(t, with_leader(tris, lead[h]));
                lemma_leaders(tris, m, h);
                if linked(tris, t.v0, tris[lead[h]].v0) {
                    lemma_one_leader(tris, m, g, h, t.v0);
                }
            }
            assert(staged(tris, n) =~= staged(tris, m).update(g, old_list.push(t)));
            lemma_total_update(staged(tris, m), g, old_list.push(t));
            vstd::seq_lib::to_multiset_build(old_list, t);
            assert forall|v: Triangle|
                total(staged(tris, n)).count(v) == tris.take(n as int).to_multiset().count(v) by {
                assert(total(staged(tris, n)).add(old_list.to_multiset()).count(v) == total(
                    staged(tris, m),
                ).add(old_list.push(t).to_multiset()).count(v));
            }
            assert(total(staged(tris, n)) =~= tris.take(n as int).to_multiset());
        }
    }
}

/// The components of a list of triangles hold each triangle of the list
/// exactly once: none is lost and none is doubled.
pub proof fn lemma_islands_partition(tris: Seq<Triangle>)
    ensures
        total(islands(tris)) == tris.to_multiset(),
{
    lemma_staged(tris, tris.len());
    assert(tris.take(tris.len() as int) =~= tris);
    assert(staged(tris, tris.len()) =~= islands(tris));
}

/// Two triangles of one component have linked first vertices, and two
/// triangles of different components have not.
pub proof fn lemma_island_is_component(tris: Seq<Triangle>, g: int, i: int, h: int, j: int)
    requires
        0 <= g < islands(tris).len(),
        0 <= i < islands(tris)[g].len(),
        0 <= h < islands(tris).len(),
        0 <= j < islands(tris)[h].len(),
    ensures
        linked(tris, islands(tris)[g][i].v0, islands(tris)[h][j].v0) <==> g == h,
{
    let lead = leaders(tris, tris.len());
    let edges = edges_of(tris);
    let t = islands(tris)[g][i];
    let u = islands(tris)[h][j];
    tris.lemma_filter_pred(with_leader(tris, lead[g]), i);
    tris.lemma_filter_pred(with_leader(tris, lead[h]), j);
    assert(linked(tris, t.v0, tris[lead[g]].v0));
    assert(linked(tris, u.v0, tris[lead[h]].v0));
    lemma_joined_symmetric(edges, u.v0, tris[lead[h]].v0);
    if g == h {
        lemma_joined_transitive(edges, t.v0, tris[lead[g]].v0, u.v0);
    } else if linked(tris, t.v0, u.v0) {
        lemma_joined_transitive(edges, t.v0, u.v0, tris[lead[h]].v0);
        lemma_one_leader(tris, tris.len(), g, h, t.v0);
    }
}

} // verus!
