use crate::octree::{
    all_ids, kept_by, lists, node_wf, nodes_wf, sent_by, split_model, within, OctantView, Region,
};
use crate::tally::{
    lemma_total_concat, lemma_total_covers, lemma_total_of_empty_lists, lemma_total_update, total,
};
use crate::vertex::Triangle;
use vstd::multiset::Multiset;
use vstd::prelude::*;

verus! {

/// Each id below `n` occurs once among the first `n` ids, and no other id
/// occurs.
pub proof fn lemma_all_ids_count(n: nat, t: usize)
    requires
        n <= usize::MAX + 1,
    ensures
        all_ids(n).count(t) == (if t < n {
            1nat
        } else {
            0nat
        }),
    decreases n,
{
    broadcast use vstd::multiset::group_multiset_axioms;

    if n > 0 {
        lemma_all_ids_count((n - 1) as nat, t);
    }
}

/// Where the octants below `j` do not hold a triangle, the split octant
/// keeps it or sends it to one of the others.
proof fn lemma_first_from(parent: Region, t: Triangle, j: int)
    requires
        0 <= j <= 8,
        forall|i: int| 0 <= i < j ==> !parent.below(i).holds_triangle(t),
    ensures
        parent.keeps(t) || exists|k: int| parent.sends_to(t, k),
    decreases 8 - j,
{
    if j == 8 {
    } else if parent.below(j).holds_triangle(t) {
        assert(parent.sends_to(t, j));
    } else {
        lemma_first_from(parent, t, j + 1);
    }
}

/// A split octant keeps a triangle or sends it to exactly one of the eight
/// octants below it.
pub proof fn lemma_sent_or_kept(parent: Region, t: Triangle)
    ensures
        parent.keeps(t) || exists|k: int| parent.sends_to(t, k),
        forall|k: int| parent.sends_to(t, k) ==> !parent.keeps(t),
        forall|k: int, j: int| parent.sends_to(t, k) && parent.sends_to(t, j) ==> k == j,
{
    lemma_first_from(parent, t, 0);
}

/// The lists that the eight new octants get when an octant with the list
/// `list` is split.
pub open spec fn parts(parent: Region, tris: Seq<Triangle>, list: Seq<usize>) -> Seq<
    Seq<usize>,
> {
    Seq::new(8, |k: int| list.filter(sent_by(parent, tris, k)))
}

/// A split hands every triangle of the octant to one of the eight new
/// octants or leaves it where it was: none is lost and none is doubled.
pub proof fn lemma_split_partition(parent: Region, tris: Seq<Triangle>, list: Seq<usize>)
    ensures
        total(parts(parent, tris, list)).add(list.filter(kept_by(parent, tris)).to_multiset())
            == list.to_multiset(),
    decreases list.len(),
{
    broadcast use vstd::multiset::group_multiset_axioms;

    let kept = list.filter(kept_by(parent, tris));
    if list.len() == 0 {
        reveal(Seq::filter);
        lemma_total_of_empty_lists(parts(parent, tris, list));
        assert(total(parts(parent, tris, list)).add(kept.to_multiset()) =~= list.to_multiset());
    } else {
        let front = list.drop_last();
        let x = list.last();
        let t = tris[x as int];
        assert(list =~= front.push(x));
        lemma_split_partition(parent, tris, front);
        lemma_sent_or_kept(parent, t);
        front.lemma_filter_push(x, kept_by(parent, tris));
        assert forall|k: int| 0 <= k < 8 implies #[trigger] parts(parent, tris, list)[k] == (
        if parent.sends_to(t, k) {
            parts(parent, tris, front)[k].push(x)
        } else {
            parts(parent, tris, front)[k]
        }) by {
            front.lemma_filter_push(x, sent_by(parent, tris, k));
        }
        vstd::seq_lib::to_multiset_build(front, x);
        if parent.keeps(t) {
            assert(parts(parent, tris, list) =~= parts(parent, tris, front));
            vstd::seq_lib::to_multiset_build(front.filter(kept_by(parent, tris)), x);
            assert(total(parts(parent, tris, list)).add(kept.to_multiset())
                =~= list.to_multiset());
        } else {
            let k = choose|k: int| parent.sends_to(t, k);
            let old_parts = parts(parent, tris, front);
            assert(parts(parent, tris, list) =~= old_parts.update(k, old_parts[k].push(x)));
            lemma_total_update(old_parts, k, old_parts[k].push(x));
            vstd::seq_lib::to_multiset_build(old_parts[k], x);
            let new_parts = parts(parent, tris, list);
            let grown = old_parts[k].push(x);
            assert(total(new_parts).add(old_parts[k].to_multiset()) == total(old_parts).add(
                grown.to_multiset(),
            ));
            assert(grown.to_multiset() =~= old_parts[k].to_multiset().insert(x));
            assert forall|v: usize|
                total(new_parts).count(v) == total(old_parts).insert(x).count(v) by {
                assert(total(new_parts).add(old_parts[k].to_multiset()).count(v) == total(
                    old_parts,
                ).add(grown.to_multiset()).count(v));
            }
            assert(total(new_parts) =~= total(old_parts).insert(x));
            assert(total(parts(parent, tris, list)).add(kept.to_multiset())
                =~= list.to_multiset());
        }
    }
}

/// The triangles that lie within an octant are finitely many, and at least
/// as many as a list without repetition that names only such triangles.
pub proof fn lemma_within_counts(node: Region, tris: Seq<Triangle>, list: Seq<usize>)
    requires
        list.no_duplicates(),
        forall|j: int|
            0 <= j < list.len() ==> (#[trigger] list[j]) < tris.len() && node.holds_triangle(
                tris[list[j] as int],
            ),
    ensures
        within(node, tris).finite(),
        within(node, tris).len() >= list.len(),
{
    broadcast use vstd::seq_lib::seq_to_set_is_finite;

    let every = Seq::new(tris.len(), |i: int| i as usize);
    assert forall|t: usize| within(node, tris).contains(t) implies every.to_set().contains(t) by {
        assert(every[t as int] == t);
    }
    vstd::set_lib::lemma_len_subset(within(node, tris), every.to_set());
    list.unique_seq_to_set();
    assert forall|t: usize| list.to_set().contains(t) implies within(node, tris).contains(t) by {
        let j = choose|j: int| 0 <= j < list.len() && list[j] == t;
        assert(list[j] < tris.len());
    }
    vstd::set_lib::lemma_len_subset(list.to_set(), within(node, tris));
}

/// In a well-formed tree no octant names a triangle twice.
pub proof fn lemma_list_is_unique(
    nodes: Seq<OctantView>,
    tris: Seq<Triangle>,
    assigned: nat,
    o: int,
)
    requires
        nodes_wf(nodes, tris, assigned),
        tris.len() <= usize::MAX,
        0 <= o < nodes.len(),
    ensures
        nodes[o].triangle_ids.no_duplicates(),
{
    broadcast use vstd::multiset::group_multiset_axioms;

    let list = nodes[o].triangle_ids;
    assert(lists(nodes)[o] == list);
    assert forall|x: usize| list.to_multiset().contains(x) implies list.to_multiset().count(x)
        == 1 by {
        lemma_total_covers(lists(nodes), o, x);
        lemma_all_ids_count(assigned, x);
    }
    list.lemma_multiset_has_no_duplicates_conv();
}

/// Splitting a full octant of a well-formed tree leaves the tree
/// well-formed, with the same triangles placed.
pub proof fn lemma_split_wf(nodes: Seq<OctantView>, tris: Seq<Triangle>, assigned: nat, o: int)
    requires
        nodes_wf(nodes, tris, assigned),
        tris.len() <= usize::MAX,
        nodes.len() + 8 <= usize::MAX,
        0 <= o < nodes.len(),
        nodes[o].splits(),
    ensures
        nodes_wf(split_model(nodes, tris, o), tris, assigned),
{
    broadcast use vstd::multiset::group_multiset_axioms;

    let parent = nodes[o];
    let whole = parent.region();
    let list = parent.triangle_ids;
    let after = split_model(nodes, tris, o);
    let base = nodes.len() as int;
    let kept = list.filter(kept_by(whole, tris));
    assert(node_wf(nodes, tris, assigned, o));

    // The octant that was split.
    assert forall|j: int| 0 <= j < kept.len() implies (#[trigger] kept[j]) < assigned
        && whole.holds_triangle(tris[kept[j] as int]) && whole.keeps(tris[kept[j] as int]) by {
        list.lemma_filter_pred(kept_by(whole, tris), j);
        assert(kept.contains(kept[j]));
        list.lemma_filter_contains_rev(kept_by(whole, tris), kept[j]);
        let i = choose|i: int| 0 <= i < list.len() && list[i] == kept[j];
        assert(list[i] < assigned);
    }
    lemma_list_is_unique(nodes, tris, assigned, o);
    lemma_within_counts(whole, tris, list);
    assert(after[o].region() == whole);
    assert(after[o].children is Some);
    let c = after[o].children->0;
    assert forall|k: int| 0 <= k < 8 implies o < (#[trigger] c[k]) < after.len()
        && after[c[k] as int].region() == whole.below(k) && after[c[k] as int].depth
        == after[o].depth + 1 by {
        assert(c[k] == base + k);
        assert(after[base + k].center == parent.child(k).center);
    }
    assert(node_wf(after, tris, assigned, o));

    // The eight new octants.
    assert forall|p: int| base <= p < base + 8 implies node_wf(after, tris, assigned, p) by {
        let k = p - base;
        let sent = list.filter(sent_by(whole, tris, k));
        assert(after[base + k].triangle_ids == sent);
        list.lemma_filter_len(sent_by(whole, tris, k));
        assert forall|j: int| 0 <= j < sent.len() implies (#[trigger] sent[j]) < assigned
            && after[base + k].holds_triangle(tris[sent[j] as int]) by {
            list.lemma_filter_pred(sent_by(whole, tris, k), j);
            assert(sent.contains(sent[j]));
            list.lemma_filter_contains_rev(sent_by(whole, tris, k), sent[j]);
            let i = choose|i: int| 0 <= i < list.len() && list[i] == sent[j];
            assert(list[i] < assigned);
            assert(whole.sends_to(tris[sent[j] as int], k));
            assert(after[base + k].region() == whole.below(k));
        }
    }

    // The octants that were there before.
    assert forall|p: int| 0 <= p < base && p != o implies node_wf(after, tris, assigned, p) by {
        assert(node_wf(nodes, tris, assigned, p));
        assert(after[p] == nodes[p]);
        match nodes[p].children {
            Some(pc) => {
                assert forall|k: int| 0 <= k < 8 implies p < (#[trigger] pc[k]) < after.len()
                    && after[pc[k] as int].region() == after[p].region().below(k)
                    && after[pc[k] as int].depth == after[p].depth + 1 by {
                    assert(pc[k] < nodes.len());
                    assert(after[pc[k] as int].region() == nodes[pc[k] as int].region());
                }
            },
            None => {},
        }
    }

    // The ids.
    let front = nodes.update(
        o,
        OctantView {
            children: Some(Seq::new(8, |k: int| (base + k) as usize)),
            triangle_ids: kept,
            ..parent
        },
    );
    assert(lists(after) =~= lists(front) + parts(whole, tris, list));
    assert(lists(front) =~= lists(nodes).update(o, kept));
    lemma_total_concat(lists(front), parts(whole, tris, list));
    lemma_total_update(lists(nodes), o, kept);
    lemma_split_partition(whole, tris, list);
    assert(lists(nodes)[o] == list);
    assert forall|v: usize| total(lists(after)).count(v) == total(lists(nodes)).count(v) by {
        assert(total(lists(front)).add(list.to_multiset()).count(v) == total(lists(nodes)).add(
            kept.to_multiset(),
        ).count(v));
        assert(total(parts(whole, tris, list)).add(kept.to_multiset()).count(v)
            == list.to_multiset().count(v));
    }
    assert(total(lists(after)) =~= total(lists(nodes)));
}

/// Leaving the next triangle of the arena at an octant that holds it, that
/// is not due to be split, and below which no octant holds it, leaves the
/// tree well-formed with one more triangle placed.
pub proof fn lemma_keep_wf(nodes: Seq<OctantView>, tris: Seq<Triangle>, assigned: nat, o: int)
    requires
        nodes_wf(nodes, tris, assigned),
        assigned < tris.len() <= usize::MAX,
        0 <= o < nodes.len(),
        nodes[o].holds_triangle(tris[assigned as int]),
        !nodes[o].splits(),
        nodes[o].children is Some ==> nodes[o].region().keeps(tris[assigned as int]),
    ensures
        nodes_wf(
            nodes.update(
                o,
                OctantView {
                    triangle_ids: nodes[o].triangle_ids.push(assigned as usize),
                    ..nodes[o]
                },
            ),
            tris,
            assigned + 1,
        ),
{
    broadcast use vstd::multiset::group_multiset_axioms;

    let t = assigned as usize;
    let grown = nodes[o].triangle_ids.push(t);
    let after = nodes.update(o, OctantView { triangle_ids: grown, ..nodes[o] });
    let next = assigned + 1;
    assert forall|p: int| 0 <= p < after.len() implies node_wf(after, tris, next, p) by {
        assert(node_wf(nodes, tris, assigned, p));
        assert(after[p].region() == nodes[p].region());
        match nodes[p].children {
            Some(pc) => {
                assert forall|k: int| 0 <= k < 8 implies p < (#[trigger] pc[k]) < after.len()
                    && after[pc[k] as int].region() == after[p].region().below(k)
                    && after[pc[k] as int].depth == after[p].depth + 1 by {
                    assert(pc[k] < nodes.len());
                    assert(after[pc[k] as int].region() == nodes[pc[k] as int].region());
                }
            },
            None => {},
        }
        if p == o {
            assert forall|j: int| 0 <= j < grown.len() implies (#[trigger] grown[j]) < assigned + 1
                && after[p].holds_triangle(tris[grown[j] as int]) by {
                if j < grown.len() - 1 {
                    assert(grown[j] == nodes[o].triangle_ids[j]);
                }
            }
            if nodes[o].children is Some {
                assert forall|j: int| 0 <= j < grown.len() implies after[p].region().keeps(
                    tris[(#[trigger] grown[j]) as int],
                ) by {
                    if j < grown.len() - 1 {
                        assert(grown[j] == nodes[o].triangle_ids[j]);
                    }
                }
            }
        } else {
            assert(after[p] == nodes[p]);
        }
    }
    assert(lists(after) =~= lists(nodes).update(o, grown));
    lemma_total_update(lists(nodes), o, grown);
    vstd::seq_lib::to_multiset_build(nodes[o].triangle_ids, t);
    assert(lists(nodes)[o] == nodes[o].triangle_ids);
    assert forall|v: usize| total(lists(after)).count(v) == all_ids(assigned + 1).count(v) by {
        assert(total(lists(after)).add(nodes[o].triangle_ids.to_multiset()).count(v) == total(
            lists(nodes),
        ).add(grown.to_multiset()).count(v));
    }
    assert(total(lists(after)) =~= all_ids(assigned + 1));
}

/// A well-formed tree stays well-formed, with the same triangles placed,
/// when a triangle is added to the end of the arena.
pub proof fn lemma_arena_grows(nodes: Seq<OctantView>, tris: Seq<Triangle>, t: Triangle)
    requires
        nodes_wf(nodes, tris, tris.len()),
    ensures
        nodes_wf(nodes, tris.push(t), tris.len()),
{
    let more = tris.push(t);
    let placed = tris.len();
    assert forall|o: int| 0 <= o < nodes.len() implies node_wf(nodes, more, placed, o) by {
        assert(node_wf(nodes, tris, placed, o));
        let n = nodes[o];
        assert forall|j: int| 0 <= j < n.triangle_ids.len() implies (#[trigger] n.triangle_ids[j])
            < placed && n.holds_triangle(more[n.triangle_ids[j] as int]) by {
            assert(more[n.triangle_ids[j] as int] == tris[n.triangle_ids[j] as int]);
        }
        if n.children is Some {
            assert forall|j: int| 0 <= j < n.triangle_ids.len() implies n.region().keeps(
                more[(#[trigger] n.triangle_ids[j]) as int],
            ) by {
                assert(more[n.triangle_ids[j] as int] == tris[n.triangle_ids[j] as int]);
            }
            lemma_within_counts(n.region(), more, Seq::empty());
            assert forall|x: usize| within(n.region(), tris).contains(x) implies within(
                n.region(),
                more,
            ).contains(x) by {
                assert(more[x as int] == tris[x as int]);
            }
            vstd::set_lib::lemma_len_subset(within(n.region(), tris), within(n.region(), more));
        }
    }
}

} // verus!
