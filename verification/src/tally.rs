use vstd::multiset::Multiset;
use vstd::prelude::*;

verus! {

/// All the items in a sequence of lists, with their multiplicity.
pub open spec fn total<T>(lists: Seq<Seq<T>>) -> Multiset<T>
    decreases lists.len(),
{
    if lists.len() == 0 {
        Multiset::empty()
    } else {
        total(lists.drop_last()).add(lists.last().to_multiset())
    }
}

/// The items of a sequence of lists with one more list at its end.
pub proof fn lemma_total_push<T>(ls: Seq<Seq<T>>, l: Seq<T>)
    ensures
        total(ls.push(l)) == total(ls).add(l.to_multiset()),
{
    assert(ls.push(l).drop_last() =~= ls);
}

/// The items of two sequences of lists, one after the other.
pub proof fn lemma_total_concat<T>(a: Seq<Seq<T>>, b: Seq<Seq<T>>)
    ensures
        total(a + b) == total(a).add(total(b)),
    decreases b.len(),
{
    broadcast use vstd::multiset::group_multiset_axioms;

    if b.len() == 0 {
        assert(a + b =~= a);
        assert(total(a).add(total(b)) =~= total(a));
    } else {
        lemma_total_concat(a, b.drop_last());
        assert((a + b).drop_last() =~= a + b.drop_last());
        assert(total(a + b) =~= total(a).add(total(b)));
    }
}

/// Replacing one list takes its items out and puts those of the new list in.
pub proof fn lemma_total_update<T>(ls: Seq<Seq<T>>, o: int, l: Seq<T>)
    requires
        0 <= o < ls.len(),
    ensures
        total(ls.update(o, l)).add(ls[o].to_multiset()) == total(ls).add(l.to_multiset()),
    decreases ls.len(),
{
    broadcast use vstd::multiset::group_multiset_axioms;

    let after = ls.update(o, l);
    let front = ls.drop_last();
    assert(total(ls) == total(front).add(ls.last().to_multiset()));
    assert(total(after) == total(after.drop_last()).add(after.last().to_multiset()));
    if o == ls.len() - 1 {
        assert(after.drop_last() =~= front);
        assert(after.last() == l);
        assert(total(after).add(ls[o].to_multiset()) =~= total(ls).add(l.to_multiset()));
    } else {
        lemma_total_update(front, o, l);
        assert(after.drop_last() =~= front.update(o, l));
        assert(after.last() == ls.last());
        assert(front[o] == ls[o]);
        let a = total(front.update(o, l));
        let b = total(front);
        assert(a.add(ls[o].to_multiset()) == b.add(l.to_multiset()));
        assert forall|v: T|
            total(after).add(ls[o].to_multiset()).count(v) == total(ls).add(
                l.to_multiset(),
            ).count(v) by {
            assert(a.add(ls[o].to_multiset()).count(v) == b.add(l.to_multiset()).count(v));
        }
        assert(total(after).add(ls[o].to_multiset()) =~= total(ls).add(l.to_multiset()));
    }
}

/// Every item of one list is among the items of all lists, at least as often.
pub proof fn lemma_total_covers<T>(ls: Seq<Seq<T>>, o: int, t: T)
    requires
        0 <= o < ls.len(),
    ensures
        ls[o].to_multiset().count(t) <= total(ls).count(t),
    decreases ls.len(),
{
    broadcast use vstd::multiset::group_multiset_axioms;

    if o < ls.len() - 1 {
        lemma_total_covers(ls.drop_last(), o, t);
    }
}

/// Lists without items hold no items.
pub proof fn lemma_total_of_empty_lists<T>(ls: Seq<Seq<T>>)
    requires
        forall|k: int| 0 <= k < ls.len() ==> ls[k].len() == 0,
    ensures
        total(ls) == Multiset::<T>::empty(),
    decreases ls.len(),
{
    broadcast use vstd::multiset::group_multiset_axioms;
    broadcast use vstd::seq_lib::to_multiset_len;

    if ls.len() > 0 {
        lemma_total_of_empty_lists(ls.drop_last());
        assert(ls.last().to_multiset().len() == 0);
        assert(ls.last().to_multiset() =~= Multiset::<T>::empty());
        assert(total(ls) =~= Multiset::<T>::empty());
    }
}

} // verus!
