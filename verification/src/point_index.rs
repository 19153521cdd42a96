use crate::vertex::Point;
use std::collections::HashMap;
use vstd::prelude::*;

verus! {

/// A register of distinct points: each point gets, when it is first seen,
/// the next number from zero up, and is found again by its coordinates.
pub struct PointIndex {
    by_x: HashMap<i64, HashMap<i64, HashMap<i64, usize>>>,
    count: usize,
    order: Ghost<Seq<Point>>,
}

/// In a list without repetition an item is found where it stands.
pub proof fn lemma_index_of<T>(s: Seq<T>, i: int)
    requires
        s.no_duplicates(),
        0 <= i < s.len(),
    ensures
        s.contains(s[i]),
        s.index_of(s[i]) == i,
{
    let j = s.index_of(s[i]);
    assert(s[j] == s[i]);
}

/// Registering a point moves no point that is registered already, and
/// leaves the list without repetition.
pub proof fn lemma_with_point_keeps(points: Seq<Point>, p: Point, q: Point)
    requires
        points.no_duplicates(),
        points.contains(q),
    ensures
        with_point(points, p).no_duplicates(),
        with_point(points, p).contains(q),
        with_point(points, p).index_of(q) == points.index_of(q),
{
    let i = points.index_of(q);
    lemma_index_of(with_point(points, p), i);
}

/// The points with `p` registered: unchanged where `p` occurs already, else
/// with `p` at the end.
pub open spec fn with_point(points: Seq<Point>, p: Point) -> Seq<Point> {
    if points.contains(p) {
        points
    } else {
        points.push(p)
    }
}

impl View for PointIndex {
    type V = Seq<Point>;

    /// The registered points, each at the position that is its number.
    closed spec fn view(&self) -> Seq<Point> {
        self.order@
    }
}

impl PointIndex {
    /// The number that the nested maps hold for `p`.
    closed spec fn lookup(&self, p: Point) -> Option<usize> {
        if self.by_x@.contains_key(p.x) && self.by_x@[p.x]@.contains_key(p.y)
            && self.by_x@[p.x]@[p.y]@.contains_key(p.z) {
            Some(self.by_x@[p.x]@[p.y]@[p.z])
        } else {
            None
        }
    }

    /// Whether the maps hold exactly the registered points, each with its
    /// position, and no point is registered twice.
    pub closed spec fn wf(&self) -> bool {
        &&& self.count == self.order@.len()
        &&& self.order@.no_duplicates()
        &&& forall|p: Point|
            match #[trigger] self.lookup(p) {
                Some(i) => i < self.order@.len() && self.order@[i as int] == p,
                None => !self.order@.contains(p),
            }
    }

    /// In a well-formed register no point stands twice.
    pub proof fn lemma_distinct(&self)
        requires
            self.wf(),
        ensures
            self@.no_duplicates(),
    {
    }

    pub fn new() -> (index: PointIndex)
        ensures
            index.wf(),
            index@ == Seq::<Point>::empty(),
    {
        let index = PointIndex { by_x: HashMap::new(), count: 0, order: Ghost(Seq::empty()) };
        index
    }

    /// The number of registered points.
    pub fn len(&self) -> (n: usize)
        requires
            self.wf(),
        ensures
            n == self@.len(),
    {
        self.count
    }

    /// The number of `p`, if it is registered.
    pub fn find(&self, p: Point) -> (r: Option<usize>)
        requires
            self.wf(),
        ensures
            match r {
                Some(i) => i < self@.len() && self@[i as int] == p,
                None => !self@.contains(p),
            },
    {
        let r = self.get(p);
        r
    }

    fn get(&self, p: Point) -> (r: Option<usize>)
        ensures
            r == self.lookup(p),
    {
        broadcast use vstd::std_specs::hash::group_hash_axioms;

        match self.by_x.get(&p.x) {
            Some(by_y) => match by_y.get(&p.y) {
                Some(by_z) => match by_z.get(&p.z) {
                    Some(v) => Some(*v),
                    None => None,
                },
                None => None,
            },
            None => None,
        }
    }

    fn set(&mut self, p: Point, v: usize)
        ensures
            final(self).count == old(self).count,
            final(self).order == old(self).order,
            forall|q: Point|
                #[trigger] final(self).lookup(q) == (if q == p {
                    Some(v)
                } else {
                    old(self).lookup(q)
                }),
    {
        broadcast use vstd::std_specs::hash::group_hash_axioms;

        let mut by_y = match self.by_x.remove(&p.x) {
            Some(m) => m,
            None => HashMap::new(),
        };
        let mut by_z = match by_y.remove(&p.y) {
            Some(m) => m,
            None => HashMap::new(),
        };
        by_z.insert(p.z, v);
        by_y.insert(p.y, by_z);
        self.by_x.insert(p.x, by_y);
    }

    /// The number of `p`: the one it has, or the next free one, under which
    /// it is then registered.
    pub fn intern(&mut self, p: Point) -> (id: usize)
        requires
            old(self).wf(),
            old(self)@.contains(p) || old(self)@.len() < usize::MAX,
        ensures
            final(self).wf(),
            final(self)@ == with_point(old(self)@, p),
            id < final(self)@.len(),
            final(self)@[id as int] == p,
    {
        match self.get(p) {
            Some(id) => id,
            None => {
                let id = self.count;
                self.count = id + 1;
                self.order = Ghost(self.order@.push(p));
                let ghost grown = *self;
                self.set(p, id);
                assert forall|q: Point|
                    match #[trigger] self.lookup(q) {
                        Some(i) => i < self.order@.len() && self.order@[i as int] == q,
                        None => !self.order@.contains(q),
                    } by {
                    if q != p {
                        assert(grown.lookup(q) == old(self).lookup(q));
                        match old(self).lookup(q) {
                            Some(i) => {
                                assert(self.order@[i as int] == old(self).order@[i as int]);
                            },
                            None => {
                                if self.order@.contains(q) {
                                    let j = choose|j: int|
                                        0 <= j < self.order@.len() && self.order@[j] == q;
                                    assert(old(self).order@[j] == q);
                                    assert(old(self).order@.contains(q));
                                }
                            },
                        }
                    }
                }
                id
            },
        }
    }
}

} // verus!
