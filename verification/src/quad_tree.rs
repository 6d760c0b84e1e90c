use vstd::prelude::*;

use crate::box2d::Box2d;
use crate::seq_facts::lemma_filter_member;
use crate::seq_facts::lemma_filter_no_duplicates;
use crate::seq_facts::lemma_same_multiset_member;
use crate::seq_facts::lemma_same_multiset_no_duplicates;
use crate::vector::Id;
use crate::vector::Vec2d;

verus! {

/// A node whose boundary has a half side below this is never divided.
pub const MIN_HALF: i64 = 2;

/// What the index stores for one entity: where it is, who it is, and what the
/// caller wants back with it.
#[derive(Clone, Copy, Debug)]
pub struct Entry<T> {
    pub point: Vec2d,
    pub id: Id,
    pub payload: T,
}

/// The four quadrants of a divided node, in the order of `Box2d::subdivide`.
pub type Nodes<T> = Box<(T, T, T, T)>;

/// A quadtree over points of the grid. A node keeps up to `cap` entries;
/// after that it is divided, and further entries go to the first quadrant
/// that contains their point. A node too small to divide keeps every entry
/// it is given.
#[derive(Debug)]
pub struct QuadTree<T> {
    pub boundary: Box2d,
    pub cap: usize,
    pub points: Vec<Entry<T>>,
    pub sub: Option<Nodes<QuadTree<T>>>,
}

/// A tree as a value of mathematics.
pub struct TreeView<T> {
    pub boundary: Box2d,
    pub cap: usize,
    pub points: Seq<Entry<T>>,
    pub sub: Option<Nodes<TreeView<T>>>,
}

impl<T> View for QuadTree<T> {
    type V = TreeView<T>;

    open spec fn view(&self) -> TreeView<T>
        decreases self,
    {
        TreeView {
            boundary: self.boundary,
            cap: self.cap,
            points: self.points@,
            sub: match self.sub {
                None => None,
                Some(kids) => Some(Box::new((kids.0@, kids.1@, kids.2@, kids.3@))),
            },
        }
    }
}

/// The entries of `range` are those whose point it contains.
pub open spec fn in_range<T>(range: Box2d) -> spec_fn(Entry<T>) -> bool {
    |e: Entry<T>| range.spec_contains(e.point)
}

impl<T> TreeView<T> {
    /// A node without entries or quadrants.
    pub open spec fn leaf(boundary: Box2d, cap: usize) -> TreeView<T> {
        TreeView { boundary, cap, points: Seq::empty(), sub: None }
    }

    /// All entries of the tree: those of the node, then those of its
    /// quadrants in order.
    pub open spec fn entries(self) -> Seq<Entry<T>>
        decreases self,
    {
        match self.sub {
            None => self.points,
            Some(kids) => self.points + kids.0.entries() + kids.1.entries() + kids.2.entries()
                + kids.3.entries(),
        }
    }

    /// A leaf that takes a further entry itself: it has room, or is too
    /// small to divide.
    pub open spec fn takes_entries(self) -> bool {
        self.sub is None && (self.points.len() < self.cap || self.boundary.half < MIN_HALF)
    }

    /// The quadrants of a divided node have the boundaries that dividing its
    /// own boundary gives, and its capacity.
    pub open spec fn quadrants_fit(self) -> bool {
        match self.sub {
            None => true,
            Some(kids) => {
                &&& kids.0.boundary == self.boundary.spec_subdivide().0
                &&& kids.1.boundary == self.boundary.spec_subdivide().1
                &&& kids.2.boundary == self.boundary.spec_subdivide().2
                &&& kids.3.boundary == self.boundary.spec_subdivide().3
                &&& kids.0.cap == self.cap
                &&& kids.1.cap == self.cap
                &&& kids.2.cap == self.cap
                &&& kids.3.cap == self.cap
            },
        }
    }

    /// The invariant of the tree. Every entry of a node lies in the node's
    /// boundary; a node holds more than `cap` entries only where it is too
    /// small to divide; only a node that is large enough is divided.
    pub open spec fn wf(self) -> bool
        decreases self,
    {
        &&& self.boundary.wf()
        &&& forall|i: int|
            0 <= i < self.points.len() ==> self.boundary.spec_contains(
                (#[trigger] self.points[i]).point,
            )
        &&& self.quadrants_fit()
        &&& match self.sub {
            None => self.points.len() <= self.cap || self.boundary.half < MIN_HALF,
            Some(kids) => {
                &&& self.boundary.half >= MIN_HALF
                &&& self.points.len() <= self.cap
                &&& kids.0.wf()
                &&& kids.1.wf()
                &&& kids.2.wf()
                &&& kids.3.wf()
            },
        }
    }

    /// The node with four empty quadrants, where it is a leaf large enough
    /// to divide; else the node as it is.
    pub open spec fn subdivided(self) -> TreeView<T> {
        if self.sub is Some || self.boundary.half < MIN_HALF {
            self
        } else {
            TreeView {
                sub: Some(
                    Box::new(
                        (
                            Self::leaf(self.boundary.spec_subdivide().0, self.cap),
                            Self::leaf(self.boundary.spec_subdivide().1, self.cap),
                            Self::leaf(self.boundary.spec_subdivide().2, self.cap),
                            Self::leaf(self.boundary.spec_subdivide().3, self.cap),
                        ),
                    ),
                ),
                ..self
            }
        }
    }

    /// The tree after `e` was stored. A point outside the boundary changes
    /// nothing. A leaf with room, or too small to divide, takes the entry.
    /// Any other node is divided, if it is not yet, and hands the entry to
    /// the first of its quadrants that contains the point.
    pub open spec fn inserted(self, e: Entry<T>) -> TreeView<T>
        decreases self.boundary.half,
        when self.wf()
    {
        if !self.boundary.spec_contains(e.point) {
            self
        } else if self.takes_entries() {
            TreeView { points: self.points.push(e), ..self }
        } else {
            let kids = self.subdivided().sub->0;
            let q = self.boundary.first_quadrant(e.point);
            TreeView {
                sub: Some(
                    Box::new(
                        (
                            if q == 0 {
                                kids.0.inserted(e)
                            } else {
                                kids.0
                            },
                            if q == 1 {
                                kids.1.inserted(e)
                            } else {
                                kids.1
                            },
                            if q == 2 {
                                kids.2.inserted(e)
                            } else {
                                kids.2
                            },
                            if q == 3 {
                                kids.3.inserted(e)
                            } else {
                                kids.3
                            },
                        ),
                    ),
                ),
                ..self
            }
        }
    }

    /// The tree that `build` makes: the entries stored one after the other
    /// in an empty tree.
    pub open spec fn built(boundary: Box2d, cap: usize, entries: Seq<Entry<T>>) -> TreeView<T>
        decreases entries.len(),
    {
        if entries.len() == 0 {
            Self::leaf(boundary, cap)
        } else {
            Self::built(boundary, cap, entries.drop_last()).inserted(entries.last())
        }
    }

    /// The tree holds exactly those of the entries it was given that lie in
    /// its boundary.
    pub open spec fn holds(self, entries: Seq<Entry<T>>) -> bool {
        self.entries().to_multiset() == entries.filter(in_range(self.boundary)).to_multiset()
    }
}

impl<T> Default for QuadTree<T> {
    /// An empty tree over the origin alone.
    fn default() -> (tree: Self)
        ensures
            tree@ == TreeView::<T>::leaf(Box2d { center: Vec2d { x: 0, y: 0 }, half: 0 }, 0),
            tree@.wf(),
    {
        Self { boundary: Box2d::default(), cap: 0, points: Vec::new(), sub: None }
    }
}

impl<T: Copy> QuadTree<T> {
    pub fn new(boundary: Box2d, cap: usize) -> (tree: Self)
        requires
            boundary.wf(),
        ensures
            tree@ == TreeView::<T>::leaf(boundary, cap),
            tree@.wf(),
    {
        Self { boundary, cap, points: Vec::new(), sub: None }
    }

    /// Gives a leaf that is large enough four empty quadrants. A divided
    /// node, or one too small, stays as it is.
    pub fn subdivide(&mut self)
        requires
            old(self)@.wf(),
        ensures
            final(self)@ == old(self)@.subdivided(),
            final(self)@.wf(),
            final(self)@.entries() == old(self)@.entries(),
    {
        if self.sub.is_some() || self.boundary.half < MIN_HALF {
            return ;
        }
        let boxes = self.boundary.subdivide();
        let kids = (
            Self::new(boxes.0, self.cap),
            Self::new(boxes.1, self.cap),
            Self::new(boxes.2, self.cap),
            Self::new(boxes.3, self.cap),
        );
        let ghost k0 = kids.0@;
        let ghost k1 = kids.1@;
        let ghost k2 = kids.2@;
        let ghost k3 = kids.3@;
        self.sub = Some(Box::new(kids));
        proof {
            assert(self@.sub == Some(Box::new((k0, k1, k2, k3))));
            assert(self@.entries() =~= self.points@ + k0.entries() + k1.entries() + k2.entries()
                + k3.entries());
            assert(self@.entries() =~= old(self)@.entries());
        }
    }

    /// Stores an entry for the point `v.0` of entity `v.1`. A point outside
    /// the boundary is refused and the tree stays as it was.
    pub fn insert(&mut self, v: (Vec2d, Id), t: T) -> (ok: bool)
        requires
            old(self)@.wf(),
        ensures
            ok == old(self)@.boundary.spec_contains(v.0),
            final(self)@ == old(self)@.inserted(Entry { point: v.0, id: v.1, payload: t }),
            final(self)@.wf(),
            final(self)@.boundary == old(self)@.boundary,
            final(self)@.cap == old(self)@.cap,
            ok ==> final(self)@.entries().to_multiset() == old(self)@.entries().to_multiset().insert(
                Entry { point: v.0, id: v.1, payload: t },
            ),
        decreases old(self)@.boundary.half,
    {
        let ghost e = Entry { point: v.0, id: v.1, payload: t };
        proof {
            self@.lemma_inserted(e);
        }
        if !self.boundary.contains(v.0) {
            return false;
        }
        if self.sub.is_none() {
            if self.points.len() < self.cap || self.boundary.half < MIN_HALF {
                self.points.push(Entry { point: v.0, id: v.1, payload: t });
                return true;
            }
            self.subdivide();
        }
        let ghost before = self@;
        let mut kids = self.sub.take().unwrap();
        proof {
            before.boundary.lemma_quadrants_cover(v.0);
        }
        let ghost k1 = kids.1@;
        let ghost k2 = kids.2@;
        let ghost k3 = kids.3@;
        let ok = kids.0.insert(v, t) || kids.1.insert(v, t) || kids.2.insert(v, t) || kids.3.insert(
            v,
            t,
        );
        self.sub = Some(kids);
        proof {
            let q = before.boundary.first_quadrant(v.0);
            assert(kids.1@ == if q == 1 {
                k1.inserted(e)
            } else {
                k1
            });
            assert(kids.2@ == if q == 2 {
                k2.inserted(e)
            } else {
                k2
            });
            assert(kids.3@ == if q == 3 {
                k3.inserted(e)
            } else {
                k3
            });
        }
        ok
    }
}

/// Where no element is in `range`, none is left of the sequence.
proof fn lemma_none_in_range<T>(s: Seq<Entry<T>>, range: Box2d)
    requires
        forall|i: int| 0 <= i < s.len() ==> !range.spec_contains((#[trigger] s[i]).point),
    ensures
        s.filter(in_range(range)) == Seq::<Entry<T>>::empty(),
    decreases s.len(),
{
    reveal(Seq::filter);
    if s.len() > 0 {
        lemma_none_in_range(s.drop_last(), range);
    }
}

/// Where every element is in `range`, the whole sequence is left.
proof fn lemma_all_in_range<T>(s: Seq<Entry<T>>, range: Box2d)
    requires
        forall|i: int| 0 <= i < s.len() ==> range.spec_contains((#[trigger] s[i]).point),
    ensures
        s.filter(in_range(range)) == s,
    decreases s.len(),
{
    reveal(Seq::filter);
    if s.len() > 0 {
        lemma_all_in_range(s.drop_last(), range);
        assert(s.drop_last().push(s.last()) =~= s);
    }
}

impl<T> TreeView<T> {
    /// Every entry of a well-formed tree lies in its boundary.
    pub proof fn lemma_entries_inside(self)
        requires
            self.wf(),
        ensures
            forall|i: int|
                0 <= i < self.entries().len() ==> self.boundary.spec_contains(
                    (#[trigger] self.entries()[i]).point,
                ),
        decreases self,
    {
        match self.sub {
            None => {},
            Some(kids) => {
                kids.0.lemma_entries_inside();
                kids.1.lemma_entries_inside();
                kids.2.lemma_entries_inside();
                kids.3.lemma_entries_inside();
                let all = self.entries();
                let s0 = self.points;
                let s1 = s0 + kids.0.entries();
                let s2 = s1 + kids.1.entries();
                let s3 = s2 + kids.2.entries();
                assert forall|i: int| 0 <= i < all.len() implies self.boundary.spec_contains(
                    (#[trigger] all[i]).point,
                ) by {
                    let p = all[i].point;
                    if i < s0.len() {
                        assert(all[i] == self.points[i]);
                    } else if i < s1.len() {
                        assert(all[i] == kids.0.entries()[i - s0.len()]);
                        assert(kids.0.boundary.spec_contains(p));
                        self.boundary.lemma_quadrants_inside(p);
                    } else if i < s2.len() {
                        assert(all[i] == kids.1.entries()[i - s1.len()]);
                        assert(kids.1.boundary.spec_contains(p));
                        self.boundary.lemma_quadrants_inside(p);
                    } else if i < s3.len() {
                        assert(all[i] == kids.2.entries()[i - s2.len()]);
                        assert(kids.2.boundary.spec_contains(p));
                        self.boundary.lemma_quadrants_inside(p);
                    } else {
                        assert(all[i] == kids.3.entries()[i - s3.len()]);
                        assert(kids.3.boundary.spec_contains(p));
                        self.boundary.lemma_quadrants_inside(p);
                    }
                }
            },
        }
    }

    /// A range that the boundary does not meet holds no entry of the tree.
    pub proof fn lemma_pruned(self, range: Box2d)
        requires
            self.wf(),
            !self.boundary.spec_intersects(range),
        ensures
            self.entries().filter(in_range(range)) == Seq::<Entry<T>>::empty(),
    {
        self.lemma_entries_inside();
        assert forall|i: int| 0 <= i < self.entries().len() implies !range.spec_contains(
            (#[trigger] self.entries()[i]).point,
        ) by {
            if range.spec_contains(self.entries()[i].point) {
                self.boundary.lemma_shared_point(range, self.entries()[i].point);
            }
        }
        lemma_none_in_range(self.entries(), range);
    }

    /// Asking for the whole boundary gives every entry of the tree.
    pub proof fn lemma_query_all(self)
        requires
            self.wf(),
        ensures
            self.entries().filter(in_range(self.boundary)) == self.entries(),
    {
        self.lemma_entries_inside();
        lemma_all_in_range(self.entries(), self.boundary);
    }

    /// A tree in which entries were stored that all lie in its boundary
    /// answers a query for its whole boundary with exactly these: as many,
    /// and each as often as it was stored.
    pub proof fn lemma_all_found(boundary: Box2d, cap: usize, entries: Seq<Entry<T>>)
        requires
            boundary.wf(),
            forall|i: int| 0 <= i < entries.len() ==> boundary.spec_contains((#[trigger] entries[i]).point),
        ensures
            Self::built(boundary, cap, entries).entries().filter(
                in_range(boundary),
            ).to_multiset() == entries.to_multiset(),
            Self::built(boundary, cap, entries).entries().filter(in_range(boundary)).len()
                == entries.len(),
    {
        let tree = Self::built(boundary, cap, entries);
        Self::lemma_built(boundary, cap, entries);
        tree.lemma_query_all();
        lemma_all_in_range(entries, boundary);
        vstd::seq_lib::to_multiset_len(tree.entries());
        vstd::seq_lib::to_multiset_len(entries);
    }

    /// An entry whose point lies outside the boundary is in no answer.
    pub proof fn lemma_outside_never_found(self, e: Entry<T>, range: Box2d)
        requires
            self.wf(),
            !self.boundary.spec_contains(e.point),
        ensures
            !self.entries().filter(in_range(range)).contains(e),
    {
        self.lemma_entries_inside();
        let all = self.entries();
        if all.filter(in_range(range)).contains(e) {
            all.lemma_filter_contains_rev(in_range(range), e);
            let i = choose|i: int| 0 <= i < all.len() && all[i] == e;
            assert(self.boundary.spec_contains(all[i].point));
        }
    }

    /// Dividing a node keeps it well formed and keeps its entries.
    pub proof fn lemma_subdivided(self)
        requires
            self.wf(),
        ensures
            self.subdivided().wf(),
            self.subdivided().entries() == self.entries(),
            self.subdivided().boundary == self.boundary,
            self.subdivided().cap == self.cap,
            self.subdivided().points == self.points,
            self.boundary.half >= MIN_HALF ==> self.subdivided().sub is Some,
    {
        if self.sub is None && self.boundary.half >= MIN_HALF {
            self.boundary.lemma_quadrants_wf();
            let d = self.subdivided();
            let kids = d.sub->0;
            assert(kids.0 == Self::leaf(self.boundary.spec_subdivide().0, self.cap));
            assert(kids.1 == Self::leaf(self.boundary.spec_subdivide().1, self.cap));
            assert(kids.2 == Self::leaf(self.boundary.spec_subdivide().2, self.cap));
            assert(kids.3 == Self::leaf(self.boundary.spec_subdivide().3, self.cap));
            assert(kids.0.wf() && kids.1.wf() && kids.2.wf() && kids.3.wf());
            assert(kids.0.entries() =~= Seq::empty());
            assert(kids.1.entries() =~= Seq::empty());
            assert(kids.2.entries() =~= Seq::empty());
            assert(kids.3.entries() =~= Seq::empty());
            assert(d.entries() =~= self.entries());
            assert(d.wf());
        }
    }

    /// The entries of a divided node after one of its quadrants took a
    /// further entry.
    proof fn lemma_quadrant_grown(
        points: Seq<Entry<T>>,
        old_kids: (Seq<Entry<T>>, Seq<Entry<T>>, Seq<Entry<T>>, Seq<Entry<T>>),
        new_kids: (Seq<Entry<T>>, Seq<Entry<T>>, Seq<Entry<T>>, Seq<Entry<T>>),
        q: int,
        e: Entry<T>,
    )
        requires
            0 <= q < 4,
            new_kids.0.to_multiset() == if q == 0 {
                old_kids.0.to_multiset().insert(e)
            } else {
                old_kids.0.to_multiset()
            },
            new_kids.1.to_multiset() == if q == 1 {
                old_kids.1.to_multiset().insert(e)
            } else {
                old_kids.1.to_multiset()
            },
            new_kids.2.to_multiset() == if q == 2 {
                old_kids.2.to_multiset().insert(e)
            } else {
                old_kids.2.to_multiset()
            },
            new_kids.3.to_multiset() == if q == 3 {
                old_kids.3.to_multiset().insert(e)
            } else {
                old_kids.3.to_multiset()
            },
        ensures
            (points + new_kids.0 + new_kids.1 + new_kids.2 + new_kids.3).to_multiset() == (points
                + old_kids.0 + old_kids.1 + old_kids.2 + old_kids.3).to_multiset().insert(e),
    {
        broadcast use vstd::seq_lib::lemma_multiset_commutative;

        assert((points + new_kids.0 + new_kids.1 + new_kids.2 + new_kids.3).to_multiset() =~= (
        points + old_kids.0 + old_kids.1 + old_kids.2 + old_kids.3).to_multiset().insert(e));
    }

    /// Storing an entry keeps the tree well formed, over the same boundary
    /// and with the same capacity. An entry whose point lies in the boundary
    /// is then among the entries, once more than before, and nothing else
    /// has changed among them; any other entry leaves the tree as it was.
    pub proof fn lemma_inserted(self, e: Entry<T>)
        requires
            self.wf(),
        ensures
            self.inserted(e).wf(),
            self.inserted(e).boundary == self.boundary,
            self.inserted(e).cap == self.cap,
            self.boundary.spec_contains(e.point) ==> self.inserted(e).entries().to_multiset()
                == self.entries().to_multiset().insert(e),
            !self.boundary.spec_contains(e.point) ==> self.inserted(e) == self,
        decreases self.boundary.half,
    {
        if !self.boundary.spec_contains(e.point) {
        } else if self.takes_entries() {
            vstd::seq_lib::to_multiset_build(self.points, e);
            assert(self.inserted(e).entries() == self.points.push(e));
            assert(self.entries() == self.points);
        } else {
            self.lemma_subdivided();
            self.boundary.lemma_quadrants_wf();
            self.boundary.lemma_quadrants_cover(e.point);
            let d = self.subdivided();
            let kids = d.sub->0;
            let q = self.boundary.first_quadrant(e.point);
            if q == 0 {
                kids.0.lemma_inserted(e);
            } else if q == 1 {
                kids.1.lemma_inserted(e);
            } else if q == 2 {
                kids.2.lemma_inserted(e);
            } else {
                kids.3.lemma_inserted(e);
            }
            let r = self.inserted(e);
            let next = r.sub->0;
            Self::lemma_quadrant_grown(
                self.points,
                (kids.0.entries(), kids.1.entries(), kids.2.entries(), kids.3.entries()),
                (next.0.entries(), next.1.entries(), next.2.entries(), next.3.entries()),
                q,
                e,
            );
        }
    }

    /// The tree that `build` makes over a proper boundary is well formed
    /// and holds the entries it was given.
    pub proof fn lemma_built(boundary: Box2d, cap: usize, entries: Seq<Entry<T>>)
        requires
            boundary.wf(),
        ensures
            Self::built(boundary, cap, entries).wf(),
            Self::built(boundary, cap, entries).boundary == boundary,
            Self::built(boundary, cap, entries).cap == cap,
            Self::built(boundary, cap, entries).holds(entries),
        decreases entries.len(),
    {
        reveal(Seq::filter);
        if entries.len() > 0 {
            let front = entries.drop_last();
            let e = entries.last();
            Self::lemma_built(boundary, cap, front);
            let before = Self::built(boundary, cap, front);
            before.lemma_inserted(e);
            let kept = front.filter(in_range(boundary));
            assert(front.push(e) =~= entries);
            front.lemma_filter_push(e, in_range(boundary));
            if boundary.spec_contains(e.point) {
                assert(in_range(boundary)(e));
                vstd::seq_lib::to_multiset_build(kept, e);
            } else {
                assert(!in_range(boundary)(e));
            }
        } else {
            assert(Self::built(boundary, cap, entries).entries() =~= Seq::empty());
            assert(entries.filter(in_range(boundary)) =~= Seq::empty());
        }
    }

    /// An entry is in the answer for `range` exactly if it was given to the
    /// tree and lies both in the boundary and in `range`.
    pub proof fn lemma_found(self, entries: Seq<Entry<T>>, range: Box2d, e: Entry<T>)
        requires
            self.holds(entries),
        ensures
            self.entries().filter(in_range(range)).contains(e) <==> entries.contains(e)
                && self.boundary.spec_contains(e.point) && range.spec_contains(e.point),
    {
        lemma_filter_member(self.entries(), in_range(range), e);
        lemma_same_multiset_member(self.entries(), entries.filter(in_range(self.boundary)), e);
        lemma_filter_member(entries, in_range(self.boundary), e);
    }

    /// Where no entry was given twice, none is twice in an answer.
    pub proof fn lemma_found_once(self, entries: Seq<Entry<T>>, range: Box2d)
        requires
            self.holds(entries),
            entries.no_duplicates(),
        ensures
            self.entries().filter(in_range(range)).no_duplicates(),
    {
        lemma_filter_no_duplicates(entries, in_range(self.boundary));
        lemma_same_multiset_no_duplicates(entries.filter(in_range(self.boundary)), self.entries());
        lemma_filter_no_duplicates(self.entries(), in_range(range));
    }
}

impl<T: Copy> QuadTree<T> {
    /// Appends to `out` the entries of this subtree that lie in `range`.
    fn collect(&self, range: &Box2d, out: &mut Vec<Entry<T>>)
        requires
            self@.wf(),
        ensures
            final(out)@ == old(out)@ + self@.entries().filter(in_range(*range)),
        decreases self,
    {
        broadcast use Seq::filter_distributes_over_add;

        if !self.boundary.intersects(range) {
            proof {
                self@.lemma_pruned(*range);
            }
            return ;
        }
        let ghost start = out@;
        let mut i: usize = 0;
        while i < self.points.len()
            invariant
                i <= self.points.len(),
                out@ == start + self.points@.take(i as int).filter(in_range(*range)),
            decreases self.points.len() - i,
        {
            let e = self.points[i];
            proof {
                assert(self.points@.take(i + 1) =~= self.points@.take(i as int).push(e));
                self.points@.take(i as int).lemma_filter_push(e, in_range(*range));
            }
            if range.contains(e.point) {
                out.push(e);
            }
            i += 1;
        }
        proof {
            assert(self.points@.take(self.points.len() as int) =~= self.points@);
        }
        match &self.sub {
            None => {},
            Some(kids) => {
                kids.0.collect(range, out);
                kids.1.collect(range, out);
                kids.2.collect(range, out);
                kids.3.collect(range, out);
            },
        }
    }

    /// The entries whose point lies in `range`, in the order in which the
    /// tree holds them. A subtree whose boundary does not meet `range` is
    /// passed over without a look at its entries.
    pub fn query(&self, range: Box2d) -> (found: Vec<Entry<T>>)
        requires
            self@.wf(),
        ensures
            found@ == self@.entries().filter(in_range(range)),
    {
        let mut found: Vec<Entry<T>> = Vec::new();
        self.collect(&range, &mut found);
        found
    }

    /// A tree over `boundary` in which the entries were stored one after the
    /// other. It holds those of `entries` whose point lies in `boundary`,
    /// each as often as it is given.
    pub fn build(boundary: Box2d, cap: usize, entries: &Vec<Entry<T>>) -> (tree: Self)
        requires
            boundary.wf(),
        ensures
            tree@ == TreeView::built(boundary, cap, entries@),
            tree@.wf(),
            tree@.boundary == boundary,
            tree@.cap == cap,
            tree@.holds(entries@),
    {
        let mut tree = Self::new(boundary, cap);
        let mut i: usize = 0;
        while i < entries.len()
            invariant
                i <= entries.len(),
                tree@ == TreeView::built(boundary, cap, entries@.take(i as int)),
                tree@.wf(),
            decreases entries.len() - i,
        {
            let e = entries[i];
            proof {
                assert(entries@.take(i + 1).drop_last() =~= entries@.take(i as int));
                assert(e == Entry { point: e.point, id: e.id, payload: e.payload });
            }
            tree.insert((e.point, e.id), e.payload);
            i += 1;
        }
        proof {
            assert(entries@.take(entries.len() as int) =~= entries@);
            TreeView::lemma_built(boundary, cap, entries@);
        }
        tree
    }
}

} // verus!
