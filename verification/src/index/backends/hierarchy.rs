//! The bounding-volume hierarchy shared by the R-tree and the BVH
//! backends: a tree of nodes, each with a box that encloses what lies
//! beneath it.
//!
//! A node holds items, child nodes, or both. Queries descend only into
//! nodes whose box can hold a match, so what they return rests on two
//! facts that the invariant states: every box beneath a node lies within
//! the node's box, and no slot occurs twice.

use crate::index::backends::sah::{choose_split, is_split, lemma_permutation_covers, permutes};
use crate::index::types::{ordered, Aabb2D, Scalar};
use vstd::prelude::*;
use vstd::std_specs::cmp::PartialOrdIs;

verus! {

/// A slot with its box.
#[derive(Clone, Copy, Debug)]
pub struct Item<T> {
    /// The slot.
    pub slot: usize,
    /// The box held under the slot.
    pub aabb: Aabb2D<T>,
}

/// A node of the hierarchy.
#[derive(Debug)]
pub struct HNode<T> {
    /// A box that encloses every box in and beneath the node. It says
    /// nothing where the node holds nothing.
    pub bbox: Aabb2D<T>,
    /// The items of the node itself.
    pub items: Vec<Item<T>>,
    /// The child nodes.
    pub kids: Vec<HNode<T>>,
}

/// Whether `outer` encloses `inner`: on each axis the minimum of `outer`
/// is at or below that of `inner`, and its maximum at or above.
pub open spec fn encloses<T: Copy + PartialOrd>(outer: Aabb2D<T>, inner: Aabb2D<T>) -> bool {
    &&& outer.min_x.is_le(&inner.min_x)
    &&& outer.min_y.is_le(&inner.min_y)
    &&& inner.max_x.is_le(&outer.max_x)
    &&& inner.max_y.is_le(&outer.max_y)
}

/// Enclosing is reflexive and transitive; a box that encloses another
/// contains the points and overlaps the boxes that the other does; and the
/// join of two boxes encloses both.
pub proof fn lemma_encloses<T: Scalar>(a: Aabb2D<T>, b: Aabb2D<T>, c: Aabb2D<T>, x: T, y: T)
    requires
        ordered::<T>(),
    ensures
        encloses(a, a),
        encloses(a, b) && encloses(b, c) ==> encloses(a, c),
        encloses(a, b) && b.contains(x, y) ==> a.contains(x, y),
        encloses(a, b) && b.touches(c) ==> a.touches(c),
        encloses(a.join(b), a),
        encloses(a.join(b), b),
{
    T::lemma_order(a.min_x, b.min_x, c.min_x);
    T::lemma_order(a.min_y, b.min_y, c.min_y);
    T::lemma_order(c.max_x, b.max_x, a.max_x);
    T::lemma_order(c.max_y, b.max_y, a.max_y);
    T::lemma_order(a.max_x, a.max_x, a.max_x);
    T::lemma_order(a.max_y, a.max_y, a.max_y);
    T::lemma_order(b.min_x, b.max_x, b.max_x);
    T::lemma_order(b.min_y, b.max_y, b.max_y);
    T::lemma_order(b.max_x, a.max_x, b.min_x);
    T::lemma_order(b.max_y, a.max_y, b.min_y);
    T::lemma_order(a.min_x, b.min_x, x);
    T::lemma_order(a.min_y, b.min_y, y);
    T::lemma_order(x, b.max_x, a.max_x);
    T::lemma_order(y, b.max_y, a.max_y);
    T::lemma_order(a.min_x, b.min_x, c.max_x);
    T::lemma_order(a.min_y, b.min_y, c.max_y);
    T::lemma_order(c.min_x, b.max_x, a.max_x);
    T::lemma_order(c.min_y, b.max_y, a.max_y);
    T::lemma_order(b.max_x, c.min_x, c.min_x);
    T::lemma_order(b.max_y, c.min_y, c.min_y);
    T::lemma_order(a.max_x, c.min_x, c.min_x);
    T::lemma_order(a.max_y, c.min_y, c.min_y);
    T::lemma_order(a.min_x, a.min_x, b.min_x);
    T::lemma_order(a.min_y, a.min_y, b.min_y);
    T::lemma_order(b.min_x, a.min_x, a.min_x);
    T::lemma_order(b.min_y, a.min_y, a.min_y);
    T::lemma_order(a.max_x, b.max_x, b.max_x);
    T::lemma_order(a.max_y, b.max_y, b.max_y);
    T::lemma_order(b.max_x, b.max_x, a.max_x);
    T::lemma_order(b.max_y, b.max_y, a.max_y);
    T::lemma_order(b.min_x, b.min_x, b.min_x);
    T::lemma_order(b.min_y, b.min_y, b.min_y);
}

/// What a query looks for: the boxes that contain a point, or those that
/// overlap a box.
#[derive(Clone, Copy, Debug)]
pub enum Probe<T> {
    /// The point `(x, y)`.
    Point(T, T),
    /// A box.
    Rect(Aabb2D<T>),
}

impl<T: Scalar> Probe<T> {
    /// Whether `aabb` answers the probe.
    pub open spec fn matches(self, aabb: Aabb2D<T>) -> bool {
        match self {
            Probe::Point(x, y) => aabb.contains(x, y),
            Probe::Rect(r) => aabb.touches(r),
        }
    }

    /// Decide whether `aabb` answers the probe.
    pub fn hits(&self, aabb: &Aabb2D<T>) -> (r: bool)
        ensures
            ordered::<T>() ==> r == self.matches(*aabb),
    {
        match self {
            Probe::Point(x, y) => aabb.contains_point(*x, *y),
            Probe::Rect(r) => aabb.overlaps(r),
        }
    }

    /// A box that encloses one that answers the probe answers it too.
    pub proof fn lemma_enclosing_matches(self, outer: Aabb2D<T>, inner: Aabb2D<T>)
        requires
            ordered::<T>(),
            encloses(outer, inner),
            self.matches(inner),
        ensures
            self.matches(outer),
    {
        match self {
            Probe::Point(x, y) => {
                lemma_encloses(outer, inner, inner, x, y);
            },
            Probe::Rect(r) => {
                lemma_encloses(outer, inner, r, r.min_x, r.min_y);
            },
        }
    }
}

impl<T: Scalar> HNode<T> {
    /// The items in and beneath the node.
    pub open spec fn content(self) -> Set<Item<T>>
        decreases self,
    {
        Set::new(
            |x: Item<T>|
                self.items@.contains(x) || exists|i: int|
                    0 <= i < self.kids.len() && (#[trigger] self.kids[i]).content().contains(x),
        )
    }

    /// Whether slot `s` occurs in or beneath the node.
    pub open spec fn has_slot(self, s: usize) -> bool {
        exists|x: Item<T>| #[trigger] self.content().contains(x) && x.slot == s
    }

    /// The invariant of a node: its box encloses every box in and beneath
    /// it, no slot occurs twice in or beneath it, and its children satisfy
    /// the invariant themselves.
    pub open spec fn wf(self) -> bool
        decreases self,
    {
        &&& forall|a: int, b: int|
            0 <= a < b < self.items.len() ==> self.items[a].slot != self.items[b].slot
        &&& forall|i: int| 0 <= i < self.kids.len() ==> (#[trigger] self.kids[i]).wf()
        &&& forall|i: int, a: int|
            0 <= i < self.kids.len() && 0 <= a < self.items.len() ==> !(#[trigger] self.kids[i]).has_slot(
                (#[trigger] self.items[a]).slot,
            )
        &&& forall|i: int, j: int, s: usize|
            #![trigger self.kids[i].has_slot(s), self.kids[j].has_slot(s)]
            0 <= i < j < self.kids.len() ==> !(self.kids[i].has_slot(s) && self.kids[j].has_slot(s))
        &&& forall|x: Item<T>| #[trigger] self.content().contains(x) ==> encloses(self.bbox, x.aabb)
    }

    /// Whether no node in or beneath this one holds more than `max_items`
    /// items or more than `max_kids` children.
    pub open spec fn within(self, max_items: usize, max_kids: usize) -> bool
        decreases self,
    {
        &&& self.items.len() <= max_items
        &&& self.kids.len() <= max_kids
        &&& forall|i: int|
            0 <= i < self.kids.len() ==> (#[trigger] self.kids[i]).within(max_items, max_kids)
    }

    /// Whether the node holds nothing.
    pub open spec fn is_vacant(self) -> bool {
        self.items.len() == 0 && self.kids.len() == 0
    }

    /// A node without items or children.
    pub fn vacant(bbox: Aabb2D<T>) -> (r: Self)
        ensures
            r.wf(),
            r.is_vacant(),
            r.bbox == bbox,
            r.content() == Set::<Item<T>>::empty(),
    {
        let r = HNode { bbox, items: Vec::new(), kids: Vec::new() };
        assert(r.content() =~= Set::<Item<T>>::empty());
        r
    }

    /// Within a well-formed node a slot has one box.
    pub proof fn lemma_one_box(self, x: Item<T>, y: Item<T>)
        requires
            self.wf(),
            self.content().contains(x),
            self.content().contains(y),
            x.slot == y.slot,
        ensures
            x == y,
        decreases self,
    {
        if self.items@.contains(x) {
            let a = choose|a: int| 0 <= a < self.items.len() && self.items[a] == x;
            if self.items@.contains(y) {
                let b = choose|b: int| 0 <= b < self.items.len() && self.items[b] == y;
                if a < b {
                    assert(self.items[a].slot != self.items[b].slot);
                } else if b < a {
                    assert(self.items[b].slot != self.items[a].slot);
                }
            } else {
                let j = choose|j: int|
                    0 <= j < self.kids.len() && (#[trigger] self.kids[j]).content().contains(y);
                assert(self.kids[j].has_slot(self.items[a].slot));
            }
        } else {
            let i = choose|i: int|
                0 <= i < self.kids.len() && (#[trigger] self.kids[i]).content().contains(x);
            if self.items@.contains(y) {
                let b = choose|b: int| 0 <= b < self.items.len() && self.items[b] == y;
                assert(self.kids[i].has_slot(self.items[b].slot));
            } else {
                let j = choose|j: int|
                    0 <= j < self.kids.len() && (#[trigger] self.kids[j]).content().contains(y);
                if i == j {
                    self.kids[i].lemma_one_box(x, y);
                } else if i < j {
                    assert(self.kids[i].has_slot(x.slot) && self.kids[j].has_slot(x.slot));
                } else {
                    assert(self.kids[j].has_slot(x.slot) && self.kids[i].has_slot(x.slot));
                }
            }
        }
    }

    /// Append to `out` the slots in and beneath the node whose box answers
    /// the probe, each once. Nodes whose own box does not answer it are
    /// passed over with all that lies beneath them.
    pub fn collect(&self, probe: Probe<T>, out: &mut Vec<usize>)
        requires
            self.wf(),
        ensures
            final(out)@.len() >= old(out)@.len(),
            final(out)@.take(old(out)@.len() as int) == old(out)@,
            final(out)@.skip(old(out)@.len() as int).no_duplicates(),
            forall|s: usize|
                #[trigger] final(out)@.skip(old(out)@.len() as int).contains(s) ==> self.has_slot(s),
            ordered::<T>() ==> forall|s: usize|
                #[trigger] final(out)@.skip(old(out)@.len() as int).contains(s) <==> exists|
                    it: Item<T>,
                |
                    #[trigger] self.content().contains(it) && it.slot == s && probe.matches(it.aabb),
        decreases self,
    {
        let ghost base = out@;
        if self.items.len() == 0 && self.kids.len() == 0 {
            assert(out@.skip(base.len() as int) =~= Seq::<usize>::empty());
            proof {
                assert forall|it: Item<T>| !self.content().contains(it) by {}
            }
            return ;
        }
        if !probe.hits(&self.bbox) {
            proof {
                assert(out@.skip(base.len() as int) =~= Seq::<usize>::empty());
                if ordered::<T>() {
                    assert forall|it: Item<T>|
                        self.content().contains(it) implies !probe.matches(it.aabb) by {
                        if probe.matches(it.aabb) {
                            probe.lemma_enclosing_matches(self.bbox, it.aabb);
                        }
                    }
                }
            }
            return ;
        }
        let mut a: usize = 0;
        while a < self.items.len()
            invariant
                self.wf(),
                a <= self.items.len(),
                out@.len() >= base.len(),
                out@.take(base.len() as int) == base,
                out@.skip(base.len() as int).no_duplicates(),
                forall|s: usize|
                    #[trigger] out@.skip(base.len() as int).contains(s) ==> exists|w: int|
                        0 <= w < a && (#[trigger] self.items[w]).slot == s,
                ordered::<T>() ==> forall|w: int|
                    0 <= w < a && probe.matches((#[trigger] self.items[w]).aabb) ==> out@.skip(
                        base.len() as int,
                    ).contains(self.items[w].slot),
                ordered::<T>() ==> forall|s: usize|
                    #[trigger] out@.skip(base.len() as int).contains(s) ==> exists|w: int|
                        0 <= w < a && (#[trigger] self.items[w]).slot == s
                            && probe.matches(self.items[w].aabb),
            decreases self.items.len() - a,
        {
            let it = self.items[a];
            let ghost tail = out@.skip(base.len() as int);
            if probe.hits(&it.aabb) {
                proof {
                    if tail.contains(it.slot) {
                        let w = choose|w: int| 0 <= w < a && (#[trigger] self.items[w]).slot == it.slot;
                        assert(self.items[w].slot != self.items[a as int].slot);
                    }
                }
                out.push(it.slot);
                proof {
                    assert(out@.skip(base.len() as int) =~= tail.push(it.slot));
                    crate::index::backends::flatvec::lemma_push_contains(tail, it.slot);
                    assert(out@.take(base.len() as int) =~= base);
                }
            }
            proof {
                let tail2 = out@.skip(base.len() as int);
                assert forall|s: usize| #[trigger] tail2.contains(s) implies exists|w: int|
                    0 <= w < a + 1 && (#[trigger] self.items[w]).slot == s by {
                    if tail.contains(s) {
                        let w = choose|w: int| 0 <= w < a && (#[trigger] self.items[w]).slot == s;
                        assert(self.items[w].slot == s);
                    } else {
                        assert(self.items[a as int].slot == s);
                    }
                }
                if ordered::<T>() {
                    assert forall|s: usize| #[trigger] tail2.contains(s) implies exists|w: int|
                        0 <= w < a + 1 && (#[trigger] self.items[w]).slot == s
                            && probe.matches(self.items[w].aabb) by {
                        if tail.contains(s) {
                            let w = choose|w: int|
                                0 <= w < a && (#[trigger] self.items[w]).slot == s
                                    && probe.matches(self.items[w].aabb);
                            assert(self.items[w].slot == s);
                        } else {
                            assert(self.items[a as int].slot == s);
                        }
                    }
                }
            }
            a += 1;
        }
        proof {
            let own = out@.skip(base.len() as int);
            if ordered::<T>() {
                assert forall|s: usize| #[trigger] own.contains(s) implies exists|it: Item<T>|
                    #[trigger] self.content().contains(it) && it.slot == s && probe.matches(it.aabb) by {
                    let w = choose|w: int|
                        0 <= w < self.items.len() && (#[trigger] self.items[w]).slot == s
                            && probe.matches(self.items[w].aabb);
                    assert(self.items@.contains(self.items[w]));
                    assert(self.content().contains(self.items[w]));
                }
            }
        }
        let mut i: usize = 0;
        while i < self.kids.len()
            invariant
                self.wf(),
                i <= self.kids.len(),
                out@.len() >= base.len(),
                out@.take(base.len() as int) == base,
                out@.skip(base.len() as int).no_duplicates(),
                forall|s: usize|
                    #[trigger] out@.skip(base.len() as int).contains(s) ==> (exists|w: int|
                        0 <= w < self.items.len() && (#[trigger] self.items[w]).slot == s)
                        || exists|j: int| 0 <= j < i && (#[trigger] self.kids[j]).has_slot(s),
                ordered::<T>() ==> forall|w: int|
                    0 <= w < self.items.len() && probe.matches((#[trigger] self.items[w]).aabb)
                        ==> out@.skip(base.len() as int).contains(self.items[w].slot),
                ordered::<T>() ==> forall|j: int, it: Item<T>|
                    0 <= j < i && (#[trigger] self.kids[j]).content().contains(it)
                        && #[trigger] probe.matches(it.aabb) ==> out@.skip(
                        base.len() as int,
                    ).contains(it.slot),
                ordered::<T>() ==> forall|s: usize|
                    #[trigger] out@.skip(base.len() as int).contains(s) ==> exists|it: Item<T>|
                        #[trigger] self.content().contains(it) && it.slot == s && probe.matches(it.aabb),
            decreases self.kids.len() - i,
        {
            let ghost before = out@;
            let ghost tail = out@.skip(base.len() as int);
            self.kids[i].collect(probe, out);
            proof {
                let added = out@.skip(before.len() as int);
                let tail2 = out@.skip(base.len() as int);
                assert(out@.take(base.len() as int) =~= base) by {
                    assert(out@.take(before.len() as int) == before);
                    assert forall|k: int| 0 <= k < base.len() implies out@[k] == base[k] by {
                        assert(out@.take(before.len() as int)[k] == before[k]);
                        assert(before.take(base.len() as int)[k] == base[k]);
                    }
                }
                assert(tail2 =~= tail + added) by {
                    assert forall|k: int| 0 <= k < tail.len() implies tail2[k] == tail[k] by {
                        assert(out@.take(before.len() as int)[base.len() + k] == before[base.len()
                            + k]);
                    }
                }
                crate::box_tree::commit::lemma_concat_contains(tail, added);
                assert(tail2.no_duplicates()) by {
                    assert forall|p: int, q: int|
                        0 <= p < tail2.len() && 0 <= q < tail2.len() && p != q implies tail2[p]
                        != tail2[q] by {
                        if p < tail.len() && q < tail.len() {
                            assert(tail[p] != tail[q]);
                        } else if p >= tail.len() && q >= tail.len() {
                            assert(added[p - tail.len()] != added[q - tail.len()]);
                        } else {
                            let (lo, hi) = if p < q { (p, q) } else { (q, p) };
                            let s = tail2[hi];
                            assert(added[hi - tail.len()] == s);
                            assert(added.contains(s));
                            assert(self.kids[i as int].has_slot(s));
                            if tail2[lo] == s {
                                assert(tail[lo] == s);
                                assert(tail.contains(s));
                                if exists|w: int|
                                    0 <= w < self.items.len() && (#[trigger] self.items[w]).slot
                                        == s {
                                    let w = choose|w: int|
                                        0 <= w < self.items.len() && (#[trigger] self.items[w]).slot
                                            == s;
                                    assert(!self.kids[i as int].has_slot(self.items[w].slot));
                                } else {
                                    let j = choose|j: int|
                                        0 <= j < i && (#[trigger] self.kids[j]).has_slot(s);
                                    assert(!(self.kids[j].has_slot(s) && self.kids[i as int].has_slot(
                                        s,
                                    )));
                                }
                            }
                        }
                    }
                }
                assert forall|s: usize| #[trigger] tail2.contains(s) implies (exists|w: int|
                    0 <= w < self.items.len() && (#[trigger] self.items[w]).slot == s)
                    || exists|j: int| 0 <= j < i + 1 && (#[trigger] self.kids[j]).has_slot(s) by {
                    if tail.contains(s) {
                        if !(exists|w: int|
                            0 <= w < self.items.len() && (#[trigger] self.items[w]).slot == s) {
                            let j = choose|j: int|
                                0 <= j < i && (#[trigger] self.kids[j]).has_slot(s);
                            assert(self.kids[j].has_slot(s));
                        }
                    } else {
                        assert(added.contains(s));
                        assert(self.kids[i as int].has_slot(s));
                    }
                }
                if ordered::<T>() {
                    assert forall|j: int, it: Item<T>|
                        0 <= j < i + 1 && (#[trigger] self.kids[j]).content().contains(it)
                            && #[trigger] probe.matches(it.aabb) implies tail2.contains(it.slot) by {
                        if j < i {
                            assert(tail.contains(it.slot));
                        } else {
                            assert(added.contains(it.slot));
                        }
                    }
                    assert forall|s: usize| #[trigger] tail2.contains(s) implies exists|
                        it: Item<T>,
                    |
                        #[trigger] self.content().contains(it) && it.slot == s && probe.matches(it.aabb) by {
                        if tail.contains(s) {
                        } else {
                            assert(added.contains(s));
                            let it = choose|it: Item<T>|
                                #[trigger] self.kids[i as int].content().contains(it) && it.slot
                                    == s && probe.matches(it.aabb);
                            assert(self.content().contains(it));
                        }
                    }
                }
            }
            i += 1;
        }
        proof {
            let tail = out@.skip(base.len() as int);
            assert forall|s: usize| #[trigger] tail.contains(s) implies self.has_slot(s) by {
                if exists|w: int| 0 <= w < self.items.len() && (#[trigger] self.items[w]).slot == s {
                    let w = choose|w: int|
                        0 <= w < self.items.len() && (#[trigger] self.items[w]).slot == s;
                    assert(self.items@.contains(self.items[w]));
                    assert(self.content().contains(self.items[w]));
                } else {
                    let j = choose|j: int|
                        0 <= j < self.kids.len() && (#[trigger] self.kids[j]).has_slot(s);
                    let it = choose|it: Item<T>|
                        #[trigger] self.kids[j].content().contains(it) && it.slot == s;
                    assert(self.content().contains(it));
                }
            }
            if ordered::<T>() {
                assert forall|s: usize|
                    (exists|it: Item<T>|
                        #[trigger] self.content().contains(it) && it.slot == s && probe.matches(it.aabb)) implies #[trigger] tail.contains(s) by {
                    let it = choose|it: Item<T>|
                        #[trigger] self.content().contains(it) && it.slot == s && probe.matches(it.aabb);
                    if self.items@.contains(it) {
                        let w = choose|w: int| 0 <= w < self.items.len() && self.items[w] == it;
                        assert(probe.matches(self.items[w].aabb));
                    } else {
                        let j = choose|j: int|
                            0 <= j < self.kids.len() && (#[trigger] self.kids[j]).content().contains(
                                it,
                            );
                        assert(self.kids[j].content().contains(it) && probe.matches(it.aabb));
                    }
                }
            }
        }
    }
}

impl<T: Scalar> HNode<T> {
    /// The invariant of a node but for what it says of the node's own
    /// box.
    pub open spec fn wf_inner(self) -> bool {
        &&& forall|a: int, b: int|
            0 <= a < b < self.items.len() ==> self.items[a].slot != self.items[b].slot
        &&& forall|i: int| 0 <= i < self.kids.len() ==> (#[trigger] self.kids[i]).wf()
        &&& forall|i: int, a: int|
            0 <= i < self.kids.len() && 0 <= a < self.items.len() ==> !(#[trigger] self.kids[i]).has_slot(
                (#[trigger] self.items[a]).slot,
            )
        &&& forall|i: int, j: int, s: usize|
            #![trigger self.kids[i].has_slot(s), self.kids[j].has_slot(s)]
            0 <= i < j < self.kids.len() ==> !(self.kids[i].has_slot(s) && self.kids[j].has_slot(s))
    }

    /// Fit the node's box to what it holds: the join of the boxes of its
    /// items and of its children that hold anything.
    pub fn fit(&mut self)
        requires
            ordered::<T>(),
            old(self).wf_inner(),
        ensures
            final(self).wf(),
            final(self).items == old(self).items,
            final(self).kids == old(self).kids,
    {
        let mut acc: Option<Aabb2D<T>> = None;
        let mut a: usize = 0;
        while a < self.items.len()
            invariant
                ordered::<T>(),
                a <= self.items.len(),
                self.items == old(self).items,
                self.kids == old(self).kids,
                a > 0 ==> acc is Some,
                forall|w: int|
                    0 <= w < a ==> encloses(acc->0, (#[trigger] self.items[w]).aabb),
            decreases self.items.len() - a,
        {
            let b = self.items[a].aabb;
            let ghost prev = acc;
            acc = Some(
                match acc {
                    Some(c) => c.union(b),
                    None => b,
                },
            );
            proof {
                let now = acc->0;
                lemma_encloses(b, b, b, b.min_x, b.min_y);
                if prev is Some {
                    lemma_encloses(prev->0, b, b, b.min_x, b.min_y);
                }
                assert forall|w: int| 0 <= w < a + 1 implies encloses(
                    now,
                    (#[trigger] self.items[w]).aabb,
                ) by {
                    if w < a {
                        lemma_encloses(now, prev->0, self.items[w].aabb, b.min_x, b.min_y);
                    }
                }
            }
            a += 1;
        }
        let mut i: usize = 0;
        while i < self.kids.len()
            invariant
                ordered::<T>(),
                i <= self.kids.len(),
                self.items == old(self).items,
                self.kids == old(self).kids,
                old(self).wf_inner(),
                self.items.len() > 0 ==> acc is Some,
                forall|w: int|
                    0 <= w < self.items.len() ==> encloses(acc->0, (#[trigger] self.items[w]).aabb),
                forall|j: int, x: Item<T>|
                    0 <= j < i && (#[trigger] self.kids[j]).content().contains(x) ==> acc is Some
                        && encloses(acc->0, #[trigger] x.aabb),
            decreases self.kids.len() - i,
        {
            let holds = self.kids[i].items.len() > 0 || self.kids[i].kids.len() > 0;
            let ghost prev = acc;
            if holds {
                let b = self.kids[i].bbox;
                acc = Some(
                    match acc {
                        Some(c) => c.union(b),
                        None => b,
                    },
                );
                proof {
                    let now = acc->0;
                    lemma_encloses(b, b, b, b.min_x, b.min_y);
                    if prev is Some {
                        lemma_encloses(prev->0, b, b, b.min_x, b.min_y);
                    }
                    assert forall|w: int| 0 <= w < self.items.len() implies encloses(
                        now,
                        (#[trigger] self.items[w]).aabb,
                    ) by {
                        lemma_encloses(now, prev->0, self.items[w].aabb, b.min_x, b.min_y);
                    }
                    assert forall|j: int, x: Item<T>|
                        0 <= j < i + 1 && (#[trigger] self.kids[j]).content().contains(
                            x,
                        ) implies acc is Some && encloses(acc->0, #[trigger] x.aabb) by {
                        if j < i {
                            lemma_encloses(now, prev->0, x.aabb, b.min_x, b.min_y);
                        } else {
                            assert(self.kids[j].wf());
                            lemma_encloses(now, b, x.aabb, b.min_x, b.min_y);
                        }
                    }
                }
            } else {
                proof {
                    assert forall|x: Item<T>| !self.kids[i as int].content().contains(x) by {}
                }
            }
            i += 1;
        }
        if let Some(b) = acc {
            self.bbox = b;
        }
        proof {
            assert forall|x: Item<T>| #[trigger] self.content().contains(x) implies encloses(
                self.bbox,
                x.aabb,
            ) by {
                if self.items@.contains(x) {
                    let w = choose|w: int| 0 <= w < self.items.len() && self.items[w] == x;
                    assert(encloses(acc->0, self.items[w].aabb));
                } else {
                    let j = choose|j: int|
                        0 <= j < self.kids.len() && (#[trigger] self.kids[j]).content().contains(x);
                    assert(self.kids[j].content().contains(x));
                }
            }
        }
    }

    /// The child that takes a new box with the least resulting area, the
    /// first of several.
    fn choose_child(&self, aabb: &Aabb2D<T>) -> (c: usize)
        requires
            ordered::<T>(),
            self.kids.len() > 0,
        ensures
            c < self.kids.len(),
            forall|j: int|
                0 <= j < self.kids.len() ==> !T::acc_lt_spec(
                    #[trigger] grown_area(self.kids[j], *aabb),
                    grown_area(self.kids[c as int], *aabb),
                ),
            forall|j: int|
                0 <= j < c ==> T::acc_lt_spec(
                    grown_area(self.kids[c as int], *aabb),
                    #[trigger] grown_area(self.kids[j], *aabb),
                ),
    {
        let mut best: usize = 0;
        let mut best_area = self.kids[0].bbox.union(*aabb).area();
        let mut i: usize = 1;
        proof {
            T::lemma_acc_order(best_area, best_area, best_area);
        }
        while i < self.kids.len()
            invariant
                ordered::<T>(),
                1 <= i <= self.kids.len(),
                best < i,
                best_area == grown_area(self.kids[best as int], *aabb),
                forall|j: int|
                    0 <= j < i ==> !T::acc_lt_spec(
                        #[trigger] grown_area(self.kids[j], *aabb),
                        best_area,
                    ),
                forall|j: int|
                    0 <= j < best ==> T::acc_lt_spec(
                        best_area,
                        #[trigger] grown_area(self.kids[j], *aabb),
                    ),
            decreases self.kids.len() - i,
        {
            let area = self.kids[i].bbox.union(*aabb).area();
            assert(area == grown_area(self.kids[i as int], *aabb));
            if T::acc_lt(area, best_area) {
                proof {
                    assert forall|j: int| 0 <= j < i + 1 implies !T::acc_lt_spec(
                        #[trigger] grown_area(self.kids[j], *aabb),
                        area,
                    ) by {
                        T::lemma_acc_order(grown_area(self.kids[j], *aabb), area, best_area);
                        T::lemma_acc_order(area, area, area);
                    }
                    assert forall|j: int| 0 <= j < i implies T::acc_lt_spec(
                        area,
                        #[trigger] grown_area(self.kids[j], *aabb),
                    ) by {
                        T::lemma_acc_order(area, grown_area(self.kids[j], *aabb), best_area);
                    }
                }
                best = i;
                best_area = area;
            }
            i += 1;
        }
        best
    }
}

/// The area of the box of `kid` once it has taken `aabb`.
pub open spec fn grown_area<T: Scalar>(kid: HNode<T>, aabb: Aabb2D<T>) -> T::Acc {
    kid.bbox.join(aabb).area_spec()
}

/// Decide whether `outer` encloses `inner`.
pub fn encloses_box<T: Scalar>(outer: &Aabb2D<T>, inner: &Aabb2D<T>) -> (r: bool)
    ensures
        ordered::<T>() ==> r == encloses(*outer, *inner),
{
    outer.min_x <= inner.min_x && outer.min_y <= inner.min_y && inner.max_x <= outer.max_x
        && inner.max_y <= outer.max_y
}

/// The boxes of `items`, in order.
pub open spec fn item_boxes<T>(items: Seq<Item<T>>) -> Seq<Aabb2D<T>> {
    Seq::new(items.len(), |i: int| items[i].aabb)
}

/// The boxes of `nodes`, in order.
pub open spec fn node_boxes<T>(nodes: Seq<HNode<T>>) -> Seq<Aabb2D<T>> {
    Seq::new(nodes.len(), |i: int| nodes[i].bbox)
}

/// The elements of `whole` at the positions `order[from]` up to, not
/// including, `order[to]`.
pub open spec fn picked<A>(whole: Seq<A>, order: Seq<usize>, from: int, to: int) -> Seq<A> {
    Seq::new((to - from) as nat, |w: int| whole[order[from + w] as int])
}

/// `kept` and `given` are the two sides into which the surface-area
/// heuristic splits `whole`, whose elements have the boxes `boxes`: for an
/// order and a cut that [`choose_split`] may return, the elements before
/// the cut and those after it, each side in that order.
pub open spec fn sah_sides<T: Scalar, A>(
    whole: Seq<A>,
    boxes: Seq<Aabb2D<T>>,
    kept: Seq<A>,
    given: Seq<A>,
) -> bool {
    exists|order: Seq<usize>, k: int|
        {
            &&& #[trigger] is_split(boxes, order, k)
            &&& permutes(order, whole.len())
            &&& 1 <= k < whole.len()
            &&& kept == picked(whole, order, 0, k)
            &&& given == picked(whole, order, k, whole.len() as int)
        }
}

impl<T: Scalar> HNode<T> {
    /// What the content of a node is made of.
    pub proof fn lemma_content(self, x: Item<T>)
        ensures
            self.content().contains(x) <==> self.items@.contains(x) || exists|i: int|
                0 <= i < self.kids.len() && (#[trigger] self.kids[i]).content().contains(x),
    {
    }

    /// Split the items of an overfull leaf: the node keeps one side of the
    /// split and the other side is returned as a new leaf.
    pub fn split_items(&mut self) -> (sib: HNode<T>)
        requires
            ordered::<T>(),
            old(self).wf(),
            old(self).kids.len() == 0,
            old(self).items.len() >= 2,
        ensures
            final(self).wf(),
            sib.wf(),
            final(self).kids.len() == 0,
            sib.kids.len() == 0,
            final(self).items.len() >= 1,
            sib.items.len() >= 1,
            final(self).items.len() + sib.items.len() == old(self).items.len(),
            forall|x: Item<T>|
                #![trigger final(self).content().contains(x)]
                #![trigger sib.content().contains(x)]
                #![trigger old(self).content().contains(x)]
                final(self).content().contains(x) || sib.content().contains(x) <==> old(
                    self,
                ).content().contains(x),
            forall|s: usize| !(#[trigger] final(self).has_slot(s) && sib.has_slot(s)),
            sah_sides(
                old(self).items@,
                item_boxes(old(self).items@),
                final(self).items@,
                sib.items@,
            ),
    {
        let ghost old_items = self.items@;
        let n = self.items.len();
        let mut boxes: Vec<Aabb2D<T>> = Vec::new();
        let mut a: usize = 0;
        while a < n
            invariant
                a <= n,
                n == self.items.len(),
                boxes.len() == a,
                forall|w: int| 0 <= w < a ==> boxes[w] == self.items[w].aabb,
            decreases n - a,
        {
            boxes.push(self.items[a].aabb);
            a += 1;
        }
        let (order, k) = choose_split(&boxes);
        assert(boxes@ =~= item_boxes(old_items));
        let mut left: Vec<Item<T>> = Vec::new();
        let mut right: Vec<Item<T>> = Vec::new();
        let mut i: usize = 0;
        while i < n
            invariant
                i <= n,
                n == self.items.len(),
                self.items@ == old_items,
                permutes(order@, n as nat),
                1 <= k < n,
                left.len() == (if i < k { i } else { k }),
                right.len() == (if i < k { 0 } else { i - k }),
                forall|w: int| 0 <= w < left.len() ==> left[w] == old_items[order[w] as int],
                forall|w: int| 0 <= w < right.len() ==> right[w] == old_items[order[k + w] as int],
            decreases n - i,
        {
            let it = self.items[order[i]];
            if i < k {
                left.push(it);
            } else {
                right.push(it);
            }
            i += 1;
        }
        let ghost l = left@;
        let ghost r = right@;
        proof {
            assert(l =~= picked(old_items, order@, 0, k as int));
            assert(r =~= picked(old_items, order@, k as int, n as int));
            assert(sah_sides(old_items, item_boxes(old_items), l, r));
        }
        self.items = left;
        let mut sib = HNode { bbox: self.bbox, items: right, kids: Vec::new() };
        proof {
            assert forall|p: int, q: int| 0 <= p < q < l.len() implies l[p].slot != l[q].slot by {
                let (u, v) = (order[p] as int, order[q] as int);
                assert(order@[p] != order@[q]);
                if u < v {
                    assert(old_items[u].slot != old_items[v].slot);
                } else {
                    assert(old_items[v].slot != old_items[u].slot);
                }
            }
            assert forall|p: int, q: int| 0 <= p < q < r.len() implies r[p].slot != r[q].slot by {
                let (u, v) = (order[k + p] as int, order[k + q] as int);
                assert(order@[k + p] != order@[k + q]);
                if u < v {
                    assert(old_items[u].slot != old_items[v].slot);
                } else {
                    assert(old_items[v].slot != old_items[u].slot);
                }
            }
        }
        self.fit();
        sib.fit();
        proof {
            assert forall|x: Item<T>|
                #![trigger self.content().contains(x)]
                #![trigger sib.content().contains(x)]
                #![trigger old(self).content().contains(x)]
                self.content().contains(x) || sib.content().contains(x) <==> old(
                    self,
                ).content().contains(x) by {
                old(self).lemma_content(x);
                self.lemma_content(x);
                sib.lemma_content(x);
                if l.contains(x) {
                    let w = choose|w: int| 0 <= w < l.len() && l[w] == x;
                    assert(old_items[order[w] as int] == x);
                }
                if r.contains(x) {
                    let w = choose|w: int| 0 <= w < r.len() && r[w] == x;
                    assert(old_items[order[k + w] as int] == x);
                }
                if old_items.contains(x) {
                    let u = choose|u: int| 0 <= u < old_items.len() && old_items[u] == x;
                    lemma_permutation_covers(order@, n as nat, u as usize);
                    let w = choose|w: int| 0 <= w < order@.len() && order@[w] == u as usize;
                    if w < k {
                        assert(l[w] == x);
                    } else {
                        assert(r[w - k] == x);
                    }
                }
            }
            assert forall|s: usize| !(#[trigger] self.has_slot(s) && sib.has_slot(s)) by {
                if self.has_slot(s) && sib.has_slot(s) {
                    let x = choose|x: Item<T>| #[trigger] self.content().contains(x) && x.slot == s;
                    let y = choose|y: Item<T>| #[trigger] sib.content().contains(y) && y.slot == s;
                    self.lemma_content(x);
                    sib.lemma_content(y);
                    let p = choose|p: int| 0 <= p < l.len() && l[p] == x;
                    let q = choose|q: int| 0 <= q < r.len() && r[q] == y;
                    let (u, v) = (order[p] as int, order[k + q] as int);
                    assert(order@[p] != order@[k + q]);
                    if u < v {
                        assert(old_items[u].slot != old_items[v].slot);
                    } else {
                        assert(old_items[v].slot != old_items[u].slot);
                    }
                }
            }
        }
        sib
    }

    /// Whether `path` leads from the node, child by child, to a node that
    /// has `slot` among its own items.
    pub open spec fn leads_to(self, path: Seq<usize>, slot: usize) -> bool
        decreases path.len(),
    {
        if path.len() == 0 {
            exists|a: int| 0 <= a < self.items.len() && (#[trigger] self.items[a]).slot == slot
        } else {
            path[0] < self.kids.len() && self.kids[path[0] as int].leads_to(path.skip(1), slot)
        }
    }

    /// Find `slot` in or beneath the node. Its box is `aabb`: only
    /// children whose box encloses `aabb` are searched. Where the slot is
    /// found, the way to it is appended to `path`.
    pub fn locate(&self, slot: usize, aabb: &Aabb2D<T>, path: &mut Vec<usize>) -> (found: bool)
        requires
            ordered::<T>(),
            self.wf(),
            forall|x: Item<T>|
                #[trigger] self.content().contains(x) && x.slot == slot ==> x.aabb == *aabb,
        ensures
            found == self.has_slot(slot),
            final(path)@.len() >= old(path)@.len(),
            final(path)@.take(old(path)@.len() as int) == old(path)@,
            !found ==> final(path)@ == old(path)@,
            found ==> self.leads_to(final(path)@.skip(old(path)@.len() as int), slot),
        decreases self,
    {
        let ghost base = path@;
        let mut a: usize = 0;
        while a < self.items.len() && self.items[a].slot != slot
            invariant
                a <= self.items.len(),
                path@ == base,
                forall|w: int| 0 <= w < a ==> self.items[w].slot != slot,
            decreases self.items.len() - a,
        {
            a += 1;
        }
        if a < self.items.len() {
            proof {
                assert(self.items@.contains(self.items[a as int]));
                assert(self.content().contains(self.items[a as int]));
                assert(path@.skip(base.len() as int) =~= Seq::<usize>::empty());
                assert(path@.take(base.len() as int) =~= base);
            }
            return true;
        }
        let mut i: usize = 0;
        while i < self.kids.len()
            invariant
                ordered::<T>(),
                self.wf(),
                forall|x: Item<T>|
                    #[trigger] self.content().contains(x) && x.slot == slot ==> x.aabb == *aabb,
                i <= self.kids.len(),
                path@ == base,
                base == old(path)@,
                forall|w: int| 0 <= w < self.items.len() ==> self.items[w].slot != slot,
                forall|j: int| 0 <= j < i ==> !(#[trigger] self.kids[j]).has_slot(slot),
            decreases self.kids.len() - i,
        {
            let inside = encloses_box(&self.kids[i].bbox, aabb);
            let holds = self.kids[i].items.len() > 0 || self.kids[i].kids.len() > 0;
            let ghost kid = self.kids[i as int];
            proof {
                assert(kid.wf());
                assert forall|x: Item<T>|
                    #[trigger] kid.content().contains(x) && x.slot == slot implies x.aabb
                    == *aabb by {
                    assert(self.content().contains(x));
                }
                if !holds {
                    assert forall|x: Item<T>| !kid.content().contains(x) by {}
                }
                if !inside && kid.has_slot(slot) {
                    let x = choose|x: Item<T>| #[trigger] kid.content().contains(x) && x.slot == slot;
                    assert(encloses(kid.bbox, x.aabb));
                }
            }
            if inside && holds {
                path.push(i);
                let ghost mid = path@;
                if self.kids[i].locate(slot, aabb, path) {
                    proof {
                        let tail = path@.skip(base.len() as int);
                        assert(path@.take(mid.len() as int) == mid);
                        assert(tail[0] == i) by {
                            assert(path@.take(mid.len() as int)[base.len() as int] == mid[base.len() as int]);
                        }
                        assert(tail.skip(1) =~= path@.skip(mid.len() as int));
                        assert(path@.take(base.len() as int) =~= base) by {
                            assert forall|k: int| 0 <= k < base.len() implies path@[k] == base[k] by {
                                assert(path@.take(mid.len() as int)[k] == mid[k]);
                            }
                        }
                        let x = choose|x: Item<T>| #[trigger] kid.content().contains(x) && x.slot == slot;
                        assert(self.content().contains(x));
                    }
                    return true;
                }
                path.pop();
                assert(path@ =~= base);
            }
            i += 1;
        }
        proof {
            if self.has_slot(slot) {
                let x = choose|x: Item<T>| #[trigger] self.content().contains(x) && x.slot == slot;
                self.lemma_content(x);
                if self.items@.contains(x) {
                    let w = choose|w: int| 0 <= w < self.items.len() && self.items[w] == x;
                    assert(self.items[w].slot != slot);
                } else {
                    let j = choose|j: int|
                        0 <= j < self.kids.len() && (#[trigger] self.kids[j]).content().contains(x);
                    assert(self.kids[j].has_slot(slot));
                }
            }
            assert(path@.take(base.len() as int) =~= base);
        }
        false
    }

    /// Take `slot` out of the node to which `path` leads from position
    /// `depth` on. Children that are left holding nothing are dropped, and
    /// the boxes on the way are fitted anew.
    pub fn remove_along(&mut self, path: &Vec<usize>, depth: usize, slot: usize)
        requires
            ordered::<T>(),
            old(self).wf(),
            depth <= path.len(),
            old(self).leads_to(path@.skip(depth as int), slot),
        ensures
            final(self).wf(),
            forall|x: Item<T>|
                #[trigger] final(self).content().contains(x) <==> old(self).content().contains(x)
                    && x.slot != slot,
        decreases path.len() - depth,
    {
        let ghost before = *self;
        if depth == path.len() {
            let mut a: usize = 0;
            while a < self.items.len() && self.items[a].slot != slot
                invariant
                    a <= self.items.len(),
                    *self == before,
                    forall|w: int| 0 <= w < a ==> self.items[w].slot != slot,
                decreases self.items.len() - a,
            {
                a += 1;
            }
            proof {
                assert(path@.skip(depth as int).len() == 0);
                if a == self.items.len() {
                    let w = choose|w: int|
                        0 <= w < self.items.len() && (#[trigger] self.items[w]).slot == slot;
                    assert(self.items[w].slot != slot);
                }
            }
            let ghost old_items = self.items@;
            self.items.swap_remove(a);
            proof {
                let now = self.items@;
                let last = old_items.len() - 1;
                assert forall|w: int| 0 <= w < now.len() implies now[w] == old_items[if w == a {
                    last
                } else {
                    w
                }] by {}
                assert forall|p: int, q: int| 0 <= p < q < now.len() implies now[p].slot
                    != now[q].slot by {
                    let u = if p == a { last } else { p };
                    let v = if q == a { last } else { q };
                    if u < v {
                        assert(old_items[u].slot != old_items[v].slot);
                    } else {
                        assert(old_items[v].slot != old_items[u].slot);
                    }
                }
                assert forall|x: Item<T>| now.contains(x) <==> old_items.contains(x) && x.slot
                    != slot by {
                    if now.contains(x) {
                        let w = choose|w: int| 0 <= w < now.len() && now[w] == x;
                        let u = if w == a { last } else { w };
                        assert(old_items[u] == x);
                        if u < a as int {
                            assert(old_items[u].slot != old_items[a as int].slot);
                        } else {
                            assert(old_items[a as int].slot != old_items[u].slot);
                        }
                    }
                    if old_items.contains(x) && x.slot != slot {
                        let u = choose|u: int| 0 <= u < old_items.len() && old_items[u] == x;
                        if u == last {
                            assert(now[a as int] == x);
                        } else {
                            assert(now[u] == x);
                        }
                    }
                }
                assert(self.wf_inner()) by {
                    assert forall|i: int, w: int|
                        0 <= i < self.kids.len() && 0 <= w < self.items.len() implies !(#[trigger] self.kids[i]).has_slot(
                        (#[trigger] self.items[w]).slot,
                    ) by {
                        let u = if w == a { last } else { w };
                        assert(!before.kids[i].has_slot(before.items[u].slot));
                    }
                }
            }
            let ghost unfitted = *self;
            self.fit();
            proof {
                assert forall|x: Item<T>|
                    #[trigger] self.content().contains(x) <==> before.content().contains(x)
                        && x.slot != slot by {
                    self.lemma_content(x);
                    unfitted.lemma_content(x);
                    before.lemma_content(x);
                    if exists|i: int|
                        0 <= i < before.kids.len() && (#[trigger] before.kids[i]).content().contains(
                            x,
                        ) {
                        let i = choose|i: int|
                            0 <= i < before.kids.len() && (#[trigger] before.kids[i]).content().contains(
                                x,
                            );
                        if x.slot == slot {
                            assert(before.kids[i].has_slot(before.items[a as int].slot));
                        }
                    }
                }
            }
            return ;
        }
        let i = path[depth];
        let ghost rest = path@.skip(depth as int);
        let ghost kid0 = before.kids[i as int];
        proof {
            assert(rest[0] == i);
            assert(rest.skip(1) =~= path@.skip(depth + 1));
            assert(kid0.wf());
        }
        self.kids[i].remove_along(path, depth + 1, slot);
        let ghost kid1 = self.kids[i as int];
        let ghost pre = self.kids@;
        let vacant = self.kids[i].items.len() == 0 && self.kids[i].kids.len() == 0;
        if vacant {
            self.kids.remove(i);
        }
        proof {
            let now = self.kids@;
            assert forall|j: int| 0 <= j < pre.len() && j != i implies pre[j] == before.kids[j] by {}
            // Each child now is a child then, without the slot.
            assert forall|j: int| 0 <= j < now.len() implies {
                let src = if vacant && j >= i { j + 1 } else { j };
                &&& 0 <= src < before.kids.len()
                &&& (#[trigger] now[j]).wf()
                &&& forall|x: Item<T>|
                    #[trigger] now[j].content().contains(x) ==> before.kids[src].content().contains(
                        x,
                    ) && x.slot != slot || (src != i
                        && before.kids[src].content().contains(x))
            } by {
                let src = if vacant && j >= i { j + 1 } else { j };
                if src == i {
                    assert(now[j] == kid1);
                } else {
                    assert(now[j] == before.kids[src]);
                }
            }
            assert(self.wf_inner()) by {
                assert forall|j: int, w: int|
                    0 <= j < self.kids.len() && 0 <= w < self.items.len() implies !(#[trigger] self.kids[j]).has_slot(
                    (#[trigger] self.items[w]).slot,
                ) by {
                    let src = if vacant && j >= i { j + 1 } else { j };
                    if self.kids[j].has_slot(self.items[w].slot) {
                        let x = choose|x: Item<T>|
                            #[trigger] self.kids[j].content().contains(x) && x.slot
                                == self.items[w].slot;
                        assert(now[j].content().contains(x));
                        assert(before.kids[src].content().contains(x));
                        assert(before.kids[src].has_slot(before.items[w].slot));
                    }
                }
                assert forall|j: int, m: int, s: usize|
                    #![trigger self.kids[j].has_slot(s), self.kids[m].has_slot(s)]
                    0 <= j < m < self.kids.len() implies !(self.kids[j].has_slot(s)
                    && self.kids[m].has_slot(s)) by {
                    let sj = if vacant && j >= i { j + 1 } else { j };
                    let sm = if vacant && m >= i { m + 1 } else { m };
                    if self.kids[j].has_slot(s) && self.kids[m].has_slot(s) {
                        let x = choose|x: Item<T>|
                            #[trigger] self.kids[j].content().contains(x) && x.slot == s;
                        let y = choose|y: Item<T>|
                            #[trigger] self.kids[m].content().contains(y) && y.slot == s;
                        assert(now[j].content().contains(x));
                        assert(now[m].content().contains(y));
                        assert(before.kids[sj].content().contains(x));
                        assert(before.kids[sm].content().contains(y));
                        assert(before.kids[sj].has_slot(s) && before.kids[sm].has_slot(s));
                    }
                }
            }
        }
        let ghost unfitted = *self;
        self.fit();
        proof {
            let now = unfitted.kids@;
            // The slot was beneath child `i` and nowhere else.
            assert(kid0.has_slot(slot)) by {
                kid0.lemma_leads_to_has(path@.skip(depth + 1), slot);
            }
            assert forall|x: Item<T>|
                #[trigger] self.content().contains(x) <==> before.content().contains(x) && x.slot
                    != slot by {
                self.lemma_content(x);
                unfitted.lemma_content(x);
                before.lemma_content(x);
                if before.items@.contains(x) && x.slot == slot {
                    let w = choose|w: int| 0 <= w < before.items.len() && before.items[w] == x;
                    assert(!before.kids[i as int].has_slot(before.items[w].slot));
                }
                if exists|j: int| 0 <= j < now.len() && (#[trigger] now[j]).content().contains(x) {
                    let j = choose|j: int|
                        0 <= j < now.len() && (#[trigger] now[j]).content().contains(x);
                    let src = if vacant && j >= i { j + 1 } else { j };
                    assert(now[j].content().contains(x));
                    if src == i {
                        assert(now[j] == kid1);
                        assert(kid0.content().contains(x));
                    } else {
                        assert(now[j] == before.kids[src]);
                        if x.slot == slot {
                            assert(before.kids[src].has_slot(slot));
                            if src < i {
                                assert(!(before.kids[src].has_slot(slot) && before.kids[i as int].has_slot(
                                    slot,
                                )));
                            } else {
                                assert(!(before.kids[i as int].has_slot(slot) && before.kids[src].has_slot(
                                    slot,
                                )));
                            }
                        }
                    }
                }
                if x.slot != slot && exists|j: int|
                    0 <= j < before.kids.len() && (#[trigger] before.kids[j]).content().contains(x) {
                    let src = choose|j: int|
                        0 <= j < before.kids.len() && (#[trigger] before.kids[j]).content().contains(
                            x,
                        );
                    if src == i {
                        assert(kid1.content().contains(x));
                        if vacant {
                            kid1.lemma_content(x);
                        } else {
                            assert(now[i as int] == kid1);
                        }
                    } else {
                        let j = if vacant && src > i { src - 1 } else { src };
                        assert(now[j] == before.kids[src]);
                        assert(now[j].content().contains(x));
                    }
                }
            }
        }
    }

    /// A node to which a path leads has the slot.
    pub proof fn lemma_leads_to_has(self, path: Seq<usize>, slot: usize)
        requires
            self.leads_to(path, slot),
        ensures
            self.has_slot(slot),
        decreases path.len(),
    {
        if path.len() == 0 {
            let a = choose|a: int| 0 <= a < self.items.len() && (#[trigger] self.items[a]).slot == slot;
            assert(self.items@.contains(self.items[a]));
            assert(self.content().contains(self.items[a]));
        } else {
            let kid = self.kids[path[0] as int];
            kid.lemma_leads_to_has(path.skip(1), slot);
            let x = choose|x: Item<T>| #[trigger] kid.content().contains(x) && x.slot == slot;
            assert(self.content().contains(x));
        }
    }

    /// Take `slot` out of the node and of what lies beneath it. Its box is
    /// `aabb`: only children whose box encloses `aabb` are searched.
    pub fn remove(&mut self, slot: usize, aabb: &Aabb2D<T>) -> (found: bool)
        requires
            ordered::<T>(),
            old(self).wf(),
            forall|x: Item<T>|
                #[trigger] old(self).content().contains(x) && x.slot == slot ==> x.aabb == *aabb,
        ensures
            final(self).wf(),
            found == old(self).has_slot(slot),
            forall|x: Item<T>|
                #[trigger] final(self).content().contains(x) <==> old(self).content().contains(x)
                    && x.slot != slot,
    {
        let mut path: Vec<usize> = Vec::new();
        let found = self.locate(slot, aabb, &mut path);
        if found {
            assert(path@.skip(0) =~= path@);
            self.remove_along(&path, 0, slot);
        } else {
            proof {
                assert forall|x: Item<T>|
                    #[trigger] self.content().contains(x) implies x.slot != slot by {
                    if x.slot == slot {
                        assert(self.has_slot(slot));
                    }
                }
            }
        }
        found
    }

    /// Split the children of an overfull node: the node keeps one side of
    /// the split and the other side is returned as a new node.
    pub fn split_kids(&mut self) -> (sib: HNode<T>)
        requires
            ordered::<T>(),
            old(self).wf(),
            old(self).items.len() == 0,
            old(self).kids.len() >= 2,
        ensures
            final(self).wf(),
            sib.wf(),
            final(self).items.len() == 0,
            sib.items.len() == 0,
            final(self).kids.len() >= 1,
            sib.kids.len() >= 1,
            final(self).kids.len() + sib.kids.len() == old(self).kids.len(),
            forall|x: Item<T>|
                #![trigger final(self).content().contains(x)]
                #![trigger sib.content().contains(x)]
                #![trigger old(self).content().contains(x)]
                final(self).content().contains(x) || sib.content().contains(x) <==> old(
                    self,
                ).content().contains(x),
            forall|s: usize| !(#[trigger] final(self).has_slot(s) && sib.has_slot(s)),
            sah_sides(
                old(self).kids@.reverse(),
                node_boxes(old(self).kids@.reverse()),
                final(self).kids@,
                sib.kids@,
            ),
    {
        let ghost before = *self;
        let ghost old_kids = self.kids@;
        let n = self.kids.len();
        // Move the children into a pool, last child first, and note their boxes.
        let mut pool: Vec<Option<HNode<T>>> = Vec::new();
        let mut boxes: Vec<Aabb2D<T>> = Vec::new();
        while self.kids.len() > 0
            invariant
                n == old_kids.len(),
                self.items@ == before.items@,
                self.kids.len() + pool.len() == n,
                boxes.len() == pool.len(),
                self.kids@ == old_kids.take(self.kids.len() as int),
                forall|j: int| 0 <= j < pool.len() ==> #[trigger] pool[j] == Some(old_kids[n - 1 - j]),
                forall|j: int| 0 <= j < boxes.len() ==> #[trigger] boxes[j] == old_kids[n - 1 - j].bbox,
            decreases self.kids.len(),
        {
            let node = self.kids.pop().unwrap();
            boxes.push(node.bbox);
            pool.push(Some(node));
            assert(self.kids@ =~= old_kids.take(self.kids.len() as int));
        }
        let (order, k) = choose_split(&boxes);
        assert(boxes@ =~= node_boxes(old_kids.reverse()));
        let mut left: Vec<HNode<T>> = Vec::new();
        let mut right: Vec<HNode<T>> = Vec::new();
        let mut i: usize = 0;
        while i < n
            invariant
                i <= n,
                n == old_kids.len(),
                pool.len() == n,
                permutes(order@, n as nat),
                1 <= k < n,
                left.len() == (if i < k { i } else { k }),
                right.len() == (if i < k { 0 } else { i - k }),
                forall|p: int|
                    0 <= p < n ==> #[trigger] pool[p] == if order@.take(i as int).contains(
                        p as usize,
                    ) {
                        None
                    } else {
                        Some(old_kids[n - 1 - p])
                    },
                forall|w: int| 0 <= w < left.len() ==> left[w] == old_kids[n - 1 - order[w]],
                forall|w: int| 0 <= w < right.len() ==> right[w] == old_kids[n - 1 - order[k + w]],
            decreases n - i,
        {
            let p = order[i];
            proof {
                assert(!order@.take(i as int).contains(p)) by {
                    if order@.take(i as int).contains(p) {
                        let w = choose|w: int| 0 <= w < i && order@.take(i as int)[w] == p;
                        assert(order@[w] == order@[i as int]);
                    }
                }
                assert(order@.take(i as int + 1) == order@.take(i as int).push(p));
                crate::index::backends::flatvec::lemma_push_contains(order@.take(i as int), p);
            }
            let node = pool[p].take().unwrap();
            if i < k {
                left.push(node);
            } else {
                right.push(node);
            }
            i += 1;
        }
        let ghost l = left@;
        let ghost r = right@;
        proof {
            assert(l =~= picked(old_kids.reverse(), order@, 0, k as int));
            assert(r =~= picked(old_kids.reverse(), order@, k as int, n as int));
            assert(sah_sides(old_kids.reverse(), node_boxes(old_kids.reverse()), l, r));
        }
        self.kids = left;
        let mut sib = HNode { bbox: self.bbox, items: Vec::new(), kids: right };
        proof {
            // Distinct positions of the order name distinct children of before.
            assert forall|a: int, b: int| 0 <= a < n && 0 <= b < n && a != b implies order@[a]
                != order@[b] by {}
            assert(self.wf_inner()) by {
                assert forall|j: int| 0 <= j < l.len() implies (#[trigger] l[j]).wf() by {
                    assert(before.kids[n - 1 - order[j]].wf());
                }
                assert forall|j: int, m: int, s: usize|
                    #![trigger self.kids[j].has_slot(s), self.kids[m].has_slot(s)]
                    0 <= j < m < self.kids.len() implies !(self.kids[j].has_slot(s)
                    && self.kids[m].has_slot(s)) by {
                    let u = n - 1 - order[j];
                    let v = n - 1 - order[m];
                    assert(order@[j] != order@[m]);
                    if u < v {
                        assert(!(before.kids[u].has_slot(s) && before.kids[v].has_slot(s)));
                    } else {
                        assert(!(before.kids[v].has_slot(s) && before.kids[u].has_slot(s)));
                    }
                }
            }
            assert(sib.wf_inner()) by {
                assert forall|j: int| 0 <= j < r.len() implies (#[trigger] r[j]).wf() by {
                    assert(before.kids[n - 1 - order[k + j]].wf());
                }
                assert forall|j: int, m: int, s: usize|
                    #![trigger sib.kids[j].has_slot(s), sib.kids[m].has_slot(s)]
                    0 <= j < m < sib.kids.len() implies !(sib.kids[j].has_slot(s)
                    && sib.kids[m].has_slot(s)) by {
                    let u = n - 1 - order[k + j];
                    let v = n - 1 - order[k + m];
                    assert(order@[k + j] != order@[k + m]);
                    if u < v {
                        assert(!(before.kids[u].has_slot(s) && before.kids[v].has_slot(s)));
                    } else {
                        assert(!(before.kids[v].has_slot(s) && before.kids[u].has_slot(s)));
                    }
                }
            }
        }
        self.fit();
        sib.fit();
        proof {
            assert forall|x: Item<T>|
                #![trigger self.content().contains(x)]
                #![trigger sib.content().contains(x)]
                #![trigger before.content().contains(x)]
                self.content().contains(x) || sib.content().contains(x) <==> before.content().contains(
                    x,
                ) by {
                before.lemma_content(x);
                self.lemma_content(x);
                sib.lemma_content(x);
                if exists|j: int| 0 <= j < l.len() && (#[trigger] l[j]).content().contains(x) {
                    let j = choose|j: int| 0 <= j < l.len() && (#[trigger] l[j]).content().contains(x);
                    assert(before.kids[n - 1 - order[j]].content().contains(x));
                }
                if exists|j: int| 0 <= j < r.len() && (#[trigger] r[j]).content().contains(x) {
                    let j = choose|j: int| 0 <= j < r.len() && (#[trigger] r[j]).content().contains(x);
                    assert(before.kids[n - 1 - order[k + j]].content().contains(x));
                }
                if exists|u: int|
                    0 <= u < before.kids.len() && (#[trigger] before.kids[u]).content().contains(x) {
                    let u = choose|u: int|
                        0 <= u < before.kids.len() && (#[trigger] before.kids[u]).content().contains(
                            x,
                        );
                    let p = (n - 1 - u) as usize;
                    lemma_permutation_covers(order@, n as nat, p);
                    let w = choose|w: int| 0 <= w < order@.len() && order@[w] == p;
                    if w < k {
                        assert(l[w].content().contains(x));
                    } else {
                        assert(r[w - k].content().contains(x));
                    }
                }
            }
            assert forall|s: usize| !(#[trigger] self.has_slot(s) && sib.has_slot(s)) by {
                if self.has_slot(s) && sib.has_slot(s) {
                    let x = choose|x: Item<T>| #[trigger] self.content().contains(x) && x.slot == s;
                    let y = choose|y: Item<T>| #[trigger] sib.content().contains(y) && y.slot == s;
                    self.lemma_content(x);
                    sib.lemma_content(y);
                    let j = choose|j: int| 0 <= j < l.len() && (#[trigger] l[j]).content().contains(x);
                    let m = choose|m: int| 0 <= m < r.len() && (#[trigger] r[m]).content().contains(y);
                    let u = n - 1 - order[j];
                    let v = n - 1 - order[k + m];
                    assert(order@[j] != order@[k + m]);
                    assert(before.kids[u].has_slot(s));
                    assert(before.kids[v].has_slot(s));
                    if u < v {
                        assert(!(before.kids[u].has_slot(s) && before.kids[v].has_slot(s)));
                    } else {
                        assert(!(before.kids[v].has_slot(s) && before.kids[u].has_slot(s)));
                    }
                }
            }
        }
        sib
    }

    /// Put `item` into the node or beneath it.
    ///
    /// A node without children takes the item itself; any other node hands
    /// it to the child that takes it with the least resulting area. A node
    /// that comes to hold more than `max_items` items, or more than
    /// `max_kids` children, is split, and the part split off is returned
    /// for the caller to adopt.
    pub fn insert(&mut self, item: Item<T>, max_items: usize, max_kids: usize) -> (sib: Option<
        HNode<T>,
    >)
        requires
            ordered::<T>(),
            old(self).wf(),
            !old(self).has_slot(item.slot),
            max_items >= 1,
            max_kids >= 2,
        ensures
            final(self).wf(),
            sib matches Some(n) ==> n.wf() && forall|s: usize|
                !(#[trigger] final(self).has_slot(s) && n.has_slot(s)),
            forall|x: Item<T>|
                #![trigger final(self).content().contains(x)]
                #![trigger spill(sib).contains(x)]
                #![trigger old(self).content().contains(x)]
                final(self).content().contains(x) || spill(sib).contains(x) <==> old(
                    self,
                ).content().contains(x) || x == item,
        decreases *old(self),
    {
        let ghost before = *self;
        if self.kids.len() == 0 {
            self.items.push(item);
            proof {
                assert forall|a: int, b: int| 0 <= a < b < self.items.len() implies self.items[a].slot
                    != self.items[b].slot by {
                    if b == before.items.len() {
                        assert(before.items@.contains(before.items[a]));
                        assert(before.content().contains(before.items[a]));
                    }
                }
            }
            self.fit();
            proof {
                assert forall|x: Item<T>|
                    #![trigger self.content().contains(x)]
                    #![trigger before.content().contains(x)]
                    self.content().contains(x) <==> before.content().contains(x) || x == item by {
                    self.lemma_content(x);
                    before.lemma_content(x);
                    crate::index::backends::flatvec::lemma_push_contains(before.items@, item);
                }
            }
            if self.items.len() > max_items && self.items.len() >= 2 {
                let sib = self.split_items();
                return Some(sib);
            }
            return None;
        }
        let c = self.choose_child(&item.aabb);
        let ghost kid0 = self.kids[c as int];
        proof {
            assert(kid0.wf());
            if kid0.has_slot(item.slot) {
                let x = choose|x: Item<T>| #[trigger] kid0.content().contains(x) && x.slot == item.slot;
                assert(before.content().contains(x));
            }
        }
        let split = self.kids[c].insert(item, max_items, max_kids);
        let out = self.adopt(c, split, max_kids, Ghost(before), Ghost(item));
        out
    }

    /// Finish an insertion beneath child `c`: take in the part that the
    /// child split off, if any, refit the box, and split this node if it
    /// has come to hold more than `max_kids` children.
    fn adopt(
        &mut self,
        c: usize,
        split: Option<HNode<T>>,
        max_kids: usize,
        Ghost(before): Ghost<HNode<T>>,
        Ghost(item): Ghost<Item<T>>,
    ) -> (sib: Option<HNode<T>>)
        requires
            ordered::<T>(),
            before.wf(),
            max_kids >= 2,
            c < before.kids.len(),
            !before.has_slot(item.slot),
            old(self).items@ == before.items@,
            old(self).kids.len() == before.kids.len(),
            forall|j: int|
                0 <= j < before.kids.len() && j != c ==> (#[trigger] old(self).kids[j])
                    == before.kids[j],
            old(self).kids[c as int].wf(),
            split matches Some(n) ==> n.wf() && forall|s: usize|
                !(#[trigger] old(self).kids[c as int].has_slot(s) && n.has_slot(s)),
            forall|x: Item<T>|
                #![trigger old(self).kids[c as int].content().contains(x)]
                #![trigger spill(split).contains(x)]
                #![trigger before.kids[c as int].content().contains(x)]
                old(self).kids[c as int].content().contains(x) || spill(split).contains(x)
                    <==> before.kids[c as int].content().contains(x) || x == item,
        ensures
            final(self).wf(),
            sib matches Some(n) ==> n.wf() && forall|s: usize|
                !(#[trigger] final(self).has_slot(s) && n.has_slot(s)),
            forall|x: Item<T>|
                #![trigger final(self).content().contains(x)]
                #![trigger spill(sib).contains(x)]
                #![trigger before.content().contains(x)]
                final(self).content().contains(x) || spill(sib).contains(x)
                    <==> before.content().contains(x) || x == item,
    {
        let ghost kid0 = before.kids[c as int];
        let ghost kid1 = self.kids[c as int];
        let ghost split0 = split;
        let ghost grown: Seq<HNode<T>> = if split0 is Some {
            seq![split0->0]
        } else {
            Seq::empty()
        };
        if let Some(n) = split {
            self.kids.push(n);
        }
        proof {
            let now = self.kids@;
            let m = before.kids.len() as int;
            assert forall|j: int| 0 <= j < m && j != c implies now[j] == before.kids[j] by {}
            assert(now[c as int] == kid1);
            // What each child holds now, in terms of before.
            assert forall|j: int, x: Item<T>|
                #![trigger now[j].content().contains(x)]
                0 <= j < now.len() && now[j].content().contains(x) implies x == item || (before.kids[if j
                    < m { j } else { c as int }].content().contains(x)) by {
                if j == c {
                    assert(kid1.content().contains(x) || spill(split0).contains(x)
                        <==> kid0.content().contains(x) || x == item);
                } else if j >= m {
                    assert(now[j] == grown[0]);
                    assert(kid1.content().contains(x) || spill(split0).contains(x)
                        <==> kid0.content().contains(x) || x == item);
                }
            }
            assert(self.wf_inner()) by {
                assert forall|j: int| 0 <= j < now.len() implies (#[trigger] now[j]).wf() by {
                    if j < m && j != c {
                        assert(before.kids[j].wf());
                    }
                }
                assert forall|j: int, w: int|
                    0 <= j < self.kids.len() && 0 <= w < self.items.len() implies !(#[trigger] self.kids[j]).has_slot(
                    (#[trigger] self.items[w]).slot,
                ) by {
                    let src = if j < m { j } else { c as int };
                    if now[j].has_slot(self.items[w].slot) {
                        let x = choose|x: Item<T>|
                            #[trigger] now[j].content().contains(x) && x.slot == self.items[w].slot;
                        assert(now[j].content().contains(x));
                        if x == item {
                            assert(before.items@.contains(before.items[w]));
                            assert(before.content().contains(before.items[w]));
                        } else {
                            assert(before.kids[src].content().contains(x));
                            assert(before.kids[src].has_slot(before.items[w].slot));
                        }
                    }
                }
                assert forall|j: int, q: int, s: usize|
                    #![trigger self.kids[j].has_slot(s), self.kids[q].has_slot(s)]
                    0 <= j < q < self.kids.len() implies !(self.kids[j].has_slot(s)
                    && self.kids[q].has_slot(s)) by {
                    let sj = if j < m { j } else { c as int };
                    let sq = if q < m { q } else { c as int };
                    if now[j].has_slot(s) && now[q].has_slot(s) {
                        let x = choose|x: Item<T>| #[trigger] now[j].content().contains(x) && x.slot == s;
                        let y = choose|y: Item<T>| #[trigger] now[q].content().contains(y) && y.slot == s;
                        assert(now[j].content().contains(x));
                        assert(now[q].content().contains(y));
                        if sj == sq {
                            // The child that took the item and the part split off it.
                            assert(j == c && q >= m);
                            assert(kid1.has_slot(s) && grown[0].has_slot(s));
                        } else {
                            if x != item {
                                assert(before.kids[sj].content().contains(x));
                            }
                            if y != item {
                                assert(before.kids[sq].content().contains(y));
                            }
                            if x == item && y != item {
                                assert(before.content().contains(y));
                            }
                            if y == item && x != item {
                                assert(before.content().contains(x));
                            }
                            if x != item && y != item {
                                assert(before.kids[sj].has_slot(s));
                                assert(before.kids[sq].has_slot(s));
                                if sj < sq {
                                    assert(!(before.kids[sj].has_slot(s) && before.kids[sq].has_slot(
                                        s,
                                    )));
                                } else {
                                    assert(!(before.kids[sq].has_slot(s) && before.kids[sj].has_slot(
                                        s,
                                    )));
                                }
                            }
                        }
                    }
                }
            }
        }
        let ghost adopted = *self;
        self.fit();
        proof {
            let now = adopted.kids@;
            let m = before.kids.len() as int;
            assert forall|x: Item<T>|
                #![trigger self.content().contains(x)]
                #![trigger before.content().contains(x)]
                self.content().contains(x) <==> before.content().contains(x) || x == item by {
                self.lemma_content(x);
                adopted.lemma_content(x);
                before.lemma_content(x);
                assert(kid1.content().contains(x) || spill(split0).contains(x)
                    <==> kid0.content().contains(x) || x == item);
                if exists|j: int| 0 <= j < now.len() && (#[trigger] now[j]).content().contains(x) {
                    let j = choose|j: int|
                        0 <= j < now.len() && (#[trigger] now[j]).content().contains(x);
                    if j < m && j != c {
                        assert(before.kids[j].content().contains(x));
                    } else if x != item {
                        assert(before.kids[c as int].content().contains(x));
                    }
                }
                if exists|j: int|
                    0 <= j < before.kids.len() && (#[trigger] before.kids[j]).content().contains(x) {
                    let j = choose|j: int|
                        0 <= j < before.kids.len() && (#[trigger] before.kids[j]).content().contains(
                            x,
                        );
                    if j != c {
                        assert(now[j].content().contains(x));
                    } else if kid1.content().contains(x) {
                        assert(now[c as int].content().contains(x));
                    } else {
                        assert(now[m].content().contains(x));
                    }
                }
                if x == item {
                    if kid1.content().contains(x) {
                        assert(now[c as int].content().contains(x));
                    } else {
                        assert(now[m].content().contains(x));
                    }
                }
            }
        }
        let out = if self.kids.len() > max_kids && self.items.len() == 0 {
            let ghost whole = *self;
            let sib = self.split_kids();
            proof {
                assert forall|x: Item<T>|
                    #![trigger self.content().contains(x)]
                    #![trigger sib.content().contains(x)]
                    #![trigger before.content().contains(x)]
                    self.content().contains(x) || sib.content().contains(x)
                        <==> before.content().contains(x) || x == item by {
                    assert(self.content().contains(x) || sib.content().contains(x)
                        <==> whole.content().contains(x));
                    assert(whole.content().contains(x) <==> before.content().contains(x) || x
                        == item);
                }
            }
            Some(sib)
        } else {
            None
        };
        out
    }
}

/// What a node that was split off holds; nothing where none was.
pub open spec fn spill<T: Scalar>(part: Option<HNode<T>>) -> Set<Item<T>> {
    match part {
        Some(n) => n.content(),
        None => Set::empty(),
    }
}

/// A hierarchy with the boxes it holds by slot: the store behind the
/// R-tree and the BVH backends.
#[derive(Debug)]
pub struct Hierarchy<T: Scalar> {
    root: HNode<T>,
    slots: Vec<Option<Aabb2D<T>>>,
    max_items: usize,
    max_kids: usize,
}

impl<T: Scalar> Hierarchy<T> {
    /// The boxes held, by slot.
    pub closed spec fn held(&self) -> Map<usize, Aabb2D<T>> {
        Map::new(
            |s: usize| s < self.slots.len() && self.slots[s as int] is Some,
            |s: usize| self.slots[s as int]->0,
        )
    }

    /// The invariant of the store: the order of the scalars is the one
    /// specified, the hierarchy is well formed, and it holds exactly the
    /// boxes that are held by slot.
    pub closed spec fn ok(&self) -> bool {
        &&& ordered::<T>()
        &&& self.root.wf()
        &&& self.max_items >= 1
        &&& self.max_kids >= 2
        &&& forall|x: Item<T>|
            #[trigger] self.root.content().contains(x) <==> self.held().dom().contains(x.slot)
                && self.held()[x.slot] == x.aabb
    }

    /// An empty store whose nodes hold at most `max_items` items or
    /// `max_kids` children.
    pub fn new(max_items: usize, max_kids: usize) -> (r: Self)
        requires
            ordered::<T>(),
            max_items >= 1,
            max_kids >= 2,
        ensures
            r.ok(),
            r.held() == Map::<usize, Aabb2D<T>>::empty(),
    {
        let zero = T::zero();
        let r = Hierarchy {
            root: HNode::vacant(Aabb2D { min_x: zero, min_y: zero, max_x: zero, max_y: zero }),
            slots: Vec::new(),
            max_items,
            max_kids,
        };
        assert(r.held() =~= Map::<usize, Aabb2D<T>>::empty());
        r
    }

    /// Store `aabb` under `slot`, in place of the box held there, if any.
    pub fn put(&mut self, slot: usize, aabb: Aabb2D<T>)
        requires
            old(self).ok(),
            slot < usize::MAX,
        ensures
            final(self).ok(),
            final(self).held() == old(self).held().insert(slot, aabb),
    {
        let ghost h0 = *self;
        while self.slots.len() <= slot
            invariant
                self.root == h0.root,
                self.max_items == h0.max_items,
                self.max_kids == h0.max_kids,
                self.slots.len() >= h0.slots.len(),
                forall|i: int| 0 <= i < h0.slots.len() ==> self.slots[i] == h0.slots[i],
                forall|i: int| h0.slots.len() <= i < self.slots.len() ==> self.slots[i] is None,
            decreases slot + 1 - self.slots.len(),
        {
            self.slots.push(None);
        }
        assert(self.held() =~= h0.held());
        let previous = self.slots[slot];
        if let Some(old) = previous {
            proof {
                assert forall|x: Item<T>|
                    #[trigger] self.root.content().contains(x) && x.slot == slot implies x.aabb
                    == old by {
                    assert(h0.root.content().contains(x));
                }
            }
            self.root.remove(slot, &old);
        }
        let ghost r1 = self.root;
        proof {
            assert(!r1.has_slot(slot)) by {
                if r1.has_slot(slot) {
                    let x = choose|x: Item<T>| #[trigger] r1.content().contains(x) && x.slot == slot;
                    if previous is None {
                        assert(h0.root.content().contains(x));
                    }
                }
            }
        }
        self.slots[slot] = Some(aabb);
        let item = Item { slot, aabb };
        let split = self.root.insert(item, self.max_items, self.max_kids);
        let ghost r2 = self.root;
        let ghost split0 = split;
        assert(forall|x: Item<T>|
            #![trigger r2.content().contains(x)]
            #![trigger spill(split0).contains(x)]
            #![trigger r1.content().contains(x)]
            r2.content().contains(x) || spill(split0).contains(x)
                <==> r1.content().contains(x) || x == item);
        if let Some(sib) = split {
            // The root was split: a new root adopts both parts.
            let mut top = HNode::vacant(aabb);
            core::mem::swap(&mut self.root, &mut top);
            self.root.kids.push(top);
            self.root.kids.push(sib);
            proof {
                assert(self.root.kids@ =~= seq![r2, split0->0]);
                assert(self.root.wf_inner());
            }
            self.root.fit();
        }
        proof {
            assert(self.held() =~= h0.held().insert(slot, aabb));
            assert forall|x: Item<T>|
                #[trigger] self.root.content().contains(x) <==> self.held().dom().contains(x.slot)
                    && self.held()[x.slot] == x.aabb by {
                self.root.lemma_content(x);
                assert(r2.content().contains(x) || spill(split0).contains(x) <==> r1.content().contains(x) || x == item);
                assert(h0.root.content().contains(x) <==> h0.held().dom().contains(x.slot)
                    && h0.held()[x.slot] == x.aabb);
                if previous is Some {
                    assert(r1.content().contains(x) <==> h0.root.content().contains(x) && x.slot
                        != slot);
                }
                if split0 is Some {
                    assert(self.root.kids[0] == r2);
                    assert(self.root.kids[1] == split0->0);
                }
                if r1.content().contains(x) && x.slot == slot {
                    assert(r1.has_slot(slot));
                }
            }
        }
    }

    /// Take the box under `slot` out. A slot not held is ignored.
    pub fn drop_slot(&mut self, slot: usize)
        requires
            old(self).ok(),
        ensures
            final(self).ok(),
            final(self).held() == old(self).held().remove(slot),
    {
        let ghost h0 = *self;
        if slot >= self.slots.len() {
            assert(self.held() =~= h0.held().remove(slot));
            return ;
        }
        match self.slots[slot] {
            Some(old) => {
                proof {
                    assert forall|x: Item<T>|
                        #[trigger] self.root.content().contains(x) && x.slot == slot implies x.aabb
                        == old by {}
                }
                self.root.remove(slot, &old);
                self.slots[slot] = None;
                proof {
                    assert(self.held() =~= h0.held().remove(slot));
                    assert forall|x: Item<T>|
                        #[trigger] self.root.content().contains(x) <==> self.held().dom().contains(
                            x.slot,
                        ) && self.held()[x.slot] == x.aabb by {
                        assert(h0.root.content().contains(x) <==> h0.held().dom().contains(x.slot)
                            && h0.held()[x.slot] == x.aabb);
                    }
                }
            },
            None => {
                assert(self.held() =~= h0.held().remove(slot));
            },
        }
    }

    /// Forget every box.
    pub fn reset(&mut self)
        requires
            old(self).ok(),
        ensures
            final(self).ok(),
            final(self).held() == Map::<usize, Aabb2D<T>>::empty(),
    {
        let zero = T::zero();
        self.root = HNode::vacant(Aabb2D { min_x: zero, min_y: zero, max_x: zero, max_y: zero });
        self.slots.clear();
        assert(self.held() =~= Map::<usize, Aabb2D<T>>::empty());
    }

    /// The slots whose box answers the probe, each once.
    pub fn find(&self, probe: Probe<T>) -> (out: Vec<usize>)
        requires
            self.ok(),
        ensures
            out@.no_duplicates(),
            forall|i: int| 0 <= i < out.len() ==> self.held().dom().contains(#[trigger] out[i]),
            forall|s: usize|
                #[trigger] out@.contains(s) <==> self.held().dom().contains(s) && probe.matches(
                    self.held()[s],
                ),
    {
        let mut out: Vec<usize> = Vec::new();
        self.root.collect(probe, &mut out);
        proof {
            assert(out@.skip(0) =~= out@);
            assert forall|i: int| 0 <= i < out.len() implies self.held().dom().contains(
                #[trigger] out[i],
            ) by {
                assert(out@.contains(out[i]));
                assert(self.root.has_slot(out[i]));
                let x = choose|x: Item<T>|
                    #[trigger] self.root.content().contains(x) && x.slot == out[i];
            }
            assert forall|s: usize|
                #[trigger] out@.contains(s) <==> self.held().dom().contains(s) && probe.matches(
                    self.held()[s],
                ) by {
                if out@.contains(s) {
                    let it = choose|it: Item<T>|
                        #[trigger] self.root.content().contains(it) && it.slot == s
                            && probe.matches(it.aabb);
                }
                if self.held().dom().contains(s) && probe.matches(self.held()[s]) {
                    let it = Item { slot: s, aabb: self.held()[s] };
                    assert(self.root.content().contains(it));
                }
            }
        }
        out
    }

    /// A store built in bulk over `pairs` of slot and box, no slot twice.
    pub fn bulk(pairs: &Vec<(usize, Aabb2D<T>)>, max_items: usize, max_kids: usize) -> (r: Self)
        requires
            ordered::<T>(),
            max_items >= 1,
            max_kids >= 2,
            forall|a: int, b: int| 0 <= a < b < pairs.len() ==> pairs[a].0 != pairs[b].0,
            forall|a: int| 0 <= a < pairs.len() ==> pairs[a].0 < usize::MAX,
        ensures
            r.ok(),
            forall|s: usize|
                r.held().dom().contains(s) <==> exists|a: int|
                    0 <= a < pairs.len() && (#[trigger] pairs[a]).0 == s,
            forall|a: int|
                0 <= a < pairs.len() ==> r.held()[(#[trigger] pairs[a]).0] == pairs[a].1,
    {
        let mut items: Vec<Item<T>> = Vec::new();
        let mut slots: Vec<Option<Aabb2D<T>>> = Vec::new();
        let mut i: usize = 0;
        while i < pairs.len()
            invariant
                i <= pairs.len(),
                items.len() == i,
                forall|a: int, b: int| 0 <= a < b < pairs.len() ==> pairs[a].0 != pairs[b].0,
                forall|a: int| 0 <= a < pairs.len() ==> pairs[a].0 < usize::MAX,
                forall|a: int|
                    0 <= a < i ==> #[trigger] items[a] == (Item { slot: pairs[a].0, aabb: pairs[a].1 }),
                forall|s: int|
                    0 <= s < slots.len() ==> (#[trigger] slots[s] is Some <==> exists|a: int|
                        0 <= a < i && (#[trigger] pairs[a]).0 == s),
                forall|a: int|
                    0 <= a < i ==> (#[trigger] pairs[a]).0 < slots.len() && slots[pairs[a].0 as int]
                        == Some(pairs[a].1),
            decreases pairs.len() - i,
        {
            let (slot, aabb) = pairs[i];
            items.push(Item { slot, aabb });
            while slots.len() <= slot
                invariant
                    slot < usize::MAX,
                    i < pairs.len(),
                    forall|s: int|
                        0 <= s < slots.len() ==> (#[trigger] slots[s] is Some <==> exists|a: int|
                            0 <= a < i && (#[trigger] pairs[a]).0 == s),
                    forall|a: int|
                        0 <= a < i ==> (#[trigger] pairs[a]).0 < slots.len() && slots[pairs[a].0 as int]
                            == Some(pairs[a].1),
                decreases slot + 1 - slots.len(),
            {
                proof {
                    let fresh = slots.len() as int;
                    assert(!exists|a: int| 0 <= a < i && (#[trigger] pairs[a]).0 == fresh) by {
                        if exists|a: int| 0 <= a < i && (#[trigger] pairs[a]).0 == fresh {
                            let a = choose|a: int| 0 <= a < i && (#[trigger] pairs[a]).0 == fresh;
                            assert(pairs[a].0 < slots.len());
                        }
                    }
                }
                slots.push(None);
            }
            let ghost before = slots@;
            slots[slot] = Some(aabb);
            proof {
                assert forall|s: int| 0 <= s < slots.len() implies (#[trigger] slots[s] is Some
                    <==> exists|a: int| 0 <= a < i + 1 && (#[trigger] pairs[a]).0 == s) by {
                    if s == slot {
                        assert(pairs[i as int].0 == s);
                    } else {
                        assert(slots[s] == before[s]);
                        if exists|a: int| 0 <= a < i + 1 && (#[trigger] pairs[a]).0 == s {
                            let a = choose|a: int| 0 <= a < i + 1 && (#[trigger] pairs[a]).0 == s;
                            assert(a < i);
                        }
                    }
                }
                assert forall|a: int| 0 <= a < i + 1 implies (#[trigger] pairs[a]).0 < slots.len()
                    && slots[pairs[a].0 as int] == Some(pairs[a].1) by {
                    if a < i {
                        assert(pairs[a].0 != pairs[i as int].0);
                    }
                }
            }
            i += 1;
        }
        proof {
            assert forall|a: int, b: int| 0 <= a < b < items.len() implies items[a].slot
                != items[b].slot by {
                assert(pairs[a].0 != pairs[b].0);
            }
        }
        let root = crate::index::backends::bulk::build(&items, max_items, max_kids);
        let r = Hierarchy { root, slots, max_items, max_kids };
        proof {
            assert forall|x: Item<T>|
                #[trigger] r.root.content().contains(x) <==> r.held().dom().contains(x.slot)
                    && r.held()[x.slot] == x.aabb by {
                if items@.contains(x) {
                    let a = choose|a: int| 0 <= a < items.len() && items[a] == x;
                    assert(pairs[a].0 == x.slot);
                }
                if r.held().dom().contains(x.slot) && r.held()[x.slot] == x.aabb {
                    let a = choose|a: int|
                        0 <= a < pairs.len() && (#[trigger] pairs[a]).0 == x.slot as int;
                    assert(items[a] == x);
                }
            }
            assert forall|s: usize|
                r.held().dom().contains(s) <==> exists|a: int|
                    0 <= a < pairs.len() && (#[trigger] pairs[a]).0 == s by {
                if exists|a: int| 0 <= a < pairs.len() && (#[trigger] pairs[a]).0 == s {
                    let a = choose|a: int| 0 <= a < pairs.len() && (#[trigger] pairs[a]).0 == s;
                    assert(pairs[a].0 < slots.len());
                }
                if r.held().dom().contains(s) {
                    let a = choose|a: int|
                        0 <= a < pairs.len() && (#[trigger] pairs[a]).0 == s as int;
                    assert(pairs[a].0 == s);
                }
            }
        }
        r
    }
}

} // verus!
