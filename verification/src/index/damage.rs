//! Damage summary returned from an index commit.

use crate::index::types::{ordered, Aabb2D};
use vstd::prelude::*;

verus! {

/// Coarse damage of one commit: the boxes that were added, those that were
/// removed, and the `(previous, current)` pairs of those that moved.
///
/// The lists are snapshots owned by the caller; the index keeps none.
#[derive(Clone, Debug)]
pub struct Damage<T> {
    /// Boxes materialised by this commit.
    pub added: Vec<Aabb2D<T>>,
    /// Boxes taken out by this commit.
    pub removed: Vec<Aabb2D<T>>,
    /// Boxes that changed, as `(previous, current)`.
    pub moved: Vec<(Aabb2D<T>, Aabb2D<T>)>,
}

/// The join of a non-empty sequence of boxes, folded from the left.
pub open spec fn join_all<T: Copy + PartialOrd>(boxes: Seq<Aabb2D<T>>) -> Aabb2D<T>
    recommends
        boxes.len() > 0,
    decreases boxes.len(),
{
    if boxes.len() <= 1 {
        boxes[0]
    } else {
        join_all(boxes.drop_last()).join(boxes.last())
    }
}

/// Every box that a damage record mentions: the added ones, then the
/// removed ones, then both boxes of each moved pair.
pub open spec fn damage_boxes<T: Copy + PartialOrd>(
    added: Seq<Aabb2D<T>>,
    removed: Seq<Aabb2D<T>>,
    moved: Seq<(Aabb2D<T>, Aabb2D<T>)>,
) -> Seq<Aabb2D<T>> {
    added + removed + pair_boxes(moved)
}

/// Both boxes of each pair, in order.
pub open spec fn pair_boxes<T>(moved: Seq<(Aabb2D<T>, Aabb2D<T>)>) -> Seq<Aabb2D<T>>
    decreases moved.len(),
{
    if moved.len() == 0 {
        Seq::empty()
    } else {
        pair_boxes(moved.drop_last()).push(moved.last().0).push(moved.last().1)
    }
}

impl<T: Copy + PartialOrd> Damage<T> {
    /// A record with nothing in it.
    pub fn new() -> (r: Self)
        ensures
            r.added@.len() == 0,
            r.removed@.len() == 0,
            r.moved@.len() == 0,
    {
        Damage { added: Vec::new(), removed: Vec::new(), moved: Vec::new() }
    }

    /// Every box the record mentions.
    pub open spec fn boxes(&self) -> Seq<Aabb2D<T>> {
        damage_boxes(self.added@, self.removed@, self.moved@)
    }

    /// Whether nothing was added, removed or moved.
    pub fn is_empty(&self) -> (r: bool)
        ensures
            r == (self.added@.len() == 0 && self.removed@.len() == 0 && self.moved@.len() == 0),
    {
        self.added.len() == 0 && self.removed.len() == 0 && self.moved.len() == 0
    }

    /// The smallest box enclosing every box the record mentions, or `None`
    /// for an empty record.
    pub fn union(&self) -> (r: Option<Aabb2D<T>>)
        ensures
            r is Some <==> self.boxes().len() > 0,
            ordered::<T>() && r is Some ==> r->0 == join_all(self.boxes()),
    {
        let mut acc: Option<Aabb2D<T>> = None;
        let ghost mut seen: Seq<Aabb2D<T>> = Seq::empty();
        let mut i: usize = 0;
        while i < self.added.len()
            invariant
                i <= self.added.len(),
                seen == self.added@.take(i as int),
                acc is Some <==> seen.len() > 0,
                ordered::<T>() && acc is Some ==> acc->0 == join_all(seen),
            decreases self.added.len() - i,
        {
            let b = self.added[i];
            acc = Some(fold_in(acc, b, Ghost(seen)));
            proof {
                assert(self.added@.take(i + 1) == seen.push(b));
                seen = seen.push(b);
            }
            i += 1;
        }
        assert(self.added@.take(i as int) == self.added@);
        let mut j: usize = 0;
        while j < self.removed.len()
            invariant
                j <= self.removed.len(),
                seen == self.added@ + self.removed@.take(j as int),
                acc is Some <==> seen.len() > 0,
                ordered::<T>() && acc is Some ==> acc->0 == join_all(seen),
            decreases self.removed.len() - j,
        {
            let b = self.removed[j];
            acc = Some(fold_in(acc, b, Ghost(seen)));
            proof {
                assert(self.added@ + self.removed@.take(j + 1) == seen.push(b));
                seen = seen.push(b);
            }
            j += 1;
        }
        assert(self.removed@.take(j as int) == self.removed@);
        let mut k: usize = 0;
        while k < self.moved.len()
            invariant
                k <= self.moved.len(),
                seen == self.added@ + self.removed@ + pair_boxes(self.moved@.take(k as int)),
                acc is Some <==> seen.len() > 0,
                ordered::<T>() && acc is Some ==> acc->0 == join_all(seen),
            decreases self.moved.len() - k,
        {
            let (p, c) = self.moved[k];
            acc = Some(fold_in(acc, p, Ghost(seen)));
            acc = Some(fold_in(acc, c, Ghost(seen.push(p))));
            proof {
                assert(self.moved@.take(k + 1).drop_last() == self.moved@.take(k as int));
                assert(self.added@ + self.removed@ + pair_boxes(self.moved@.take(k + 1))
                    == seen.push(p).push(c));
                seen = seen.push(p).push(c);
            }
            k += 1;
        }
        assert(self.moved@.take(k as int) == self.moved@);
        acc
    }
}

/// One step of the left fold behind [`Damage::union`].
fn fold_in<T: Copy + PartialOrd>(
    acc: Option<Aabb2D<T>>,
    b: Aabb2D<T>,
    Ghost(seen): Ghost<Seq<Aabb2D<T>>>,
) -> (r: Aabb2D<T>)
    requires
        acc is Some <==> seen.len() > 0,
        ordered::<T>() && acc is Some ==> acc->0 == join_all(seen),
    ensures
        ordered::<T>() ==> r == join_all(seen.push(b)),
{
    proof {
        assert(seen.push(b).drop_last() == seen);
    }
    match acc {
        Some(a) => a.union(b),
        None => b,
    }
}

impl<T: Copy + PartialOrd> Default for Damage<T> {
    /// A record with nothing in it.
    fn default() -> (r: Self)
        ensures
            r.added@.len() == 0,
            r.removed@.len() == 0,
            r.moved@.len() == 0,
    {
        Damage::new()
    }
}

} // verus!
