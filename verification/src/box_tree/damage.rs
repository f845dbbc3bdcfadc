//! Damage summary types returned from commit.

use crate::box_tree::geometry::{covers, numbers, rect_join, rect_keys, rect_union};
use vstd::prelude::*;

verus! {

/// A batched set of changes derived from a tree commit.
#[derive(Clone, Debug)]
pub struct Damage {
    /// World-space rectangles that should be repainted. The list is not
    /// minimal and its rectangles may overlap.
    pub dirty_rects: Vec<kurbo::Rect>,
}

/// The join of a non-empty sequence of rectangles, folded from the left.
pub open spec fn join_rects(rects: Seq<kurbo::Rect>) -> kurbo::Rect
    recommends
        rects.len() > 0,
    decreases rects.len(),
{
    if rects.len() <= 1 {
        rects[0]
    } else {
        rect_join(join_rects(rects.drop_last()), rects.last())
    }
}

/// Whether every coordinate of every rectangle is a number.
pub open spec fn all_numbers(rects: Seq<kurbo::Rect>) -> bool {
    forall|j: int| 0 <= j < rects.len() ==> numbers(rect_keys(#[trigger] rects[j]))
}

/// Whether the rectangle `whole` covers each of `rects`.
pub open spec fn covers_all(whole: kurbo::Rect, rects: Seq<kurbo::Rect>) -> bool {
    forall|j: int| 0 <= j < rects.len() ==> covers(rect_keys(whole), rect_keys(#[trigger] rects[j]))
}

/// The join of all rectangles, or `None` where there are none. Where all
/// coordinates are numbers the join covers every rectangle.
pub fn union_of(rects: &Vec<kurbo::Rect>) -> (r: Option<kurbo::Rect>)
    ensures
        r is Some <==> rects.len() > 0,
        r is Some ==> r->0 == join_rects(rects@),
        r is Some && all_numbers(rects@) ==> numbers(rect_keys(r->0)) && covers_all(r->0, rects@),
{
    if rects.len() == 0 {
        return None;
    }
    let mut acc = rects[0];
    let mut i: usize = 1;
    assert(rects@.take(1).drop_last().len() == 0);
    while i < rects.len()
        invariant
            1 <= i <= rects.len(),
            acc == join_rects(rects@.take(i as int)),
            all_numbers(rects@) ==> numbers(rect_keys(acc)) && forall|j: int|
                0 <= j < i ==> covers(rect_keys(acc), rect_keys(#[trigger] rects[j])),
        decreases rects.len() - i,
    {
        proof {
            assert(rects@.take(i + 1).drop_last() == rects@.take(i as int));
        }
        acc = rect_union(acc, rects[i]);
        i += 1;
    }
    assert(rects@.take(i as int) == rects@);
    Some(acc)
}

impl Damage {
    /// A record without rectangles.
    pub fn new() -> (r: Self)
        ensures
            r.dirty_rects@.len() == 0,
    {
        Damage { dirty_rects: Vec::new() }
    }

    /// Whether there is nothing to repaint.
    pub fn is_empty(&self) -> (r: bool)
        ensures
            r == (self.dirty_rects@.len() == 0),
    {
        self.dirty_rects.len() == 0
    }

    /// Returns the union of all damage rects. Where all their coordinates
    /// are numbers it covers each of them.
    pub fn union_rect(&self) -> (r: Option<kurbo::Rect>)
        ensures
            r is Some <==> self.dirty_rects@.len() > 0,
            r is Some ==> r->0 == join_rects(self.dirty_rects@),
            r is Some && all_numbers(self.dirty_rects@) ==> numbers(rect_keys(r->0))
                && covers_all(r->0, self.dirty_rects@),
    {
        union_of(&self.dirty_rects)
    }
}

impl Default for Damage {
    /// A record without rectangles.
    fn default() -> (r: Self)
        ensures
            r.dirty_rects@.len() == 0,
    {
        Damage::new()
    }
}

} // verus!
