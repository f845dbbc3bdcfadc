//! R-tree backend: a hierarchy of wide nodes, split by the surface-area
//! heuristic.

use crate::index::backend::{slots_containing, slots_touching, Backend};
use crate::index::backends::hierarchy::{Hierarchy, Probe};
use crate::index::types::{ordered, Aabb2D, Scalar};
use vstd::prelude::*;

verus! {

/// A hierarchy of boxes with wide nodes.
///
/// A node holds up to eight boxes or eight children. A node that overflows
/// is cut in two by the cheapest split; an insertion descends into the
/// child that takes the box with the least resulting area.
#[derive(Debug)]
pub struct RTree<T: Scalar> {
    store: Hierarchy<T>,
}

impl<T: Scalar> RTree<T> {
    /// Create an empty backend.
    pub fn new() -> (r: Self)
        requires
            ordered::<T>(),
        ensures
            r.wf(),
            r.boxes() == Map::<usize, Aabb2D<T>>::empty(),
    {
        RTree { store: Hierarchy::new(8, 8) }
    }

    /// Build a backend in bulk over `pairs` of slot and box, no slot
    /// twice: the boxes are sorted into tiles and packed into full leaves.
    pub fn bulk_build_default(pairs: &Vec<(usize, Aabb2D<T>)>) -> (r: Self)
        requires
            ordered::<T>(),
            forall|a: int, b: int| 0 <= a < b < pairs.len() ==> pairs[a].0 != pairs[b].0,
            forall|a: int| 0 <= a < pairs.len() ==> pairs[a].0 < usize::MAX,
        ensures
            r.wf(),
            forall|s: usize|
                r.boxes().dom().contains(s) <==> exists|a: int|
                    0 <= a < pairs.len() && (#[trigger] pairs[a]).0 == s,
            forall|a: int|
                0 <= a < pairs.len() ==> r.boxes()[(#[trigger] pairs[a]).0] == pairs[a].1,
    {
        RTree { store: Hierarchy::bulk(pairs, 8, 8) }
    }
}

impl<T: Scalar> Backend<T> for RTree<T> {
    closed spec fn boxes(&self) -> Map<usize, Aabb2D<T>> {
        self.store.held()
    }

    closed spec fn wf(&self) -> bool {
        self.store.ok()
    }

    fn insert(&mut self, slot: usize, aabb: Aabb2D<T>) {
        self.store.put(slot, aabb);
    }

    fn update(&mut self, slot: usize, aabb: Aabb2D<T>) {
        self.store.put(slot, aabb);
    }

    fn remove(&mut self, slot: usize) {
        self.store.drop_slot(slot);
    }

    fn clear(&mut self) {
        self.store.reset();
    }

    fn query_point(&self, x: T, y: T) -> (out: Vec<usize>) {
        let out = self.store.find(Probe::Point(x, y));
        proof {
            if ordered::<T>() {
                assert(out@.to_set() =~= slots_containing(self.boxes(), x, y));
            }
        }
        out
    }

    fn query_rect(&self, rect: Aabb2D<T>) -> (out: Vec<usize>) {
        let out = self.store.find(Probe::Rect(rect));
        proof {
            if ordered::<T>() {
                assert(out@.to_set() =~= slots_touching(self.boxes(), rect));
            }
        }
        out
    }
}

/// R-tree backend over `i64` coordinates.
pub type RTreeI64 = RTree<i64>;

impl Default for RTree<i64> {
    fn default() -> (r: Self)
        ensures
            r.wf(),
            r.boxes() == Map::<usize, Aabb2D<i64>>::empty(),
    {
        RTree::new()
    }
}

} // verus!
