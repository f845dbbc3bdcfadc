//! Bounding-volume hierarchy backend: a binary hierarchy whose leaves are
//! split by the surface-area heuristic.

use crate::index::backend::{slots_containing, slots_touching, Backend};
use crate::index::backends::hierarchy::{Hierarchy, Probe};
use crate::index::types::{ordered, Aabb2D, Scalar};
use vstd::prelude::*;

verus! {

/// A binary hierarchy of boxes.
///
/// A node holds up to four boxes or two children. A leaf that overflows
/// is cut in two by the cheapest split; an insertion descends into the
/// child that takes the box with the least resulting area.
#[derive(Debug)]
pub struct Bvh<T: Scalar> {
    store: Hierarchy<T>,
}

impl<T: Scalar> Bvh<T> {
    /// Create an empty backend.
    pub fn new() -> (r: Self)
        requires
            ordered::<T>(),
        ensures
            r.wf(),
            r.boxes() == Map::<usize, Aabb2D<T>>::empty(),
    {
        Bvh { store: Hierarchy::new(4, 2) }
    }
}

impl<T: Scalar> Backend<T> for Bvh<T> {
    closed spec fn boxes(&self) -> Map<usize, Aabb2D<T>> {
        self.store.held()
    }

    closed spec fn wf(&self) -> bool {
        self.store.ok()
    }

    fn insert(&mut self, slot: usize, aabb: Aabb2D<T>) {
        self.store.put(slot, aabb);
    }

    fn update(&mut self, slot: usize, aabb: Aabb2D<T>) {
        self.store.put(slot, aabb);
    }

    fn remove(&mut self, slot: usize) {
        self.store.drop_slot(slot);
    }

    fn clear(&mut self) {
        self.store.reset();
    }

    fn query_point(&self, x: T, y: T) -> (out: Vec<usize>) {
        let out = self.store.find(Probe::Point(x, y));
        proof {
            if ordered::<T>() {
                assert(out@.to_set() =~= slots_containing(self.boxes(), x, y));
            }
        }
        out
    }

    fn query_rect(&self, rect: Aabb2D<T>) -> (out: Vec<usize>) {
        let out = self.store.find(Probe::Rect(rect));
        proof {
            if ordered::<T>() {
                assert(out@.to_set() =~= slots_touching(self.boxes(), rect));
            }
        }
        out
    }
}

/// BVH backend over `i64` coordinates.
pub type BvhI64 = Bvh<i64>;

impl Default for Bvh<i64> {
    fn default() -> (r: Self)
        ensures
            r.wf(),
            r.boxes() == Map::<usize, Aabb2D<i64>>::empty(),
    {
        Bvh::new()
    }
}

} // verus!
