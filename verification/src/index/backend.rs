//! Backend trait for spatial indexing implementations.

use crate::index::types::{ordered, Aabb2D};
use vstd::prelude::*;

verus! {

/// The slots of `boxes` whose box contains the point `(x, y)`.
pub open spec fn slots_containing<T: Copy + PartialOrd>(
    boxes: Map<usize, Aabb2D<T>>,
    x: T,
    y: T,
) -> Set<usize> {
    Set::new(|s: usize| boxes.dom().contains(s) && boxes[s].contains(x, y))
}

/// The slots of `boxes` whose box overlaps `rect`, edges included.
pub open spec fn slots_touching<T: Copy + PartialOrd>(
    boxes: Map<usize, Aabb2D<T>>,
    rect: Aabb2D<T>,
) -> Set<usize> {
    Set::new(|s: usize| boxes.dom().contains(s) && boxes[s].touches(rect))
}

/// Spatial backend abstraction used by the generic index.
///
/// A backend is modelled as a finite map from slot to box. Every operation
/// says what it does to that map, and the two queries return each matching
/// slot exactly once, in an order the backend chooses.
pub trait Backend<T: Copy + PartialOrd> {
    /// The boxes held, by slot.
    spec fn boxes(&self) -> Map<usize, Aabb2D<T>>;

    /// The backend's internal invariant.
    spec fn wf(&self) -> bool;

    /// Insert a new slot into the spatial structure. A box already held
    /// under `slot` is replaced.
    fn insert(&mut self, slot: usize, aabb: Aabb2D<T>)
        requires
            old(self).wf(),
            slot < usize::MAX,
        ensures
            final(self).wf(),
            final(self).boxes() == old(self).boxes().insert(slot, aabb),
    ;

    /// Update an existing slot's AABB. A slot not held is inserted.
    fn update(&mut self, slot: usize, aabb: Aabb2D<T>)
        requires
            old(self).wf(),
            slot < usize::MAX,
        ensures
            final(self).wf(),
            final(self).boxes() == old(self).boxes().insert(slot, aabb),
    ;

    /// Remove a slot from the spatial structure. A slot not held is ignored.
    fn remove(&mut self, slot: usize)
        requires
            old(self).wf(),
        ensures
            final(self).wf(),
            final(self).boxes() == old(self).boxes().remove(slot),
    ;

    /// Clear all spatial structures.
    fn clear(&mut self)
        requires
            old(self).wf(),
        ensures
            final(self).wf(),
            final(self).boxes() == Map::<usize, Aabb2D<T>>::empty(),
    ;

    /// Slots whose AABB contains the point, each once.
    fn query_point(&self, x: T, y: T) -> (out: Vec<usize>)
        requires
            self.wf(),
        ensures
            out@.no_duplicates(),
            forall|i: int| 0 <= i < out.len() ==> self.boxes().dom().contains(#[trigger] out[i]),
            ordered::<T>() ==> out@.to_set() == slots_containing(
                self.boxes(),
                x,
                y,
            ),
    ;

    /// Slots whose AABB intersects the rectangle, each once.
    fn query_rect(&self, rect: Aabb2D<T>) -> (out: Vec<usize>)
        requires
            self.wf(),
        ensures
            out@.no_duplicates(),
            forall|i: int| 0 <= i < out.len() ==> self.boxes().dom().contains(#[trigger] out[i]),
            ordered::<T>() ==> out@.to_set() == slots_touching(self.boxes(), rect),
    ;

    /// Visit slots whose AABB contains the point: `f` is called once for
    /// each slot that [`Backend::query_point`] returns, in that order.
    fn visit_point<F: FnMut(usize)>(&self, x: T, y: T, f: F)
        requires
            self.wf(),
            forall|s: usize| call_requires(f, (s,)),
    {
        let mut f = f;
        let found = self.query_point(x, y);
        let mut i: usize = 0;
        while i < found.len()
            invariant
                i <= found.len(),
                forall|s: usize| call_requires(f, (s,)),
            decreases found.len() - i,
        {
            f(found[i]);
            i += 1;
        }
    }

    /// Visit slots whose AABB intersects the rectangle: `f` is called once
    /// for each slot that [`Backend::query_rect`] returns, in that order.
    fn visit_rect<F: FnMut(usize)>(&self, rect: Aabb2D<T>, f: F)
        requires
            self.wf(),
            forall|s: usize| call_requires(f, (s,)),
    {
        let mut f = f;
        let found = self.query_rect(rect);
        let mut i: usize = 0;
        while i < found.len()
            invariant
                i <= found.len(),
                forall|s: usize| call_requires(f, (s,)),
            decreases found.len() - i,
        {
            f(found[i]);
            i += 1;
        }
    }
}

} // verus!
