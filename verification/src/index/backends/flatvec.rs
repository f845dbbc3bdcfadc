//! Flat vector backend: one optional box per slot, scanned linearly.

use crate::index::backend::{slots_containing, slots_touching, Backend};
use crate::index::types::{ordered, Aabb2D};
use vstd::prelude::*;

verus! {

/// A dense vector of optional boxes indexed by slot.
///
/// Queries scan every slot. This is the reference backend: correct by
/// inspection, linear in the number of slots, and a good fit for small sets.
#[derive(Clone, Debug)]
pub struct FlatVec<T: Copy + PartialOrd> {
    slots: Vec<Option<Aabb2D<T>>>,
}

impl<T: Copy + PartialOrd> FlatVec<T> {
    /// The boxes held, by slot.
    pub closed spec fn held(&self) -> Map<usize, Aabb2D<T>> {
        Map::new(
            |s: usize| s < self.slots.len() && self.slots[s as int] is Some,
            |s: usize| self.slots[s as int]->0,
        )
    }

    /// Create an empty backend.
    pub fn new() -> (r: Self)
        ensures
            r.held() == Map::<usize, Aabb2D<T>>::empty(),
    {
        let r = FlatVec { slots: Vec::new() };
        assert(r.held() =~= Map::<usize, Aabb2D<T>>::empty());
        r
    }

    /// Grow the vector with vacant slots until `slot` is in range.
    fn ensure_slot(&mut self, slot: usize)
        requires
            slot < usize::MAX,
        ensures
            final(self).slots.len() > slot,
            final(self).slots.len() >= old(self).slots.len(),
            final(self).held() == old(self).held(),
            forall|i: int|
                0 <= i < old(self).slots.len() ==> final(self).slots[i] == old(self).slots[i],
            forall|i: int|
                old(self).slots.len() <= i < final(self).slots.len() ==> final(self).slots[i]
                    is None,
    {
        while self.slots.len() <= slot
            invariant
                self.slots.len() >= old(self).slots.len(),
                forall|i: int|
                    0 <= i < old(self).slots.len() ==> self.slots[i] == old(self).slots[i],
                forall|i: int| old(self).slots.len() <= i < self.slots.len() ==> self.slots[i] is None,
            decreases slot + 1 - self.slots.len(),
        {
            self.slots.push(None);
        }
        assert(self.held() =~= old(self).held());
    }

    /// What `held` says of one slot in range.
    proof fn lemma_held_at(&self, i: usize)
        requires
            i < self.slots.len(),
        ensures
            self.held().dom().contains(i) <==> self.slots[i as int] is Some,
            self.held().dom().contains(i) ==> self.held()[i] == self.slots[i as int]->0,
    {
    }

    /// Store `aabb` under `slot`, growing the vector as needed.
    fn put(&mut self, slot: usize, aabb: Aabb2D<T>)
        requires
            slot < usize::MAX,
        ensures
            final(self).held() == old(self).held().insert(slot, aabb),
    {
        self.ensure_slot(slot);
        self.slots.set(slot, Some(aabb));
        assert(self.held() =~= old(self).held().insert(slot, aabb));
    }
}

impl<T: Copy + PartialOrd> Backend<T> for FlatVec<T> {
    open spec fn boxes(&self) -> Map<usize, Aabb2D<T>> {
        self.held()
    }

    open spec fn wf(&self) -> bool {
        true
    }

    fn insert(&mut self, slot: usize, aabb: Aabb2D<T>) {
        self.put(slot, aabb);
    }

    fn update(&mut self, slot: usize, aabb: Aabb2D<T>) {
        self.put(slot, aabb);
    }

    fn remove(&mut self, slot: usize) {
        if slot < self.slots.len() {
            self.slots.set(slot, None);
        }
        assert(self.held() =~= old(self).held().remove(slot));
    }

    fn clear(&mut self) {
        self.slots.clear();
        assert(self.held() =~= Map::<usize, Aabb2D<T>>::empty());
    }

    /// Matching slots in ascending order.
    fn query_point(&self, x: T, y: T) -> (out: Vec<usize>)
        ensures
            forall|i: int, j: int| 0 <= i < j < out.len() ==> out[i] < out[j],
    {
        let mut out: Vec<usize> = Vec::new();
        let mut i: usize = 0;
        while i < self.slots.len()
            invariant
                i <= self.slots.len(),
                forall|a: int, b: int| 0 <= a < b < out.len() ==> out[a] < out[b],
                forall|a: int| 0 <= a < out.len() ==> out[a] < i,
                forall|a: int| 0 <= a < out.len() ==> self.held().dom().contains(#[trigger] out[a]),
                ordered::<T>() ==> forall|s: usize|
                    out@.contains(s) <==> s < i && slots_containing(self.held(), x, y).contains(s),
            decreases self.slots.len() - i,
        {
            let ghost prev = out@;
            let mut hit = false;
            if let Some(b) = &self.slots[i] {
                hit = b.contains_point(x, y);
            }
            if hit {
                out.push(i);
            }
            proof {
                self.lemma_held_at(i);
                lemma_push_contains(prev, i);
                assert(hit ==> out@ == prev.push(i));
                assert(ordered::<T>() ==> (hit <==> slots_containing(self.held(), x, y).contains(i)));
                if ordered::<T>() {
                    assert forall|s: usize|
                        out@.contains(s) <==> s < i + 1 && slots_containing(
                            self.held(),
                            x, y,
                        ).contains(s) by {
                        assert(prev.push(i).contains(s) <==> prev.contains(s) || s == i);
                    }
                }
            }
            i += 1;
        }
        proof {
            assert(self.boxes() == self.held());
            assert(ordered::<T>() ==> out@.to_set() =~= slots_containing(self.held(), x, y));
        }
        out
    }

    /// Matching slots in ascending order.
    fn query_rect(&self, rect: Aabb2D<T>) -> (out: Vec<usize>)
        ensures
            forall|i: int, j: int| 0 <= i < j < out.len() ==> out[i] < out[j],
    {
        let mut out: Vec<usize> = Vec::new();
        let mut i: usize = 0;
        while i < self.slots.len()
            invariant
                i <= self.slots.len(),
                forall|a: int, b: int| 0 <= a < b < out.len() ==> out[a] < out[b],
                forall|a: int| 0 <= a < out.len() ==> out[a] < i,
                forall|a: int| 0 <= a < out.len() ==> self.held().dom().contains(#[trigger] out[a]),
                ordered::<T>() ==> forall|s: usize|
                    out@.contains(s) <==> s < i && slots_touching(self.held(), rect).contains(s),
            decreases self.slots.len() - i,
        {
            let ghost prev = out@;
            let mut hit = false;
            if let Some(b) = &self.slots[i] {
                hit = b.overlaps(&rect);
            }
            if hit {
                out.push(i);
            }
            proof {
                self.lemma_held_at(i);
                lemma_push_contains(prev, i);
                assert(hit ==> out@ == prev.push(i));
                assert(ordered::<T>() ==> (hit <==> slots_touching(self.held(), rect).contains(i)));
                if ordered::<T>() {
                    assert forall|s: usize|
                        out@.contains(s) <==> s < i + 1 && slots_touching(
                            self.held(),
                            rect,
                        ).contains(s) by {
                        assert(prev.push(i).contains(s) <==> prev.contains(s) || s == i);
                    }
                }
            }
            i += 1;
        }
        proof {
            assert(self.boxes() == self.held());
            assert(ordered::<T>() ==> out@.to_set() =~= slots_touching(self.held(), rect));
        }
        out
    }
}

/// Membership in a sequence after one push.
pub proof fn lemma_push_contains<A>(s: Seq<A>, v: A)
    ensures
        forall|x: A| s.push(v).contains(x) <==> s.contains(x) || x == v,
{
    assert forall|x: A| s.push(v).contains(x) implies s.contains(x) || x == v by {
        let k = choose|k: int| 0 <= k < s.push(v).len() && s.push(v)[k] == x;
        if k < s.len() {
            assert(s[k] == x);
        }
    }
    assert forall|x: A| s.contains(x) || x == v implies s.push(v).contains(x) by {
        if x == v {
            assert(s.push(v)[s.len() as int] == x);
        } else {
            let k = choose|k: int| 0 <= k < s.len() && s[k] == x;
            assert(s.push(v)[k] == x);
        }
    }
}

} // verus!
