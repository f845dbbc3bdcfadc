//! The generic index over a pluggable backend.

use crate::index::backend::{slots_containing, slots_touching, Backend};
use crate::index::backends::bvh::Bvh;
use crate::index::backends::flatvec::FlatVec;
use crate::index::backends::rtree::RTree;
use crate::index::damage::Damage;
use crate::index::state::{Entry, IndexState, Key, Mark};
use crate::index::types::{equatable, ordered, Aabb2D, Scalar};
use vstd::prelude::*;

verus! {

/// A generic AABB index parameterized by a spatial backend.
///
/// Mutations are staged in the entry arena and reach the backend only in
/// [`IndexGeneric::commit`]. Queries answer from the backend, so they see
/// the state as of the last commit.
#[derive(Debug)]
pub struct IndexGeneric<T: Copy + PartialOrd, P: Copy, B: Backend<T>> {
    entries: Vec<Option<Entry<T, P>>>,
    generations: Vec<u32>,
    free_list: Vec<usize>,
    backend: B,
}

/// Default index using a flat vector backend.
pub type Index<T, P> = IndexGeneric<T, P, FlatVec<T>>;

impl<T: Copy + PartialOrd, P: Copy> IndexGeneric<T, P, FlatVec<T>> {
    /// Create an empty index over the flat vector backend.
    pub fn new() -> (r: Self)
        ensures
            r.wf(),
            r@ == IndexState::<T, P>::empty(),
    {
        Self::with_backend(FlatVec::new())
    }
}

impl<T: Scalar, P: Copy> IndexGeneric<T, P, FlatVec<T>> {
    /// Create a BVH-backed index using SAH-like splits.
    pub fn with_bvh() -> (r: IndexGeneric<T, P, Bvh<T>>)
        requires
            ordered::<T>(),
        ensures
            r.wf(),
            r@ == IndexState::<T, P>::empty(),
    {
        IndexGeneric::with_backend(Bvh::new())
    }

    /// Create an R-tree-backed index.
    pub fn with_rtree() -> (r: IndexGeneric<T, P, RTree<T>>)
        requires
            ordered::<T>(),
        ensures
            r.wf(),
            r@ == IndexState::<T, P>::empty(),
    {
        IndexGeneric::with_backend(RTree::new())
    }

    /// Build an R-tree-backed index in bulk from entries. Entry `i` gets
    /// slot `i` and generation 1, and is settled: the index has nothing
    /// pending.
    pub fn with_rtree_bulk(entries: &Vec<(Aabb2D<T>, P)>) -> (r: IndexGeneric<T, P, RTree<T>>)
        requires
            ordered::<T>(),
            entries.len() <= u32::MAX,
        ensures
            r.wf(),
            r@.settled(),
            r@.free.len() == 0,
            r@.slots.len() == entries.len(),
            forall|i: int|
                0 <= i < entries.len() ==> #[trigger] r@.slots[i] == Some(
                    Entry {
                        generation: 1,
                        aabb: entries[i].0,
                        payload: entries[i].1,
                        mark: None,
                        prev_aabb: None,
                    },
                ),
    {
        let mut slots: Vec<Option<Entry<T, P>>> = Vec::new();
        let mut generations: Vec<u32> = Vec::new();
        let mut pairs: Vec<(usize, Aabb2D<T>)> = Vec::new();
        let mut i: usize = 0;
        while i < entries.len()
            invariant
                i <= entries.len(),
                slots.len() == i,
                generations.len() == i,
                pairs.len() == i,
                forall|k: int| 0 <= k < i ==> #[trigger] generations[k] == 1,
                forall|k: int| 0 <= k < i ==> #[trigger] pairs[k] == (k as usize, entries[k].0),
                forall|k: int|
                    0 <= k < i ==> #[trigger] slots[k] == Some(
                        Entry {
                            generation: 1,
                            aabb: entries[k].0,
                            payload: entries[k].1,
                            mark: None,
                            prev_aabb: None,
                        },
                    ),
            decreases entries.len() - i,
        {
            let (aabb, payload) = entries[i];
            slots.push(Some(Entry { generation: 1, aabb, payload, mark: None, prev_aabb: None }));
            generations.push(1);
            pairs.push((i, aabb));
            i += 1;
        }
        let backend = RTree::bulk_build_default(&pairs);
        let r = IndexGeneric { entries: slots, generations, free_list: Vec::new(), backend };
        proof {
            let st = r@;
            assert forall|j: usize| st.boxes.dom().contains(j) <==> st.materialised(j) by {
                if st.boxes.dom().contains(j) {
                    let a = choose|a: int| 0 <= a < pairs.len() && (#[trigger] pairs[a]).0 == j;
                    assert(pairs[a].0 == a);
                }
                if st.materialised(j) {
                    assert(pairs[j as int].0 == j);
                }
            }
            assert forall|j: usize|
                st.materialised(j) && (#[trigger] st.slots[j as int])->0.mark is None implies st.boxes[j]
                == st.slots[j as int]->0.aabb by {
                assert(pairs[j as int].0 == j);
            }
        }
        r
    }
}

impl<T: Copy + PartialOrd, P: Copy, B: Backend<T>> View for IndexGeneric<T, P, B> {
    type V = IndexState<T, P>;

    closed spec fn view(&self) -> IndexState<T, P> {
        IndexState {
            slots: self.entries@,
            generations: self.generations@,
            free: self.free_list@,
            boxes: self.backend.boxes(),
        }
    }
}

impl<T: Copy + PartialOrd, P: Copy, B: Backend<T>> IndexGeneric<T, P, B> {
    /// The invariant of an index: that of its abstract state and that of
    /// its backend.
    pub closed spec fn wf(&self) -> bool {
        &&& self@.wf()
        &&& self.backend.wf()
    }

    /// What the invariant says of the abstract state.
    pub proof fn lemma_wf(&self)
        requires
            self.wf(),
        ensures
            self@.wf(),
    {
    }

    /// Create an empty index using an explicit backend instance, which must
    /// hold no boxes.
    pub fn with_backend(backend: B) -> (r: Self)
        requires
            backend.wf(),
            backend.boxes() == Map::<usize, Aabb2D<T>>::empty(),
        ensures
            r.wf(),
            r@ == IndexState::<T, P>::empty(),
    {
        let r = IndexGeneric {
            entries: Vec::new(),
            generations: Vec::new(),
            free_list: Vec::new(),
            backend,
        };
        assert(r@.slots =~= Seq::empty());
        assert(r@.generations =~= Seq::empty());
        assert(r@.free =~= Seq::empty());
        r
    }

    /// Reserve space for at least `n` more entries. The contents do not
    /// change.
    pub fn reserve(&mut self, n: usize)
        requires
            old(self).wf(),
        ensures
            final(self).wf(),
            final(self)@ == old(self)@,
    {
        self.entries.reserve(n);
    }

    /// Number of slots of the arena, occupied or not.
    pub fn slot_count(&self) -> (r: usize)
        ensures
            r == self@.slots.len(),
    {
        self.entries.len()
    }

    /// Whether [`IndexGeneric::insert`] can be given a slot.
    pub fn has_room(&self) -> (r: bool)
        requires
            self.wf(),
        ensures
            r == self@.has_room(),
    {
        self.free_list.len() > 0 || self.entries.len() < u32::MAX as usize
    }

    /// Insert a new AABB with payload. Returns a stable handle `Key`.
    pub fn insert(&mut self, aabb: Aabb2D<T>, payload: P) -> (key: Key)
        requires
            old(self).wf(),
            old(self)@.has_room(),
        ensures
            final(self).wf(),
            final(self)@ == old(self)@.insert(aabb, payload),
            key == old(self)@.next_key(),
            final(self)@.lookup(key) is Some,
    {
        proof {
            old(self)@.lemma_insert_wf(aabb, payload);
        }
        let (idx, generation) = if let Some(idx) = self.free_list.pop() {
            assert(old(self)@.free[old(self)@.free.len() - 1] == idx);
            let generation = self.generations[idx] + 1;
            self.generations.set(idx, generation);
            self.entries.set(
                idx,
                Some(Entry { generation, aabb, payload, mark: Some(Mark::Added), prev_aabb: None }),
            );
            (idx, generation)
        } else {
            let generation = 1u32;
            self.entries.push(
                Some(Entry { generation, aabb, payload, mark: Some(Mark::Added), prev_aabb: None }),
            );
            self.generations.push(generation);
            (self.entries.len() - 1, generation)
        };
        assert(self@.slots =~= old(self)@.insert(aabb, payload).slots);
        assert(self@.generations =~= old(self)@.insert(aabb, payload).generations);
        assert(self@.free =~= old(self)@.insert(aabb, payload).free);
        Key::new(idx, generation)
    }

    /// The slot of the live entry that `key` names, if any.
    fn find(&self, key: Key) -> (r: Option<usize>)
        requires
            self.wf(),
        ensures
            r is Some <==> self@.lookup(key) is Some,
            r is Some ==> r->0 == key.0 && r->0 < self@.slots.len() && self@.slots[r->0 as int]
                == self@.lookup(key),
    {
        let idx = key.idx();
        if idx < self.entries.len() {
            match &self.entries[idx] {
                Some(e) => if e.generation == key.generation() {
                    Some(idx)
                } else {
                    None
                },
                None => None,
            }
        } else {
            None
        }
    }

    /// Whether `key` names a live entry.
    pub fn contains_key(&self, key: Key) -> (r: bool)
        requires
            self.wf(),
        ensures
            r == (self@.lookup(key) is Some),
    {
        self.find(key).is_some()
    }

    /// Update an existing AABB. A stale key is ignored.
    pub fn update(&mut self, key: Key, aabb: Aabb2D<T>)
        requires
            old(self).wf(),
        ensures
            final(self).wf(),
            final(self)@ == old(self)@.update(key, aabb),
    {
        proof {
            old(self)@.lemma_update_wf(key, aabb);
        }
        if let Some(idx) = self.find(key) {
            let e = self.entries[idx].unwrap();
            let prev_aabb = if e.mark.is_none() {
                Some(e.aabb)
            } else {
                e.prev_aabb
            };
            let mark = match e.mark {
                Some(Mark::Added) => Mark::Added,
                _ => Mark::Updated,
            };
            self.entries.set(
                idx,
                Some(
                    Entry {
                        generation: e.generation,
                        aabb,
                        payload: e.payload,
                        mark: Some(mark),
                        prev_aabb,
                    },
                ),
            );
            assert(self@.slots =~= old(self)@.update(key, aabb).slots);
        }
    }

    /// Vacate slot `idx` and offer it for reuse unless its generation
    /// counter is exhausted.
    fn release(&mut self, idx: usize)
        requires
            idx < old(self).entries.len(),
            old(self).generations.len() == old(self).entries.len(),
        ensures
            final(self).entries@ == old(self).entries@.update(idx as int, None),
            final(self).generations@ == old(self).generations@,
            final(self).free_list@ == old(self)@.release(idx),
            final(self).backend == old(self).backend,
    {
        self.entries.set(idx, None);
        if self.generations[idx] < u32::MAX {
            self.free_list.push(idx);
        }
    }

    /// Remove an existing AABB. A stale key is ignored.
    pub fn remove(&mut self, key: Key)
        requires
            old(self).wf(),
        ensures
            final(self).wf(),
            final(self)@ == old(self)@.remove(key),
            final(self)@.lookup(key) is None || final(self)@.lookup(key)->0.mark == Some(
                Mark::Removed,
            ),
    {
        proof {
            old(self)@.lemma_remove_wf(key);
        }
        if let Some(idx) = self.find(key) {
            let e = self.entries[idx].unwrap();
            if let Some(Mark::Added) = e.mark {
                self.release(idx);
            } else {
                self.entries.set(
                    idx,
                    Some(
                        Entry {
                            generation: e.generation,
                            aabb: e.aabb,
                            payload: e.payload,
                            mark: Some(Mark::Removed),
                            prev_aabb: e.prev_aabb,
                        },
                    ),
                );
            }
            assert(self@.slots =~= old(self)@.remove(key).slots);
        }
    }

    /// Clear the index (without reporting damage). Every entry is dropped
    /// and every key becomes stale. The slots stay, with their generations,
    /// so that no key issued before the call can name an entry inserted
    /// after it.
    pub fn clear(&mut self)
        requires
            old(self).wf(),
        ensures
            final(self).wf(),
            final(self)@ == old(self)@.cleared(),
    {
        let ghost before = self@;
        let n = self.entries.len();
        self.free_list.clear();
        let mut i: usize = n;
        proof {
            assert(self.free_list@ =~= before.free_from(n as int));
        }
        while i > 0
            invariant
                i <= n,
                n == self.entries.len(),
                n == before.slots.len(),
                self.generations@ == before.generations,
                n == self.generations.len(),
                self.backend == old(self).backend,
                self.free_list@ == before.free_from(i as int),
                forall|k: int| i <= k < n ==> #[trigger] self.entries[k] is None,
            decreases i,
        {
            i -= 1;
            self.entries[i] = None;
            if self.generations[i] < u32::MAX {
                self.free_list.push(i);
            }
        }
        self.backend.clear();
        proof {
            assert(self@.slots =~= before.cleared().slots);
            before.lemma_cleared(Key(0, 0));
        }
    }

    /// Apply pending changes and compute batched damage. Also synchronizes
    /// backend state.
    ///
    /// Every slot is walked once, in slot order. An added entry enters the
    /// backend and is listed under `added`. A removed entry leaves the
    /// backend, is listed under `removed`, and its slot is freed. An updated
    /// entry is updated in the backend and, where its previous box is known
    /// and differs from the current one, listed under `moved`. Afterwards no
    /// entry has a pending change.
    pub fn commit(&mut self) -> (dmg: Damage<T>)
        requires
            old(self).wf(),
        ensures
            final(self).wf(),
            final(self)@ == old(self)@.commit(),
            final(self)@.settled(),
            dmg.added@ == old(self)@.damage().added,
            dmg.removed@ == old(self)@.damage().removed,
            equatable::<T>() ==> dmg.moved@ == old(self)@.damage().moved,
    {
        let mut dmg = Damage::new();
        let n = self.entries.len();
        let mut i: usize = 0;
        assert(dmg.added@ =~= old(self)@.damage_upto(0).added);
        assert(dmg.removed@ =~= old(self)@.damage_upto(0).removed);
        assert(dmg.moved@ =~= old(self)@.damage_upto(0).moved);
        while i < n
            invariant
                i <= n,
                n == self.entries.len(),
                n == old(self)@.slots.len(),
                self.wf(),
                self@ == old(self)@.commit_upto(i as nat),
                forall|j: int| i <= j < n ==> self@.slots[j] == old(self)@.slots[j],
                forall|j: int|
                    0 <= j < i ==> (#[trigger] self@.slots[j] matches Some(e) ==> e.mark is None),
                dmg.added@ == old(self)@.damage_upto(i as nat).added,
                dmg.removed@ == old(self)@.damage_upto(i as nat).removed,
                equatable::<T>() ==> dmg.moved@ == old(self)@.damage_upto(i as nat).moved,
            decreases n - i,
        {
            let ghost before = self@;
            proof {
                before.lemma_commit_slot_wf(i);
            }
            if let Some(e) = self.entries[i] {
                match e.mark {
                    Some(Mark::Added) => {
                        self.backend.insert(i, e.aabb);
                        dmg.added.push(e.aabb);
                        self.entries.set(
                            i,
                            Some(
                                Entry {
                                    generation: e.generation,
                                    aabb: e.aabb,
                                    payload: e.payload,
                                    mark: None,
                                    prev_aabb: e.prev_aabb,
                                },
                            ),
                        );
                    },
                    Some(Mark::Removed) => {
                        self.backend.remove(i);
                        dmg.removed.push(e.aabb);
                        self.release(i);
                    },
                    Some(Mark::Updated) => {
                        self.backend.update(i, e.aabb);
                        if let Some(prev) = e.prev_aabb {
                            if !prev.equals(&e.aabb) {
                                dmg.moved.push((prev, e.aabb));
                            }
                        }
                        self.entries.set(
                            i,
                            Some(
                                Entry {
                                    generation: e.generation,
                                    aabb: e.aabb,
                                    payload: e.payload,
                                    mark: None,
                                    prev_aabb: None,
                                },
                            ),
                        );
                    },
                    None => {},
                }
            }
            proof {
                assert(self@.slots =~= before.commit_slot(i).slots);
                assert(self@.free =~= before.commit_slot(i).free);
                assert(self@.boxes =~= before.commit_slot(i).boxes);
                assert(self@ == before.commit_slot(i));
            }
            i += 1;
        }
        assert(self@.settled());
        dmg
    }

    /// Pair each backend slot with the key and payload of its entry.
    fn collect_hits(&self, found: &Vec<usize>) -> (out: Vec<(Key, P)>)
        requires
            self.wf(),
            forall|k: int| 0 <= k < found.len() ==> self@.boxes.dom().contains(#[trigger] found[k]),
        ensures
            out.len() == found.len(),
            forall|k: int|
                0 <= k < out.len() ==> (#[trigger] out[k]) == self@.hit(found[k]) && out[k].0.0
                    == found[k],
    {
        let mut out: Vec<(Key, P)> = Vec::new();
        let mut k: usize = 0;
        while k < found.len()
            invariant
                k <= found.len(),
                self.wf(),
                forall|k: int|
                    0 <= k < found.len() ==> self@.boxes.dom().contains(#[trigger] found[k]),
                out.len() == k,
                forall|j: int|
                    0 <= j < out.len() ==> (#[trigger] out[j]) == self@.hit(found[j]) && out[j].0.0
                        == found[j],
            decreases found.len() - k,
        {
            let i = found[k];
            assert(self@.boxes.dom().contains(found[k as int]));
            assert(self@.materialised(i));
            let e = self.entries[i].unwrap();
            out.push((Key::new(i, e.generation), e.payload));
            k += 1;
        }
        out
    }

    /// Query for entries whose AABB, as of the last commit, contains the
    /// point. Each such entry is returned once, with its key and payload.
    pub fn query_point(&self, x: T, y: T) -> (out: Vec<(Key, P)>)
        requires
            self.wf(),
        ensures
            forall|k: int|
                0 <= k < out.len() ==> self@.boxes.dom().contains((#[trigger] out[k]).0.0 as usize)
                    && out[k] == self@.hit(out[k].0.0 as usize),
            forall|a: int, b: int| 0 <= a < b < out.len() ==> out[a].0.0 != out[b].0.0,
            ordered::<T>() ==> forall|s: usize|
                slots_containing(self@.boxes, x, y).contains(s) <==> exists|k: int|
                    0 <= k < out.len() && (#[trigger] out[k]).0.0 == s,
    {
        let found = self.backend.query_point(x, y);
        let out = self.collect_hits(&found);
        proof {
            lemma_hits_cover(found@, out@, slots_containing(self@.boxes, x, y), ordered::<T>());
        }
        out
    }

    /// Visit entries whose AABB contains the point: `f` is called with the
    /// key and payload of each entry that [`IndexGeneric::query_point`]
    /// returns, in that order.
    pub fn visit_point<F: FnMut(Key, P)>(&self, x: T, y: T, f: F)
        requires
            self.wf(),
            forall|k: Key, p: P| call_requires(f, (k, p)),
    {
        let mut f = f;
        let hits = self.query_point(x, y);
        let mut i: usize = 0;
        while i < hits.len()
            invariant
                i <= hits.len(),
                forall|k: Key, p: P| call_requires(f, (k, p)),
            decreases hits.len() - i,
        {
            let (k, p) = hits[i];
            f(k, p);
            i += 1;
        }
    }

    /// Query for entries whose AABB, as of the last commit, intersects the
    /// given rectangle, edges included. Each such entry is returned once.
    pub fn query_rect(&self, rect: Aabb2D<T>) -> (out: Vec<(Key, P)>)
        requires
            self.wf(),
        ensures
            forall|k: int|
                0 <= k < out.len() ==> self@.boxes.dom().contains((#[trigger] out[k]).0.0 as usize)
                    && out[k] == self@.hit(out[k].0.0 as usize),
            forall|a: int, b: int| 0 <= a < b < out.len() ==> out[a].0.0 != out[b].0.0,
            ordered::<T>() ==> forall|s: usize|
                slots_touching(self@.boxes, rect).contains(s) <==> exists|k: int|
                    0 <= k < out.len() && (#[trigger] out[k]).0.0 == s,
    {
        let found = self.backend.query_rect(rect);
        let out = self.collect_hits(&found);
        proof {
            lemma_hits_cover(found@, out@, slots_touching(self@.boxes, rect), ordered::<T>());
        }
        out
    }

    /// Visit entries whose AABB intersects the rectangle: `f` is called
    /// with the key and payload of each entry that
    /// [`IndexGeneric::query_rect`] returns, in that order.
    pub fn visit_rect<F: FnMut(Key, P)>(&self, rect: Aabb2D<T>, f: F)
        requires
            self.wf(),
            forall|k: Key, p: P| call_requires(f, (k, p)),
    {
        let mut f = f;
        let hits = self.query_rect(rect);
        let mut i: usize = 0;
        while i < hits.len()
            invariant
                i <= hits.len(),
                forall|k: Key, p: P| call_requires(f, (k, p)),
            decreases hits.len() - i,
        {
            let (k, p) = hits[i];
            f(k, p);
            i += 1;
        }
    }
}

/// What a list of hits, one per found slot, says of the set of matching
/// slots.
proof fn lemma_hits_cover<P>(
    found: Seq<usize>,
    out: Seq<(Key, P)>,
    matching: Set<usize>,
    known: bool,
)
    requires
        found.no_duplicates(),
        out.len() == found.len(),
        forall|k: int| 0 <= k < out.len() ==> (#[trigger] out[k]).0.0 == found[k],
        known ==> found.to_set() == matching,
    ensures
        forall|a: int, b: int| 0 <= a < b < out.len() ==> out[a].0.0 != out[b].0.0,
        known ==> forall|s: usize|
            matching.contains(s) <==> exists|k: int|
                0 <= k < out.len() && (#[trigger] out[k]).0.0 == s,
{
    assert forall|a: int, b: int| 0 <= a < b < out.len() implies out[a].0.0 != out[b].0.0 by {
        assert(found[a] != found[b]);
    }
    if known {
        assert forall|s: usize| matching.contains(s) implies exists|k: int|
            0 <= k < out.len() && (#[trigger] out[k]).0.0 == s by {
            assert(found.to_set().contains(s));
            assert(found.contains(s));
            let k = choose|k: int| 0 <= k < found.len() && found[k] == s;
            assert(out[k].0.0 == s);
        }
        assert forall|s: usize|
            (exists|k: int| 0 <= k < out.len() && (#[trigger] out[k]).0.0 == s) implies matching.contains(
            s,
        ) by {
            let k = choose|k: int| 0 <= k < out.len() && (#[trigger] out[k]).0.0 == s;
            assert(found[k] == s);
            assert(found.contains(s));
        }
    }
}

impl<T: Copy + PartialOrd, P: Copy> Default for IndexGeneric<T, P, FlatVec<T>> {
    /// An empty index over the flat vector backend.
    fn default() -> (r: Self)
        ensures
            r.wf(),
            r@ == IndexState::<T, P>::empty(),
    {
        IndexGeneric::new()
    }
}

} // verus!
