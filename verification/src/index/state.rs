//! The mathematical model of the index: its entry arena, its free list and
//! the boxes its backend holds, with the transitions between states.

use crate::index::types::Aabb2D;
use vstd::prelude::*;

verus! {

/// Generational handle for entries: a slot and the generation of its
/// occupant. A key whose generation differs from the slot's occupant is
/// stale and finds nothing.
#[derive(Copy, Clone, Debug, PartialEq, Eq, Hash)]
pub struct Key(pub u32, pub u32);

impl Key {
    /// Build a key for slot `idx`.
    pub fn new(idx: usize, generation: u32) -> (r: Self)
        requires
            idx <= u32::MAX,
        ensures
            r == Key(idx as u32, generation),
    {
        Key(idx as u32, generation)
    }

    /// The slot the key names.
    pub fn idx(self) -> (r: usize)
        ensures
            r == self.0,
    {
        self.0 as usize
    }

    /// The generation the key was issued for.
    pub fn generation(self) -> (r: u32)
        ensures
            r == self.1,
    {
        self.1
    }
}

/// Pending change of an entry since the last commit.
#[derive(Copy, Clone, Debug, PartialEq, Eq)]
pub enum Mark {
    /// Inserted and not yet materialised in the backend.
    Added,
    /// Box changed since the last commit.
    Updated,
    /// Removal requested; the slot is freed at commit.
    Removed,
}

/// One occupied slot of the arena.
#[derive(Clone, Copy, Debug)]
pub struct Entry<T, P> {
    /// Generation of this occupant.
    pub generation: u32,
    /// Current box.
    pub aabb: Aabb2D<T>,
    /// Opaque user payload.
    pub payload: P,
    /// Pending change, if any.
    pub mark: Option<Mark>,
    /// Box before the first pending update, kept to report a move.
    pub prev_aabb: Option<Aabb2D<T>>,
}

/// The three lists of a damage record, as sequences.
pub struct DamageLists<T> {
    /// Boxes materialised.
    pub added: Seq<Aabb2D<T>>,
    /// Boxes taken out.
    pub removed: Seq<Aabb2D<T>>,
    /// `(previous, current)` of boxes that changed.
    pub moved: Seq<(Aabb2D<T>, Aabb2D<T>)>,
}

/// Abstract state of an index.
pub struct IndexState<T, P> {
    /// The arena: one optional entry per slot.
    pub slots: Seq<Option<Entry<T, P>>>,
    /// Last generation issued for each slot; it survives the occupant.
    pub generations: Seq<u32>,
    /// Vacant slots available for reuse; the last one is taken first.
    pub free: Seq<usize>,
    /// The boxes the backend holds, by slot.
    pub boxes: Map<usize, Aabb2D<T>>,
}

impl<T: Copy + PartialOrd, P: Copy> IndexState<T, P> {
    /// The empty index.
    pub open spec fn empty() -> Self {
        IndexState {
            slots: Seq::empty(),
            generations: Seq::empty(),
            free: Seq::empty(),
            boxes: Map::empty(),
        }
    }

    /// Whether slot `i` holds an entry that the backend knows: one that is
    /// not freshly added.
    pub open spec fn materialised(self, i: usize) -> bool {
        &&& i < self.slots.len()
        &&& self.slots[i as int] matches Some(e)
        &&& e.mark != Some(Mark::Added)
    }

    /// The invariant of the arena.
    pub open spec fn wf(self) -> bool {
        &&& self.slots.len() == self.generations.len()
        &&& self.slots.len() <= u32::MAX
        &&& forall|i: int|
            0 <= i < self.slots.len() ==> (#[trigger] self.slots[i] matches Some(e)
                ==> e.generation == self.generations[i] && e.generation >= 1)
        &&& self.free.no_duplicates()
        &&& forall|k: int|
            0 <= k < self.free.len() ==> {
                let f = #[trigger] self.free[k];
                &&& f < self.slots.len()
                &&& self.slots[f as int] is None
                &&& self.generations[f as int] < u32::MAX
            }
        &&& forall|i: usize| self.boxes.dom().contains(i) <==> self.materialised(i)
        &&& forall|i: usize|
            self.materialised(i) && (#[trigger] self.slots[i as int])->0.mark is None
                ==> self.boxes[i] == self.slots[i as int]->0.aabb
    }

    /// The slots from `lo` on that can be used again, highest first: those
    /// whose generation counter is not exhausted.
    pub open spec fn free_from(self, lo: int) -> Seq<usize>
        decreases self.slots.len() - lo,
    {
        if lo < 0 || lo >= self.slots.len() {
            Seq::empty()
        } else if self.generations[lo] < u32::MAX {
            self.free_from(lo + 1).push(lo as usize)
        } else {
            self.free_from(lo + 1)
        }
    }

    /// The index after it is cleared: every slot is vacant and the backend
    /// holds nothing. The slots and their generations stay, so that a key
    /// issued before stays stale for good; every slot that can be used
    /// again is free, the lowest to be taken first.
    pub open spec fn cleared(self) -> Self {
        IndexState {
            slots: Seq::new(self.slots.len(), |i: int| None),
            generations: self.generations,
            free: self.free_from(0),
            boxes: Map::empty(),
        }
    }

    /// Whether an insertion can be given a slot whose index fits a key.
    pub open spec fn has_room(self) -> bool {
        self.free.len() > 0 || self.slots.len() < u32::MAX
    }

    /// Whether no entry has a pending change.
    pub open spec fn settled(self) -> bool {
        forall|i: int|
            0 <= i < self.slots.len() ==> (#[trigger] self.slots[i] matches Some(e)
                ==> e.mark is None)
    }

    /// The live entry that `key` names, if its generation still matches.
    pub open spec fn lookup(self, key: Key) -> Option<Entry<T, P>> {
        if key.0 < self.slots.len() {
            match self.slots[key.0 as int] {
                Some(e) => if e.generation == key.1 {
                    Some(e)
                } else {
                    None
                },
                None => None,
            }
        } else {
            None
        }
    }

    /// The key that the next insertion returns.
    pub open spec fn next_key(self) -> Key {
        if self.free.len() > 0 {
            let idx = self.free.last();
            Key(idx as u32, (self.generations[idx as int] + 1) as u32)
        } else {
            Key(self.slots.len() as u32, 1)
        }
    }

    /// State after inserting `aabb` with `payload`: the last free slot is
    /// reused with its generation advanced by one, or a fresh slot is
    /// appended with generation 1. The entry is marked added.
    pub open spec fn insert(self, aabb: Aabb2D<T>, payload: P) -> Self {
        let key = self.next_key();
        let e = Entry { generation: key.1, aabb, payload, mark: Some(Mark::Added), prev_aabb: None };
        if self.free.len() > 0 {
            IndexState {
                slots: self.slots.update(key.0 as int, Some(e)),
                generations: self.generations.update(key.0 as int, key.1),
                free: self.free.drop_last(),
                boxes: self.boxes,
            }
        } else {
            IndexState {
                slots: self.slots.push(Some(e)),
                generations: self.generations.push(key.1),
                free: self.free,
                boxes: self.boxes,
            }
        }
    }

    /// State after updating the box under `key`. A settled entry keeps its
    /// old box as the previous one; an added entry stays added; every other
    /// entry becomes updated. A stale key changes nothing.
    pub open spec fn update(self, key: Key, aabb: Aabb2D<T>) -> Self {
        match self.lookup(key) {
            Some(e) => {
                let e2 = Entry {
                    generation: e.generation,
                    aabb,
                    payload: e.payload,
                    mark: if e.mark == Some(Mark::Added) {
                        Some(Mark::Added)
                    } else {
                        Some(Mark::Updated)
                    },
                    prev_aabb: if e.mark is None {
                        Some(e.aabb)
                    } else {
                        e.prev_aabb
                    },
                };
                IndexState { slots: self.slots.update(key.0 as int, Some(e2)), ..self }
            },
            None => self,
        }
    }

    /// The free list after slot `i` is vacated. A slot whose generation
    /// counter is exhausted is retired instead of reused.
    pub open spec fn release(self, i: usize) -> Seq<usize> {
        if self.generations[i as int] < u32::MAX {
            self.free.push(i)
        } else {
            self.free
        }
    }

    /// State after removing the entry under `key`. An entry that was never
    /// committed vanishes at once; any other is marked removed until the
    /// next commit. A stale key changes nothing.
    pub open spec fn remove(self, key: Key) -> Self {
        match self.lookup(key) {
            Some(e) => {
                if e.mark == Some(Mark::Added) {
                    IndexState {
                        slots: self.slots.update(key.0 as int, None),
                        free: self.release(key.0 as usize),
                        ..self
                    }
                } else {
                    let e2 = Entry {
                        generation: e.generation,
                        aabb: e.aabb,
                        payload: e.payload,
                        mark: Some(Mark::Removed),
                        prev_aabb: e.prev_aabb,
                    };
                    IndexState { slots: self.slots.update(key.0 as int, Some(e2)), ..self }
                }
            },
            None => self,
        }
    }

    /// State after committing the pending change of slot `i` alone.
    pub open spec fn commit_slot(self, i: usize) -> Self {
        match self.slots[i as int] {
            Some(e) => match e.mark {
                Some(Mark::Added) => IndexState {
                    slots: self.slots.update(
                        i as int,
                        Some(
                            Entry {
                                generation: e.generation,
                                aabb: e.aabb,
                                payload: e.payload,
                                mark: None,
                                prev_aabb: e.prev_aabb,
                            },
                        ),
                    ),
                    boxes: self.boxes.insert(i, e.aabb),
                    ..self
                },
                Some(Mark::Updated) => IndexState {
                    slots: self.slots.update(
                        i as int,
                        Some(
                            Entry {
                                generation: e.generation,
                                aabb: e.aabb,
                                payload: e.payload,
                                mark: None,
                                prev_aabb: None,
                            },
                        ),
                    ),
                    boxes: self.boxes.insert(i, e.aabb),
                    ..self
                },
                Some(Mark::Removed) => IndexState {
                    slots: self.slots.update(i as int, None),
                    free: self.release(i),
                    boxes: self.boxes.remove(i),
                    ..self
                },
                None => self,
            },
            None => self,
        }
    }

    /// Damage that committing slot `i` alone appends to `d`.
    pub open spec fn damage_slot(self, i: usize, d: DamageLists<T>) -> DamageLists<T> {
        match self.slots[i as int] {
            Some(e) => match e.mark {
                Some(Mark::Added) => DamageLists { added: d.added.push(e.aabb), ..d },
                Some(Mark::Removed) => DamageLists { removed: d.removed.push(e.aabb), ..d },
                Some(Mark::Updated) => match e.prev_aabb {
                    Some(p) => if !p.same(e.aabb) {
                        DamageLists { moved: d.moved.push((p, e.aabb)), ..d }
                    } else {
                        d
                    },
                    None => d,
                },
                None => d,
            },
            None => d,
        }
    }

    /// State after committing slots `0..n` in order.
    pub open spec fn commit_upto(self, n: nat) -> Self
        decreases n,
    {
        if n == 0 {
            self
        } else {
            self.commit_upto((n - 1) as nat).commit_slot((n - 1) as usize)
        }
    }

    /// Damage of committing slots `0..n` in order.
    pub open spec fn damage_upto(self, n: nat) -> DamageLists<T>
        decreases n,
    {
        if n == 0 {
            DamageLists { added: Seq::empty(), removed: Seq::empty(), moved: Seq::empty() }
        } else {
            self.damage_slot((n - 1) as usize, self.damage_upto((n - 1) as nat))
        }
    }

    /// State after a commit: every slot is walked once.
    pub open spec fn commit(self) -> Self {
        self.commit_upto(self.slots.len())
    }

    /// Damage of a commit.
    pub open spec fn damage(self) -> DamageLists<T> {
        self.damage_upto(self.slots.len())
    }

    /// The key and payload found for backend slot `i`.
    pub open spec fn hit(self, i: usize) -> (Key, P) {
        let e = self.slots[i as int]->0;
        (Key(i as u32, e.generation), e.payload)
    }
}

impl<T: Copy + PartialOrd, P: Copy> IndexState<T, P> {
    /// The free slots from `lo` on lie at or above `lo`, in descending
    /// order, and none has an exhausted generation counter.
    pub proof fn lemma_free_from(self, lo: int)
        requires
            self.slots.len() == self.generations.len(),
            self.slots.len() <= u32::MAX,
            0 <= lo,
        ensures
            forall|k: int|
                0 <= k < self.free_from(lo).len() ==> {
                    let f = #[trigger] self.free_from(lo)[k];
                    &&& lo <= f < self.slots.len()
                    &&& self.generations[f as int] < u32::MAX
                },
            forall|a: int, b: int|
                0 <= a < b < self.free_from(lo).len() ==> self.free_from(lo)[a] > self.free_from(
                    lo,
                )[b],
        decreases self.slots.len() - lo,
    {
        if lo < self.slots.len() {
            self.lemma_free_from(lo + 1);
            let rest = self.free_from(lo + 1);
            let all = self.free_from(lo);
            assert forall|k: int| 0 <= k < all.len() implies {
                let f = #[trigger] all[k];
                &&& lo <= f < self.slots.len()
                &&& self.generations[f as int] < u32::MAX
            } by {
                if k < rest.len() {
                    assert(all[k] == rest[k]);
                }
            }
            assert forall|a: int, b: int| 0 <= a < b < all.len() implies all[a] > all[b] by {
                assert(all[a] == rest[a]);
                if b < rest.len() {
                    assert(all[b] == rest[b]);
                }
            }
        }
    }

    /// Clearing keeps the invariant and makes every key stale.
    pub proof fn lemma_cleared(self, key: Key)
        requires
            self.wf(),
        ensures
            self.cleared().wf(),
            self.cleared().lookup(key) is None,
    {
        self.lemma_free_from(0);
    }

    /// Insertion keeps the invariant and makes the returned key live.
    pub proof fn lemma_insert_wf(self, aabb: Aabb2D<T>, payload: P)
        requires
            self.wf(),
            self.has_room(),
        ensures
            self.insert(aabb, payload).wf(),
            self.insert(aabb, payload).lookup(self.next_key()) is Some,
            self.next_key().0 == if self.free.len() > 0 {
                self.free.last()
            } else {
                self.slots.len() as usize
            },
            self.free.len() > 0 ==> self.generations[self.free.last() as int] < u32::MAX,
    {
        let s2 = self.insert(aabb, payload);
        let key = self.next_key();
        if self.free.len() > 0 {
            let idx = self.free.last();
            assert(self.free[self.free.len() - 1] == idx);
            assert forall|k: int| 0 <= k < s2.free.len() implies {
                let f = #[trigger] s2.free[k];
                &&& f < s2.slots.len()
                &&& s2.slots[f as int] is None
                &&& s2.generations[f as int] < u32::MAX
            } by {
                assert(s2.free[k] == self.free[k]);
                assert(self.free[k] != idx);
            }
            assert forall|i: usize| s2.boxes.dom().contains(i) <==> s2.materialised(i) by {
                assert(self.boxes.dom().contains(i) <==> self.materialised(i));
            }
            assert forall|i: usize|
                s2.materialised(i) && (#[trigger] s2.slots[i as int])->0.mark is None implies s2.boxes[i]
                == s2.slots[i as int]->0.aabb by {
                assert(self.materialised(i));
                assert(self.slots[i as int]->0.mark is None);
            }
        } else {
            assert forall|k: int| 0 <= k < s2.free.len() implies {
                let f = #[trigger] s2.free[k];
                &&& f < s2.slots.len()
                &&& s2.slots[f as int] is None
                &&& s2.generations[f as int] < u32::MAX
            } by {
                assert(s2.free[k] == self.free[k]);
            }
            assert forall|i: usize| s2.boxes.dom().contains(i) <==> s2.materialised(i) by {
                assert(self.boxes.dom().contains(i) <==> self.materialised(i));
            }
            assert forall|i: usize|
                s2.materialised(i) && (#[trigger] s2.slots[i as int])->0.mark is None implies s2.boxes[i]
                == s2.slots[i as int]->0.aabb by {
                assert(self.materialised(i));
                assert(self.slots[i as int]->0.mark is None);
            }
        }
    }

    /// Updating keeps the invariant.
    pub proof fn lemma_update_wf(self, key: Key, aabb: Aabb2D<T>)
        requires
            self.wf(),
        ensures
            self.update(key, aabb).wf(),
    {
        let s2 = self.update(key, aabb);
        if self.lookup(key) is Some {
            assert forall|k: int| 0 <= k < s2.free.len() implies {
                let f = #[trigger] s2.free[k];
                &&& f < s2.slots.len()
                &&& s2.slots[f as int] is None
                &&& s2.generations[f as int] < u32::MAX
            } by {
                assert(self.slots[self.free[k] as int] is None);
            }
            assert forall|i: usize| s2.boxes.dom().contains(i) <==> s2.materialised(i) by {
                assert(self.boxes.dom().contains(i) <==> self.materialised(i));
            }
            assert forall|i: usize|
                s2.materialised(i) && (#[trigger] s2.slots[i as int])->0.mark is None implies s2.boxes[i]
                == s2.slots[i as int]->0.aabb by {
                assert(self.materialised(i));
                assert(self.slots[i as int]->0.mark is None);
            }
        }
    }

    /// Vacating an occupied slot that the backend does not hold keeps the
    /// part of the invariant that concerns the free list.
    pub proof fn lemma_release_free(self, i: usize)
        requires
            self.wf(),
            i < self.slots.len(),
            self.slots[i as int] is Some,
        ensures
            self.release(i).no_duplicates(),
            forall|k: int|
                0 <= k < self.release(i).len() ==> {
                    let f = #[trigger] self.release(i)[k];
                    &&& f < self.slots.len()
                    &&& self.slots.update(i as int, None)[f as int] is None
                    &&& self.generations[f as int] < u32::MAX
                },
    {
        let r = self.release(i);
        assert forall|k: int| 0 <= k < self.free.len() implies self.free[k] != i by {
            assert(self.slots[self.free[k] as int] is None);
        }
        assert forall|a: int, b: int| 0 <= a < r.len() && 0 <= b < r.len() && a != b implies r[a]
            != r[b] by {
            if a < self.free.len() && b < self.free.len() {
                assert(self.free[a] != self.free[b]);
            }
        }
        assert forall|k: int| 0 <= k < r.len() implies {
            let f = #[trigger] r[k];
            &&& f < self.slots.len()
            &&& self.slots.update(i as int, None)[f as int] is None
            &&& self.generations[f as int] < u32::MAX
        } by {
            if k < self.free.len() {
                assert(r[k] == self.free[k]);
            }
        }
    }

    /// Removing keeps the invariant.
    pub proof fn lemma_remove_wf(self, key: Key)
        requires
            self.wf(),
        ensures
            self.remove(key).wf(),
    {
        let s2 = self.remove(key);
        if let Some(e) = self.lookup(key) {
            let idx = key.0 as usize;
            if e.mark == Some(Mark::Added) {
                self.lemma_release_free(idx);
            } else {
                assert forall|k: int| 0 <= k < s2.free.len() implies {
                    let f = #[trigger] s2.free[k];
                    &&& f < s2.slots.len()
                    &&& s2.slots[f as int] is None
                    &&& s2.generations[f as int] < u32::MAX
                } by {
                    assert(self.slots[self.free[k] as int] is None);
                }
            }
            assert forall|i: usize| s2.boxes.dom().contains(i) <==> s2.materialised(i) by {
                assert(self.boxes.dom().contains(i) <==> self.materialised(i));
            }
            assert forall|i: usize|
                s2.materialised(i) && (#[trigger] s2.slots[i as int])->0.mark is None implies s2.boxes[i]
                == s2.slots[i as int]->0.aabb by {
                assert(self.materialised(i));
                assert(self.slots[i as int]->0.mark is None);
            }
        }
    }

    /// Committing one slot keeps the invariant.
    pub proof fn lemma_commit_slot_wf(self, i: usize)
        requires
            self.wf(),
            i < self.slots.len(),
        ensures
            self.commit_slot(i).wf(),
            self.commit_slot(i).slots.len() == self.slots.len(),
            forall|j: int|
                0 <= j < self.slots.len() && j != i ==> self.commit_slot(i).slots[j]
                    == self.slots[j],
    {
        let s2 = self.commit_slot(i);
        if let Some(e) = self.slots[i as int] {
            if e.mark == Some(Mark::Removed) {
                self.lemma_release_free(i);
            } else {
                assert forall|k: int| 0 <= k < s2.free.len() implies {
                    let f = #[trigger] s2.free[k];
                    &&& f < s2.slots.len()
                    &&& s2.slots[f as int] is None
                    &&& s2.generations[f as int] < u32::MAX
                } by {
                    assert(self.slots[self.free[k] as int] is None);
                }
            }
            assert forall|j: usize| s2.boxes.dom().contains(j) <==> s2.materialised(j) by {
                assert(self.boxes.dom().contains(j) <==> self.materialised(j));
            }
            assert forall|j: usize|
                s2.materialised(j) && (#[trigger] s2.slots[j as int])->0.mark is None implies s2.boxes[j]
                == s2.slots[j as int]->0.aabb by {
                if j != i {
                    assert(self.materialised(j));
                    assert(self.slots[j as int]->0.mark is None);
                }
            }
        }
    }
}

} // verus!
